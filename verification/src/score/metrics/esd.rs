//! Metrics of protection against electrostatic discharge, from declared roles.
use vstd::prelude::*;

use crate::number::{finite, no_number, place, Real};
use crate::order::as_ints;
use crate::score::board::{BoardModel, BoardModelV};
use crate::score::classify::NetInfo;
use crate::score::metrics::context::{
    find_footprints, find_zones, footprints_that, zones_that, Classes, ScoreContext, ScoreContextV,
    Trait,
};
use crate::score::metrics::esd_select::{
    check_protected, find_ground_pads, find_lines, find_signals, ground_pads, is_protected,
    lines_of, on_board, pad_at, signals, Line, LineV, PadAt,
};
use crate::score::metrics::si::{is_stitched, FAR};
use crate::score::model::{
    scored, skipped, with_offenders, Amount, CategoryResult, CategoryResultV, Extent, MetricResult,
    MetricResultV, Rule, WorstEntry, WorstEntryV,
};
use crate::score::roles::Role;

verus! {

/// The family of metrics of protection against discharges.
pub struct EsdPass;

/// What is measured for the family.
pub struct EsdReals {
    /// For each protected line, how far the suppressor is from the connector.
    pub tvs_distances: Vec<Real>,
    pub mean_tvs_distance: Real,
    /// For each protected line, how far each other pad is from the connector.
    pub other_distances: Vec<Vec<Real>>,
    /// For each ground pad of a suppressor, whether it lies in a filled area of its net.
    pub in_fill: Vec<bool>,
    /// For each ground pad of a suppressor, how far the nearest via of its net is.
    pub via_distances: Vec<Real>,
    /// For each connector, points around it: whether a ground fill covers the point.
    pub rings: Vec<Vec<bool>>,
}

/// How many points around a connector are looked at.
pub const RING_POINTS: usize = 8;

/// Entries for lines by distance.
pub open spec fn line_entries(lines: Seq<LineV>, distances: Seq<Real>) -> Seq<WorstEntryV> {
    Seq::new(
        lines.len(),
        |i: int|
            WorstEntryV { label: lines[i].net_name, value: Extent::Measured(distances[i]) },
    )
}

/// How near suppressors are to connectors.
pub open spec fn proximity_metric(lines: Seq<LineV>, distances: Seq<Real>, mean: Real) -> MetricResultV {
    if lines.len() == 0 {
        skipped(
            "tvs_proximity"@,
            20,
            "no nets shared by a connector pad and a TVS pad"@,
        )
    } else {
        with_offenders(
            scored("tvs_proximity"@, Amount::Measured(mean), "mm"@, Rule::Decay(5000), 20),
            line_entries(lines, distances),
            true,
        )
    }
}

/// No other pad is nearer to the connector than the suppressor.
pub open spec fn comes_first(distance: Real, others: Seq<Real>) -> bool {
    !no_number(distance) && forall|i: int|
        0 <= i < others.len() ==> !no_number(#[trigger] others[i]) && place(others[i]) >= place(
            distance,
        )
}

/// How many of the first `n` lines reach another component.
pub open spec fn judged(lines: Seq<LineV>, n: int) -> nat
    decreases n,
{
    if n <= 0 {
        0
    } else {
        judged(lines, n - 1) + if lines[n - 1].others.len() > 0 {
            1nat
        } else {
            0nat
        }
    }
}

/// How many of those have the suppressor first.
pub open spec fn well_ordered(
    lines: Seq<LineV>,
    distances: Seq<Real>,
    others: Seq<Seq<Real>>,
    n: int,
) -> nat
    decreases n,
{
    if n <= 0 {
        0
    } else {
        well_ordered(lines, distances, others, n - 1) + if lines[n - 1].others.len() > 0
            && comes_first(distances[n - 1], others[n - 1]) {
            1nat
        } else {
            0nat
        }
    }
}

/// Entries for those that do not.
pub open spec fn misordered(
    lines: Seq<LineV>,
    distances: Seq<Real>,
    others: Seq<Seq<Real>>,
    n: int,
) -> Seq<WorstEntryV>
    decreases n,
{
    if n <= 0 {
        Seq::empty()
    } else {
        let front = misordered(lines, distances, others, n - 1);
        if lines[n - 1].others.len() > 0 && !comes_first(distances[n - 1], others[n - 1]) {
            front.push(
                WorstEntryV {
                    label: lines[n - 1].net_name,
                    value: Extent::Measured(distances[n - 1]),
                },
            )
        } else {
            front
        }
    }
}

/// Whether suppressors come before what they protect.
pub open spec fn topology_metric(
    lines: Seq<LineV>,
    distances: Seq<Real>,
    others: Seq<Seq<Real>>,
) -> MetricResultV {
    let n = lines.len() as int;
    if judged(lines, n) == 0 {
        skipped("protection_topology"@, 20, "protected nets reach no third component"@)
    } else {
        with_offenders(
            scored(
                "protection_topology"@,
                Amount::Ratio(
                    well_ordered(lines, distances, others, n) as u128,
                    judged(lines, n) as u128,
                ),
                "ratio"@,
                Rule::Share(1000),
                20,
            ),
            misordered(lines, distances, others, n),
            true,
        )
    }
}

/// A pad has a short way to its plane: it lies in a fill, or a via is within a millimetre.
pub open spec fn is_short(b: BoardModelV, p: PadAt, in_fill: bool, d: Real) -> bool {
    pad_at(b, p).net is Some && (in_fill || is_stitched(d))
}

/// How many of the first `n` pads have a short way to their planes.
pub open spec fn short_ways(
    b: BoardModelV,
    pads: Seq<PadAt>,
    in_fill: Seq<bool>,
    distances: Seq<Real>,
    n: int,
) -> nat
    decreases n,
{
    if n <= 0 {
        0
    } else {
        short_ways(b, pads, in_fill, distances, n - 1) + if is_short(
            b,
            pads[n - 1],
            in_fill[n - 1],
            distances[n - 1],
        ) {
            1nat
        } else {
            0nat
        }
    }
}

/// Entries for the pads on numbered nets with a long way.
pub open spec fn long_ways(
    b: BoardModelV,
    pads: Seq<PadAt>,
    in_fill: Seq<bool>,
    distances: Seq<Real>,
    n: int,
) -> Seq<WorstEntryV>
    decreases n,
{
    if n <= 0 {
        Seq::empty()
    } else {
        let front = long_ways(b, pads, in_fill, distances, n - 1);
        let p = pads[n - 1];
        let d = distances[n - 1];
        if pad_at(b, p).net is Some && !is_short(b, p, in_fill[n - 1], d) {
            front.push(
                WorstEntryV {
                    label: b.footprints[p.footprint as int].reference,
                    value: Extent::Measured(
                        if finite(d) {
                            d
                        } else {
                            Real { bits: FAR }
                        },
                    ),
                },
            )
        } else {
            front
        }
    }
}

/// Whether the ground pads of suppressors have short ways to the ground plane.
pub open spec fn return_metric(
    b: BoardModelV,
    pads: Seq<PadAt>,
    in_fill: Seq<bool>,
    distances: Seq<Real>,
) -> MetricResultV {
    let n = pads.len() as int;
    if n == 0 {
        skipped("esd_return_path"@, 20, "TVS components have no ground pads"@)
    } else {
        with_offenders(
            scored(
                "esd_return_path"@,
                Amount::Ratio(
                    short_ways(b, pads, in_fill, distances, n) as u128,
                    pads.len() as u128,
                ),
                "ratio"@,
                Rule::Share(1000),
                20,
            ),
            long_ways(b, pads, in_fill, distances, n),
            true,
        )
    }
}

/// How many of the names are protected.
pub open spec fn protected(b: BoardModelV, tvs: Seq<int>, names: Seq<Seq<char>>) -> nat
    decreases names.len(),
{
    if names.len() == 0 {
        0
    } else {
        protected(b, tvs, names.drop_last()) + if is_protected(b, tvs, names.last()) {
            1nat
        } else {
            0nat
        }
    }
}

/// Entries for the names that are not protected.
pub open spec fn unprotected(b: BoardModelV, tvs: Seq<int>, names: Seq<Seq<char>>) -> Seq<
    WorstEntryV,
>
    decreases names.len(),
{
    if names.len() == 0 {
        Seq::empty()
    } else {
        let front = unprotected(b, tvs, names.drop_last());
        if is_protected(b, tvs, names.last()) {
            front
        } else {
            front.push(WorstEntryV { label: names.last(), value: Extent::Count(0) })
        }
    }
}

/// Signal pads of connectors without a suppressor.
pub open spec fn exposed_metric(b: BoardModelV, tvs: Seq<int>, names: Seq<Seq<char>>) -> MetricResultV {
    if names.len() == 0 {
        skipped("unprotected_connector_lines"@, 10, "connectors expose no signal pads"@)
    } else {
        with_offenders(
            scored(
                "unprotected_connector_lines"@,
                Amount::Ratio(protected(b, tvs, names) as u128, names.len() as u128),
                "ratio"@,
                Rule::Share(1000),
                10,
            ),
            unprotected(b, tvs, names),
            false,
        )
    }
}

/// How many points are covered.
pub open spec fn covered_points(ring: Seq<bool>) -> nat
    decreases ring.len(),
{
    if ring.len() == 0 {
        0
    } else {
        covered_points(ring.drop_last()) + if ring.last() {
            1nat
        } else {
            0nat
        }
    }
}

/// How many rings have at least four covered points.
pub open spec fn guarded(rings: Seq<Seq<bool>>) -> nat
    decreases rings.len(),
{
    if rings.len() == 0 {
        0
    } else {
        guarded(rings.drop_last()) + if covered_points(rings.last()) >= 4 {
            1nat
        } else {
            0nat
        }
    }
}

/// Ground fills around connectors.
pub open spec fn guard_metric(b: BoardModelV, classes: Classes, connectors: nat, rings: Seq<Seq<bool>>) -> MetricResultV {
    if zones_that(b, classes, Trait::Ground).len() == 0 {
        skipped("guard_structures"@, 10, "no ground fills present"@)
    } else {
        scored(
            "guard_structures"@,
            Amount::Ratio(guarded(rings) as u128, connectors as u128),
            "ratio"@,
            Rule::Share(1000),
            10,
        )
    }
}

/// No metric applies, for one reason.
pub open spec fn none_apply(note: Seq<char>) -> Seq<MetricResultV> {
    seq![
        skipped("tvs_proximity"@, 10, note),
        skipped("protection_topology"@, 10, note),
        skipped("esd_return_path"@, 10, note),
        skipped("unprotected_connector_lines"@, 10, note),
        skipped("guard_structures"@, 10, note),
    ]
}

/// The metrics of the family.
pub open spec fn esd_metrics(c: ScoreContextV, m: EsdReals) -> Seq<MetricResultV> {
    match (c.net_classes, c.roles) {
        (Some(classes), Some(roles)) => {
            let b = c.board;
            let tvs = footprints_that(b, roles, Role::Tvs);
            let connectors = footprints_that(b, roles, Role::Connector);
            let lines = lines_of(b, classes, connectors, tvs);
            if tvs.len() == 0 {
                none_apply("no TVS components declared (type=\"tvs\")"@)
            } else if connectors.len() == 0 {
                none_apply("no connectors declared (type=\"connector\")"@)
            } else {
                seq![
                    proximity_metric(lines, m.tvs_distances@, m.mean_tvs_distance),
                    topology_metric(lines, m.tvs_distances@, m.other_distances.deep_view()),
                    return_metric(
                        b,
                        ground_pads(b, classes, tvs),
                        m.in_fill@,
                        m.via_distances@,
                    ),
                    exposed_metric(b, tvs, signals(b, classes, connectors)),
                    guard_metric(b, classes, connectors.len(), m.rings.deep_view()),
                ]
            }
        },
        _ => none_apply("netlist unavailable: declarative roles required"@),
    }
}

/// The results of the family.
pub open spec fn esd_results(c: ScoreContextV, m: EsdReals) -> CategoryResultV {
    CategoryResultV {
        id: "esd"@,
        label: "ESD protection"@,
        weight: c.weights.esd,
        metrics: esd_metrics(c, m),
    }
}

/// There is one measurement for each thing that is measured.
pub open spec fn esd_fits(c: ScoreContextV, m: EsdReals) -> bool {
    (c.net_classes is Some && c.roles is Some) ==> {
        let b = c.board;
        let classes = c.net_classes->0;
        let tvs = footprints_that(b, c.roles->0, Role::Tvs);
        let connectors = footprints_that(b, c.roles->0, Role::Connector);
        let lines = lines_of(b, classes, connectors, tvs);
        let pads = ground_pads(b, classes, tvs);
        &&& m.tvs_distances@.len() == lines.len()
        &&& m.other_distances@.len() == lines.len()
        &&& forall|i: int|
            0 <= i < lines.len() ==> (#[trigger] m.other_distances@[i])@.len()
                == lines[i].others.len()
        &&& m.in_fill@.len() == pads.len()
        &&& m.via_distances@.len() == pads.len()
        &&& m.rings@.len() == connectors.len()
        &&& forall|i: int|
            0 <= i < connectors.len() ==> (#[trigger] m.rings@[i])@.len() == RING_POINTS
    }
}

fn judge_proximity(lines: &Vec<Line>, m: &EsdReals) -> (r: MetricResult)
    requires
        m.tvs_distances@.len() == lines@.len(),
    ensures
        r.deep_view() == proximity_metric(
            lines.deep_view(),
            m.tvs_distances@,
            m.mean_tvs_distance,
        ),
{
    let id = "tvs_proximity";
    let ghost lv = lines.deep_view();
    let n: usize = lines.len();
    assert(lv.len() == n);
    if n == 0 {
        return MetricResult::not_applicable(
            id,
            20,
            "no nets shared by a connector pad and a TVS pad",
        );
    }
    let ghost want = line_entries(lv, m.tvs_distances@);
    let mut worst: Vec<WorstEntry> = Vec::new();
    let mut i: usize = 0;
    while i < n
        invariant
            n == lines@.len(),
            n == m.tvs_distances@.len(),
            i <= n,
            lv == lines.deep_view(),
            want == line_entries(lv, m.tvs_distances@),
            worst.deep_view() == want.take(i as int),
        decreases n - i,
    {
        let ghost before = worst.deep_view();
        assert(lv[i as int] == lines@[i as int].deep_view());
        worst.push(
            WorstEntry {
                label: lines[i].net_name.clone(),
                value: Extent::Measured(m.tvs_distances[i]),
            },
        );
        assert(worst.deep_view() =~= before.push(want[i as int]));
        assert(worst.deep_view() =~= want.take(i + 1));
        i += 1;
    }
    assert(want.take(n as int) =~= want);
    MetricResult::new(id, Amount::Measured(m.mean_tvs_distance), "mm", Rule::Decay(5000), 20)
        .with_worst(worst, true)
}

fn check_first(distance: Real, others: &Vec<Real>) -> (r: bool)
    ensures
        r == comes_first(distance, others@),
{
    if distance.is_missing() {
        return false;
    }
    let d: i64 = distance.rank();
    let n: usize = others.len();
    let mut i: usize = 0;
    while i < n
        invariant
            n == others@.len(),
            i <= n,
            d == place(distance),
            forall|j: int|
                0 <= j < i ==> !no_number(#[trigger] others@[j]) && place(others@[j]) >= place(
                    distance,
                ),
        decreases n - i,
    {
        if others[i].is_missing() || others[i].rank() < d {
            return false;
        }
        i += 1;
    }
    true
}

fn judge_topology(lines: &Vec<Line>, m: &EsdReals) -> (r: MetricResult)
    requires
        m.tvs_distances@.len() == lines@.len(),
        m.other_distances@.len() == lines@.len(),
    ensures
        r.deep_view() == topology_metric(
            lines.deep_view(),
            m.tvs_distances@,
            m.other_distances.deep_view(),
        ),
{
    let id = "protection_topology";
    let ghost lv = lines.deep_view();
    let ghost dv = m.tvs_distances@;
    let ghost ov = m.other_distances.deep_view();
    let n: usize = lines.len();
    let mut count: usize = 0;
    let mut ok: usize = 0;
    let mut worst: Vec<WorstEntry> = Vec::new();
    let mut i: usize = 0;
    assert(worst.deep_view() =~= misordered(lv, dv, ov, 0));
    while i < n
        invariant
            n == lines@.len(),
            n == m.tvs_distances@.len(),
            n == m.other_distances@.len(),
            i <= n,
            lv == lines.deep_view(),
            dv == m.tvs_distances@,
            ov == m.other_distances.deep_view(),
            count == judged(lv, i as int),
            ok == well_ordered(lv, dv, ov, i as int),
            count <= i,
            ok <= count,
            worst.deep_view() == misordered(lv, dv, ov, i as int),
        decreases n - i,
    {
        let ghost before = worst.deep_view();
        assert(lv[i as int] == lines@[i as int].deep_view());
        assert(ov[i as int] =~= m.other_distances@[i as int]@);
        if lines[i].others.len() > 0 {
            count += 1;
            if check_first(m.tvs_distances[i], &m.other_distances[i]) {
                ok += 1;
            } else {
                let value = Extent::Measured(m.tvs_distances[i]);
                worst.push(WorstEntry { label: lines[i].net_name.clone(), value });
                assert(worst.deep_view() =~= before.push(
                    WorstEntryV { label: lv[i as int].net_name, value },
                ));
            }
        }
        i += 1;
    }
    assert(lv.len() == n);
    if count == 0 {
        MetricResult::not_applicable(id, 20, "protected nets reach no third component")
    } else {
        MetricResult::new(
            id,
            Amount::Ratio(ok as u128, count as u128),
            "ratio",
            Rule::Share(1000),
            20,
        ).with_worst(worst, true)
    }
}

fn judge_returns(board: &BoardModel, pads: &Vec<PadAt>, m: &EsdReals) -> (r: MetricResult)
    requires
        forall|i: int| 0 <= i < pads@.len() ==> on_board(board.deep_view(), #[trigger] pads@[i]),
        m.in_fill@.len() == pads@.len(),
        m.via_distances@.len() == pads@.len(),
    ensures
        r.deep_view() == return_metric(
            board.deep_view(),
            pads@,
            m.in_fill@,
            m.via_distances@,
        ),
{
    let id = "esd_return_path";
    let ghost bv = board.deep_view();
    let ghost fv = m.in_fill@;
    let ghost dv = m.via_distances@;
    let n: usize = pads.len();
    if n == 0 {
        return MetricResult::not_applicable(id, 20, "TVS components have no ground pads");
    }
    let one = crate::score::metrics::si::ONE;
    let mut ok: usize = 0;
    let mut worst: Vec<WorstEntry> = Vec::new();
    let mut i: usize = 0;
    assert(worst.deep_view() =~= long_ways(bv, pads@, fv, dv, 0));
    while i < n
        invariant
            n == pads@.len(),
            n == m.in_fill@.len(),
            n == m.via_distances@.len(),
            i <= n,
            one == crate::score::metrics::si::ONE,
            bv == board.deep_view(),
            fv == m.in_fill@,
            dv == m.via_distances@,
            forall|j: int| 0 <= j < pads@.len() ==> on_board(bv, #[trigger] pads@[j]),
            ok == short_ways(bv, pads@, fv, dv, i as int),
            ok <= i,
            worst.deep_view() == long_ways(bv, pads@, fv, dv, i as int),
        decreases n - i,
    {
        let ghost before = worst.deep_view();
        let p = pads[i];
        let ghost foot = bv.footprints[p.footprint as int];
        assert(on_board(bv, pads@[i as int]));
        assert(foot == board.footprints@[p.footprint as int].deep_view());
        assert(foot.pads[p.pad as int]
            == board.footprints@[p.footprint as int].pads@[p.pad as int].deep_view());
        let d = m.via_distances[i];
        if board.footprints[p.footprint].pads[p.pad].net.is_some() {
            if m.in_fill[i] || (!d.is_missing() && d.rank() <= one as i64) {
                ok += 1;
            } else {
                let value = Extent::Measured(
                    if d.is_finite() {
                        d
                    } else {
                        Real { bits: FAR }
                    },
                );
                worst.push(
                    WorstEntry { label: board.footprints[p.footprint].reference.clone(), value },
                );
                assert(worst.deep_view() =~= before.push(
                    WorstEntryV { label: foot.reference, value },
                ));
            }
        }
        i += 1;
    }
    MetricResult::new(
        id,
        Amount::Ratio(ok as u128, n as u128),
        "ratio",
        Rule::Share(1000),
        20,
    ).with_worst(worst, true)
}

fn judge_exposed(board: &BoardModel, tvs: &Vec<usize>, names: &Vec<String>) -> (r: MetricResult)
    requires
        forall|i: int| 0 <= i < tvs@.len() ==> (#[trigger] tvs@[i]) < board.footprints@.len(),
    ensures
        r.deep_view() == exposed_metric(board.deep_view(), as_ints(tvs@), names.deep_view()),
{
    let id = "unprotected_connector_lines";
    let ghost bv = board.deep_view();
    let ghost tv = as_ints(tvs@);
    let ghost nv = names.deep_view();
    let n: usize = names.len();
    assert(nv.len() == n);
    if n == 0 {
        return MetricResult::not_applicable(id, 10, "connectors expose no signal pads");
    }
    let mut ok: usize = 0;
    let mut worst: Vec<WorstEntry> = Vec::new();
    let mut i: usize = 0;
    assert(worst.deep_view() =~= unprotected(bv, tv, nv.take(0)));
    while i < n
        invariant
            n == names@.len(),
            i <= n,
            bv == board.deep_view(),
            tv == as_ints(tvs@),
            nv == names.deep_view(),
            forall|j: int| 0 <= j < tvs@.len() ==> (#[trigger] tvs@[j]) < board.footprints@.len(),
            ok == protected(bv, tv, nv.take(i as int)),
            ok <= i,
            worst.deep_view() == unprotected(bv, tv, nv.take(i as int)),
        decreases n - i,
    {
        let ghost before = worst.deep_view();
        assert(nv.take(i + 1).drop_last() =~= nv.take(i as int));
        assert(nv[i as int] == names@[i as int]@);
        if check_protected(board, tvs, names[i].as_str()) {
            ok += 1;
        } else {
            let value = Extent::Count(0);
            worst.push(WorstEntry { label: names[i].clone(), value });
            assert(worst.deep_view() =~= before.push(WorstEntryV { label: nv[i as int], value }));
        }
        i += 1;
    }
    assert(nv.take(n as int) =~= nv);
    MetricResult::new(
        id,
        Amount::Ratio(ok as u128, n as u128),
        "ratio",
        Rule::Share(1000),
        10,
    ).with_worst(worst, false)
}

fn count_covered(ring: &Vec<bool>) -> (r: usize)
    ensures
        r == covered_points(ring@),
{
    let n: usize = ring.len();
    let mut count: usize = 0;
    let mut i: usize = 0;
    while i < n
        invariant
            n == ring@.len(),
            i <= n,
            count == covered_points(ring@.take(i as int)),
            count <= i,
        decreases n - i,
    {
        assert(ring@.take(i + 1).drop_last() =~= ring@.take(i as int));
        if ring[i] {
            count += 1;
        }
        i += 1;
    }
    assert(ring@.take(n as int) =~= ring@);
    count
}

fn judge_guards(
    board: &BoardModel,
    classes: &Vec<(String, NetInfo)>,
    connectors: usize,
    m: &EsdReals,
) -> (r: MetricResult)
    ensures
        r.deep_view() == guard_metric(
            board.deep_view(),
            classes.deep_view(),
            connectors as nat,
            m.rings.deep_view(),
        ),
{
    let id = "guard_structures";
    let zones = find_zones(board, classes, Trait::Ground);
    assert(as_ints(zones@).len() == zones@.len());
    if zones.len() == 0 {
        return MetricResult::not_applicable(id, 10, "no ground fills present");
    }
    let ghost rv = m.rings.deep_view();
    let n: usize = m.rings.len();
    let mut ok: usize = 0;
    let mut i: usize = 0;
    while i < n
        invariant
            n == m.rings@.len(),
            i <= n,
            rv == m.rings.deep_view(),
            ok == guarded(rv.take(i as int)),
            ok <= i,
        decreases n - i,
    {
        assert(rv.take(i + 1).drop_last() =~= rv.take(i as int));
        assert(rv[i as int] =~= m.rings@[i as int]@);
        if count_covered(&m.rings[i]) >= 4 {
            ok += 1;
        }
        i += 1;
    }
    assert(rv.take(n as int) =~= rv);
    MetricResult::new(
        id,
        Amount::Ratio(ok as u128, connectors as u128),
        "ratio",
        Rule::Share(1000),
        10,
    )
}

fn skip_all(note: &str) -> (r: Vec<MetricResult>)
    ensures
        r.deep_view() == none_apply(note@),
{
    let mut m: Vec<MetricResult> = Vec::new();
    m.push(MetricResult::not_applicable("tvs_proximity", 10, note));
    m.push(MetricResult::not_applicable("protection_topology", 10, note));
    m.push(MetricResult::not_applicable("esd_return_path", 10, note));
    m.push(MetricResult::not_applicable("unprotected_connector_lines", 10, note));
    m.push(MetricResult::not_applicable("guard_structures", 10, note));
    assert(m.deep_view() =~= none_apply(note@));
    m
}

fn judge_all(
    board: &BoardModel,
    classes: &Vec<(String, NetInfo)>,
    tvs: &Vec<usize>,
    connectors: &Vec<usize>,
    m: &EsdReals,
) -> (r: Vec<MetricResult>)
    requires
        forall|i: int| 0 <= i < tvs@.len() ==> (#[trigger] tvs@[i]) < board.footprints@.len(),
        forall|i: int|
            0 <= i < connectors@.len() ==> (#[trigger] connectors@[i]) < board.footprints@.len(),
        m.tvs_distances@.len() == lines_of(
            board.deep_view(),
            classes.deep_view(),
            as_ints(connectors@),
            as_ints(tvs@),
        ).len(),
        m.other_distances@.len() == m.tvs_distances@.len(),
        m.in_fill@.len() == ground_pads(
            board.deep_view(),
            classes.deep_view(),
            as_ints(tvs@),
        ).len(),
        m.via_distances@.len() == m.in_fill@.len(),
    ensures
        r.deep_view() == ({
            let b = board.deep_view();
            let c = classes.deep_view();
            let tv = as_ints(tvs@);
            let kv = as_ints(connectors@);
            let lines = lines_of(b, c, kv, tv);
            seq![
                proximity_metric(lines, m.tvs_distances@, m.mean_tvs_distance),
                topology_metric(lines, m.tvs_distances@, m.other_distances.deep_view()),
                return_metric(b, ground_pads(b, c, tv), m.in_fill@, m.via_distances@),
                exposed_metric(b, tv, signals(b, c, kv)),
                guard_metric(b, c, kv.len(), m.rings.deep_view()),
            ]
        }),
{
    let lines = find_lines(board, classes, connectors, tvs);
    assert(lines.deep_view().len() == lines@.len());
    let pads = find_ground_pads(board, classes, tvs);
    let names = find_signals(board, classes, connectors);
    let mut out: Vec<MetricResult> = Vec::new();
    out.push(judge_proximity(&lines, m));
    out.push(judge_topology(&lines, m));
    out.push(judge_returns(board, &pads, m));
    out.push(judge_exposed(board, tvs, &names));
    out.push(judge_guards(board, classes, connectors.len(), m));
    assert(as_ints(connectors@).len() == connectors@.len());
    out
}

impl EsdPass {
    /// The name of the family.
    pub fn id(&self) -> (r: &'static str)
        ensures
            r@ == "esd"@,
    {
        "esd"
    }

    /// The results of the family.
    pub fn run(&self, ctx: &ScoreContext, reals: &EsdReals) -> (r: CategoryResult)
        requires
            esd_fits(ctx.deep_view(), *reals),
        ensures
            r.deep_view() == esd_results(ctx.deep_view(), *reals),
    {
        let ghost cv = ctx.deep_view();
        let metrics = match (&ctx.net_classes, &ctx.roles) {
            (Some(classes), Some(roles)) => {
                let board = &ctx.board;
                let tvs = find_footprints(board, roles, Role::Tvs);
                let connectors = find_footprints(board, roles, Role::Connector);
                assert(as_ints(tvs@).len() == tvs@.len());
                assert(as_ints(connectors@).len() == connectors@.len());
                if tvs.len() == 0 {
                    skip_all("no TVS components declared (type=\"tvs\")")
                } else if connectors.len() == 0 {
                    skip_all("no connectors declared (type=\"connector\")")
                } else {
                    judge_all(board, classes, &tvs, &connectors, reals)
                }
            },
            _ => skip_all("netlist unavailable: declarative roles required"),
        };
        assert(metrics.deep_view() =~= esd_metrics(cv, *reals));
        CategoryResult::new("esd", "ESD protection", ctx.weights.esd, metrics)
    }
}

} // verus!
