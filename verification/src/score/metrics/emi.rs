//! Metrics of electromagnetic emission: loop areas, board edges, stitching, gaps in planes.
use vstd::prelude::*;

use crate::number::{below, Real, INFINITE};
use crate::order::as_ints;
use crate::score::board::{BoardModel, BoardModelV, FootprintV};
use crate::score::classify::NetInfo;
use crate::score::metrics::context::{
    find_footprints, find_nets, find_vias, find_zones, footprints_that, nets_that, no_netlist,
    vias_that, zones_that, Classes, ScoreContext, ScoreContextV, Trait,
};
use crate::score::metrics::emi_select::{
    any_finite, check_any_finite, count_all_gaps, count_gaps_of_name, fast_tracks,
    find_fast_tracks, find_lowest, find_lowest_of_all, find_near_edge, find_widest, gap_total,
    gaps_of_name, lowest, lowest_of_all, near_edge, sample_total, widest,
};
use crate::score::metrics::entries::{entries_all, list_all, name_tracks, track_names};
use crate::score::metrics::power_select::{check_pads, some_pad_is};
use crate::score::metrics::si::FAR;
use crate::score::model::{
    noted, scored, skipped, with_offenders, Amount, CategoryResult, CategoryResultV, Extent,
    MetricResult, MetricResultV, Rule, WorstEntry, WorstEntryV,
};
use crate::score::net_stats::TINY;
use crate::score::roles::Role;
use crate::score::stackup::{has_depths, knows_depths, plane_layers, planes_of};

verus! {

/// The family of metrics of electromagnetic emission.
pub struct EmiPass;

/// What is measured for the family.
pub struct EmiReals {
    /// For each name of a routed fast net, in order, the area between its tracks and the nearest
    /// reference plane.
    pub loop_areas: Vec<Real>,
    pub loop_total: Real,
    /// For each track, how far the copper at its ends is from the outline.
    pub edge_distances: Vec<(Real, Real)>,
    /// For each ground via, how far it is from the outline.
    pub via_edge_distances: Vec<Real>,
    /// For each ground via near the outline, how far the nearest other such via is.
    pub edge_gaps: Vec<Real>,
    /// For each fast track, how far the nearest ground via is from its middle.
    pub via_distances: Vec<Real>,
    pub mean_via_distance: Real,
    /// For each fast track, samples along it: whether a reference fill on another layer covers
    /// the sample. No samples where the track has no length.
    pub covered: Vec<Vec<bool>>,
    /// The length of the fast tracks.
    pub fast_length: Real,
    /// The share of that length on outer layers.
    pub outer_ratio: Real,
    /// For each connector the number of ground vias within reach.
    pub connector_vias: Vec<u64>,
}

/// The area between fast tracks and the reference planes.
pub open spec fn loop_area_metric(
    b: BoardModelV,
    classes: Classes,
    areas: Seq<Real>,
    total: Real,
) -> MetricResultV {
    if nets_that(b, classes, Trait::HighSpeed).len() == 0 {
        skipped("loop_area_proxy"@, 30, "no high-speed nets declared"@)
    } else if !has_depths(b.stackup) {
        skipped("loop_area_proxy"@, 30, "stackup data missing"@)
    } else {
        with_offenders(
            scored("loop_area_proxy"@, Amount::Measured(total), "mm2"@, Rule::Decay(20000), 30),
            entries_all(track_names(b, fast_tracks(b, classes)), areas),
            true,
        )
    }
}

/// All places below `n`.
pub open spec fn every_place(n: nat) -> Seq<int> {
    Seq::new(n, |i: int| i)
}

/// Entries for names by the smallest distance of their tracks.
pub open spec fn low_entries(
    b: BoardModelV,
    distances: Seq<(Real, Real)>,
    names: Seq<Seq<char>>,
) -> Seq<WorstEntryV>
    decreases names.len(),
{
    if names.len() == 0 {
        Seq::empty()
    } else {
        let front = low_entries(b, distances, names.drop_last());
        match lowest(b, distances, names.last(), distances.len() as int) {
            Some(d) => front.push(
                WorstEntryV { label: names.last(), value: Extent::Measured(d) },
            ),
            None => front,
        }
    }
}

/// How far copper keeps from the edge of the board.
pub open spec fn edge_metric(b: BoardModelV, distances: Seq<(Real, Real)>) -> MetricResultV {
    if b.outline.len() == 0 {
        skipped("edge_clearance"@, 20, "no board outline (Edge.Cuts) found"@)
    } else if b.tracks.len() == 0 {
        skipped("edge_clearance"@, 20, "no routed tracks"@)
    } else {
        with_offenders(
            scored(
                "edge_clearance"@,
                Amount::Measured(lowest_of_all(Real { bits: INFINITE }, distances)),
                "mm"@,
                Rule::Share(500),
                20,
            ),
            low_entries(b, distances, track_names(b, every_place(b.tracks.len()))),
            false,
        )
    }
}

/// The largest gap in the fence of ground vias along the edge.
pub open spec fn fence_metric(
    b: BoardModelV,
    classes: Classes,
    distances: Seq<Real>,
    gaps: Seq<Real>,
) -> MetricResultV {
    if b.outline.len() == 0 || planes_of(b, Some(classes)).len() == 0 {
        skipped("edge_stitching_density"@, 10, "needs an outline and reference planes"@)
    } else if near_edge(distances).len() < 2 {
        noted(
            scored(
                "edge_stitching_density"@,
                Amount::Measured(Real { bits: FAR }),
                "mm"@,
                Rule::Fixed(0),
                10,
            ),
            "fewer than two ground vias near the board edge"@,
        )
    } else {
        scored(
            "edge_stitching_density"@,
            Amount::Measured(widest(gaps)),
            "mm"@,
            Rule::Inverse(5000),
            10,
        )
    }
}

/// How near ground vias are to fast tracks.
pub open spec fn stitching_density_metric(
    b: BoardModelV,
    classes: Classes,
    distances: Seq<Real>,
    mean: Real,
) -> MetricResultV {
    if nets_that(b, classes, Trait::HighSpeed).len() == 0 {
        skipped("stitching_via_density"@, 10, "no high-speed nets declared"@)
    } else if vias_that(b, classes, Trait::Ground).len() == 0 {
        noted(
            scored(
                "stitching_via_density"@,
                Amount::Measured(Real { bits: FAR }),
                "mm"@,
                Rule::Fixed(0),
                10,
            ),
            "no ground vias on the board"@,
        )
    } else if !any_finite(distances) {
        skipped("stitching_via_density"@, 10, "high-speed nets have no routed tracks"@)
    } else {
        scored("stitching_via_density"@, Amount::Measured(mean), "mm"@, Rule::Decay(3000), 10)
    }
}

/// Entries for the names with gaps underneath their tracks.
pub open spec fn gap_entries(
    b: BoardModelV,
    at: Seq<int>,
    covered: Seq<Seq<bool>>,
    names: Seq<Seq<char>>,
) -> Seq<WorstEntryV>
    decreases names.len(),
{
    if names.len() == 0 {
        Seq::empty()
    } else {
        let front = gap_entries(b, at, covered, names.drop_last());
        let count = gaps_of_name(b, at, covered, names.last(), at.len() as int);
        if count > 0 {
            front.push(WorstEntryV { label: names.last(), value: Extent::Count(count as u64) })
        } else {
            front
        }
    }
}

/// Gaps in the reference underneath fast tracks.
pub open spec fn slot_metric(b: BoardModelV, classes: Classes, covered: Seq<Seq<bool>>) -> MetricResultV {
    let at = fast_tracks(b, classes);
    if nets_that(b, classes, Trait::HighSpeed).len() == 0 || zones_that(
        b,
        classes,
        Trait::Reference,
    ).len() == 0 {
        skipped(
            "plane_slot_crossings"@,
            20,
            "needs high-speed nets and reference plane fills"@,
        )
    } else {
        with_offenders(
            scored(
                "plane_slot_crossings"@,
                Amount::Count(gap_total(covered, covered.len() as int) as u128),
                "count"@,
                Rule::Decay(1000),
                20,
            ),
            gap_entries(b, at, covered, track_names(b, at)),
            true,
        )
    }
}

/// How much of the fast routing is on outer layers.
pub open spec fn exposure_metric(b: BoardModelV, classes: Classes, length: Real, ratio: Real) -> MetricResultV {
    if b.copper_layers.len() <= 2 {
        skipped(
            "outer_layer_hs_exposure"@,
            10,
            "two-layer board: no inner layers available"@,
        )
    } else if nets_that(b, classes, Trait::HighSpeed).len() == 0 {
        skipped("outer_layer_hs_exposure"@, 10, "no high-speed nets declared"@)
    } else if below(Real { bits: TINY }, length) {
        scored(
            "outer_layer_hs_exposure"@,
            Amount::Measured(ratio),
            "ratio"@,
            Rule::Complement,
            10,
        )
    } else {
        skipped("outer_layer_hs_exposure"@, 10, "high-speed nets have no routed tracks"@)
    }
}

/// A connector is tied to ground: by a pad, and with at least two ground vias within reach.
pub open spec fn is_tied(classes: Classes, f: FootprintV, vias: u64) -> bool {
    some_pad_is(classes, f.pads, Trait::Ground) && vias >= 2
}

/// How many connectors are tied to ground.
pub open spec fn tied(b: BoardModelV, classes: Classes, at: Seq<int>, vias: Seq<u64>) -> nat
    decreases vias.len(),
{
    if vias.len() == 0 {
        0
    } else {
        tied(b, classes, at, vias.drop_last()) + if is_tied(
            classes,
            b.footprints[at[vias.len() - 1]],
            vias.last(),
        ) {
            1nat
        } else {
            0nat
        }
    }
}

/// Entries for the connectors that are not tied to ground.
pub open spec fn untied(b: BoardModelV, classes: Classes, at: Seq<int>, vias: Seq<u64>) -> Seq<
    WorstEntryV,
>
    decreases vias.len(),
{
    if vias.len() == 0 {
        Seq::empty()
    } else {
        let front = untied(b, classes, at, vias.drop_last());
        let f = b.footprints[at[vias.len() - 1]];
        if is_tied(classes, f, vias.last()) {
            front
        } else {
            front.push(WorstEntryV { label: f.reference, value: Extent::Count(vias.last()) })
        }
    }
}

/// How many connectors are tied to ground.
pub open spec fn shield_metric(
    b: BoardModelV,
    classes: Classes,
    roles: Seq<(Seq<char>, Role)>,
    vias: Seq<u64>,
) -> MetricResultV {
    let at = footprints_that(b, roles, Role::Connector);
    if at.len() == 0 {
        skipped(
            "connector_shield_grounding"@,
            10,
            "no connectors declared (type=\"connector\")"@,
        )
    } else {
        with_offenders(
            scored(
                "connector_shield_grounding"@,
                Amount::Ratio(tied(b, classes, at, vias) as u128, at.len() as u128),
                "ratio"@,
                Rule::Share(1000),
                10,
            ),
            untied(b, classes, at, vias),
            false,
        )
    }
}

/// The metrics of the family.
pub open spec fn emi_metrics(c: ScoreContextV, m: EmiReals) -> Seq<MetricResultV> {
    let b = c.board;
    match c.net_classes {
        Some(classes) => seq![
            loop_area_metric(b, classes, m.loop_areas@, m.loop_total),
            edge_metric(b, m.edge_distances@),
            fence_metric(b, classes, m.via_edge_distances@, m.edge_gaps@),
            stitching_density_metric(b, classes, m.via_distances@, m.mean_via_distance),
            slot_metric(b, classes, m.covered.deep_view()),
            exposure_metric(b, classes, m.fast_length, m.outer_ratio),
            match c.roles {
                Some(roles) => shield_metric(b, classes, roles, m.connector_vias@),
                None => skipped("connector_shield_grounding"@, 10, no_netlist()),
            },
        ],
        None => seq![
            skipped("loop_area_proxy"@, 30, no_netlist()),
            edge_metric(b, m.edge_distances@),
            skipped("edge_stitching_density"@, 10, no_netlist()),
            skipped("stitching_via_density"@, 10, no_netlist()),
            skipped("plane_slot_crossings"@, 20, no_netlist()),
            skipped("outer_layer_hs_exposure"@, 10, no_netlist()),
            skipped("connector_shield_grounding"@, 10, no_netlist()),
        ],
    }
}

/// The results of the family.
pub open spec fn emi_results(c: ScoreContextV, m: EmiReals) -> CategoryResultV {
    CategoryResultV {
        id: "emi"@,
        label: "EMI / EMC"@,
        weight: c.weights.emi,
        metrics: emi_metrics(c, m),
    }
}

/// There is one measurement for each thing that is measured, and the samples can be counted.
pub open spec fn emi_fits(c: ScoreContextV, m: EmiReals) -> bool {
    &&& m.edge_distances@.len() == c.board.tracks.len()
    &&& c.net_classes matches Some(classes) ==> {
        let at = fast_tracks(c.board, classes);
        &&& m.loop_areas@.len() == track_names(c.board, at).len()
        &&& m.via_distances@.len() == at.len()
        &&& m.covered@.len() == at.len()
        &&& sample_total(m.covered.deep_view(), m.covered@.len() as int) <= u64::MAX
        &&& m.via_edge_distances@.len() == vias_that(c.board, classes, Trait::Ground).len()
        &&& m.edge_gaps@.len() == near_edge(m.via_edge_distances@).len()
        &&& (c.roles matches Some(roles) ==> m.connector_vias@.len() == footprints_that(
            c.board,
            roles,
            Role::Connector,
        ).len())
    }
}

fn judge_loops(board: &BoardModel, classes: &Vec<(String, NetInfo)>, m: &EmiReals) -> (r:
    MetricResult)
    requires
        m.loop_areas@.len() == track_names(
            board.deep_view(),
            fast_tracks(board.deep_view(), classes.deep_view()),
        ).len(),
    ensures
        r.deep_view() == loop_area_metric(
            board.deep_view(),
            classes.deep_view(),
            m.loop_areas@,
            m.loop_total,
        ),
{
    let id = "loop_area_proxy";
    let nets = find_nets(board, classes, Trait::HighSpeed);
    assert(as_ints(nets@).len() == nets@.len());
    if nets.len() == 0 {
        return MetricResult::not_applicable(id, 30, "no high-speed nets declared");
    }
    if !knows_depths(board) {
        return MetricResult::not_applicable(id, 30, "stackup data missing");
    }
    let tracks = find_fast_tracks(board, classes);
    let names = name_tracks(board, &tracks);
    assert(names.deep_view().len() == names@.len());
    let worst = list_all(&names, &m.loop_areas);
    MetricResult::new(id, Amount::Measured(m.loop_total), "mm2", Rule::Decay(20000), 30).with_worst(
        worst,
        true,
    )
}

fn places_below(n: usize) -> (r: Vec<usize>)
    ensures
        as_ints(r@) == every_place(n as nat),
{
    let mut out: Vec<usize> = Vec::new();
    let mut i: usize = 0;
    while i < n
        invariant
            i <= n,
            out@.len() == i,
            forall|j: int| 0 <= j < i ==> out@[j] == j,
        decreases n - i,
    {
        out.push(i);
        i += 1;
    }
    assert(as_ints(out@) =~= every_place(n as nat));
    out
}

fn judge_edge(board: &BoardModel, m: &EmiReals) -> (r: MetricResult)
    requires
        m.edge_distances@.len() == board.tracks@.len(),
    ensures
        r.deep_view() == edge_metric(board.deep_view(), m.edge_distances@),
{
    let id = "edge_clearance";
    let ghost bv = board.deep_view();
    assert(bv.outline.len() == board.outline@.len());
    assert(bv.tracks.len() == board.tracks@.len());
    if board.outline.len() == 0 {
        return MetricResult::not_applicable(id, 20, "no board outline (Edge.Cuts) found");
    }
    if board.tracks.len() == 0 {
        return MetricResult::not_applicable(id, 20, "no routed tracks");
    }
    let at = places_below(board.tracks.len());
    assert forall|i: int| 0 <= i < at@.len() implies (#[trigger] at@[i]) < board.tracks@.len() by {
        assert(as_ints(at@)[i] == every_place(board.tracks@.len())[i]);
    }
    let names = name_tracks(board, &at);
    let ghost nv = names.deep_view();
    let ghost dv = m.edge_distances@;
    let n: usize = names.len();
    let mut worst: Vec<WorstEntry> = Vec::new();
    let mut i: usize = 0;
    assert(worst.deep_view() =~= low_entries(bv, dv, nv.take(0)));
    while i < n
        invariant
            n == names@.len(),
            i <= n,
            bv == board.deep_view(),
            nv == names.deep_view(),
            dv == m.edge_distances@,
            m.edge_distances@.len() == board.tracks@.len(),
            worst.deep_view() == low_entries(bv, dv, nv.take(i as int)),
        decreases n - i,
    {
        let ghost before = worst.deep_view();
        assert(nv.take(i + 1).drop_last() =~= nv.take(i as int));
        assert(nv[i as int] == names@[i as int]@);
        match find_lowest(board, &m.edge_distances, names[i].as_str()) {
            Some(d) => {
                let value = Extent::Measured(d);
                worst.push(WorstEntry { label: names[i].clone(), value });
                assert(worst.deep_view() =~= before.push(
                    WorstEntryV { label: nv[i as int], value },
                ));
            },
            None => {},
        }
        i += 1;
    }
    assert(nv.take(n as int) =~= nv);
    let low = find_lowest_of_all(Real { bits: INFINITE }, &m.edge_distances);
    MetricResult::new(id, Amount::Measured(low), "mm", Rule::Share(500), 20).with_worst(
        worst,
        false,
    )
}

fn judge_fence(board: &BoardModel, planes: usize, m: &EmiReals, classes: Ghost<Classes>) -> (r:
    MetricResult)
    requires
        planes == planes_of(board.deep_view(), Some(classes@)).len(),
    ensures
        r.deep_view() == fence_metric(
            board.deep_view(),
            classes@,
            m.via_edge_distances@,
            m.edge_gaps@,
        ),
{
    let id = "edge_stitching_density";
    assert(board.deep_view().outline.len() == board.outline@.len());
    if board.outline.len() == 0 || planes == 0 {
        return MetricResult::not_applicable(id, 10, "needs an outline and reference planes");
    }
    let near = find_near_edge(&m.via_edge_distances);
    assert(as_ints(near@).len() == near@.len());
    if near.len() < 2 {
        MetricResult::new(id, Amount::Measured(Real { bits: FAR }), "mm", Rule::Fixed(0), 10)
            .with_note("fewer than two ground vias near the board edge")
    } else {
        let gap = find_widest(&m.edge_gaps);
        MetricResult::new(id, Amount::Measured(gap), "mm", Rule::Inverse(5000), 10)
    }
}

fn judge_stitching(board: &BoardModel, classes: &Vec<(String, NetInfo)>, m: &EmiReals) -> (r:
    MetricResult)
    ensures
        r.deep_view() == stitching_density_metric(
            board.deep_view(),
            classes.deep_view(),
            m.via_distances@,
            m.mean_via_distance,
        ),
{
    let id = "stitching_via_density";
    let nets = find_nets(board, classes, Trait::HighSpeed);
    assert(as_ints(nets@).len() == nets@.len());
    if nets.len() == 0 {
        return MetricResult::not_applicable(id, 10, "no high-speed nets declared");
    }
    let vias = find_vias(board, classes, Trait::Ground);
    assert(as_ints(vias@).len() == vias@.len());
    if vias.len() == 0 {
        MetricResult::new(id, Amount::Measured(Real { bits: FAR }), "mm", Rule::Fixed(0), 10)
            .with_note("no ground vias on the board")
    } else if !check_any_finite(&m.via_distances) {
        MetricResult::not_applicable(id, 10, "high-speed nets have no routed tracks")
    } else {
        MetricResult::new(id, Amount::Measured(m.mean_via_distance), "mm", Rule::Decay(3000), 10)
    }
}

fn judge_slots(board: &BoardModel, classes: &Vec<(String, NetInfo)>, m: &EmiReals) -> (r:
    MetricResult)
    requires
        m.covered@.len() == fast_tracks(board.deep_view(), classes.deep_view()).len(),
        sample_total(m.covered.deep_view(), m.covered@.len() as int) <= u64::MAX,
    ensures
        r.deep_view() == slot_metric(
            board.deep_view(),
            classes.deep_view(),
            m.covered.deep_view(),
        ),
{
    let id = "plane_slot_crossings";
    let ghost bv = board.deep_view();
    let ghost cv = m.covered.deep_view();
    let nets = find_nets(board, classes, Trait::HighSpeed);
    assert(as_ints(nets@).len() == nets@.len());
    let zones = find_zones(board, classes, Trait::Reference);
    assert(as_ints(zones@).len() == zones@.len());
    if nets.len() == 0 || zones.len() == 0 {
        return MetricResult::not_applicable(
            id,
            20,
            "needs high-speed nets and reference plane fills",
        );
    }
    let at = find_fast_tracks(board, classes);
    let ghost av = as_ints(at@);
    assert(av.len() == at@.len());
    let names = name_tracks(board, &at);
    let ghost nv = names.deep_view();
    let n: usize = names.len();
    let mut worst: Vec<WorstEntry> = Vec::new();
    let mut i: usize = 0;
    assert(worst.deep_view() =~= gap_entries(bv, av, cv, nv.take(0)));
    while i < n
        invariant
            n == names@.len(),
            i <= n,
            bv == board.deep_view(),
            cv == m.covered.deep_view(),
            av == as_ints(at@),
            nv == names.deep_view(),
            m.covered@.len() == at@.len(),
            forall|j: int| 0 <= j < at@.len() ==> (#[trigger] at@[j]) < board.tracks@.len(),
            sample_total(m.covered.deep_view(), m.covered@.len() as int) <= u64::MAX,
            worst.deep_view() == gap_entries(bv, av, cv, nv.take(i as int)),
        decreases n - i,
    {
        let ghost before = worst.deep_view();
        assert(nv.take(i + 1).drop_last() =~= nv.take(i as int));
        assert(nv[i as int] == names@[i as int]@);
        let count: u64 = count_gaps_of_name(board, &at, &m.covered, names[i].as_str());
        if count > 0 {
            let value = Extent::Count(count);
            worst.push(WorstEntry { label: names[i].clone(), value });
            assert(worst.deep_view() =~= before.push(WorstEntryV { label: nv[i as int], value }));
        }
        i += 1;
    }
    assert(nv.take(n as int) =~= nv);
    let total: u64 = count_all_gaps(&m.covered);
    assert(cv.len() == m.covered@.len());
    MetricResult::new(id, Amount::Count(total as u128), "count", Rule::Decay(1000), 20).with_worst(
        worst,
        true,
    )
}

fn judge_exposure(board: &BoardModel, classes: &Vec<(String, NetInfo)>, m: &EmiReals) -> (r:
    MetricResult)
    ensures
        r.deep_view() == exposure_metric(
            board.deep_view(),
            classes.deep_view(),
            m.fast_length,
            m.outer_ratio,
        ),
{
    let id = "outer_layer_hs_exposure";
    assert(board.deep_view().copper_layers.len() == board.copper_layers@.len());
    if board.copper_layers.len() <= 2 {
        return MetricResult::not_applicable(
            id,
            10,
            "two-layer board: no inner layers available",
        );
    }
    let nets = find_nets(board, classes, Trait::HighSpeed);
    assert(as_ints(nets@).len() == nets@.len());
    let tiny = Real { bits: TINY };
    if nets.len() == 0 {
        MetricResult::not_applicable(id, 10, "no high-speed nets declared")
    } else if tiny.less(&m.fast_length) {
        MetricResult::new(id, Amount::Measured(m.outer_ratio), "ratio", Rule::Complement, 10)
    } else {
        MetricResult::not_applicable(id, 10, "high-speed nets have no routed tracks")
    }
}

fn judge_shields(
    board: &BoardModel,
    classes: &Vec<(String, NetInfo)>,
    roles: &Vec<(String, Role)>,
    m: &EmiReals,
) -> (r: MetricResult)
    requires
        m.connector_vias@.len() == footprints_that(
            board.deep_view(),
            roles.deep_view(),
            Role::Connector,
        ).len(),
    ensures
        r.deep_view() == shield_metric(
            board.deep_view(),
            classes.deep_view(),
            roles.deep_view(),
            m.connector_vias@,
        ),
{
    let id = "connector_shield_grounding";
    let ghost bv = board.deep_view();
    let ghost cv = classes.deep_view();
    let at = find_footprints(board, roles, Role::Connector);
    let ghost av = as_ints(at@);
    assert(av.len() == at@.len());
    let n: usize = at.len();
    if n == 0 {
        return MetricResult::not_applicable(
            id,
            10,
            "no connectors declared (type=\"connector\")",
        );
    }
    let ghost vv = m.connector_vias@;
    let mut ok: usize = 0;
    let mut worst: Vec<WorstEntry> = Vec::new();
    let mut i: usize = 0;
    assert(worst.deep_view() =~= untied(bv, cv, av, vv.take(0)));
    while i < n
        invariant
            n == at@.len(),
            n == m.connector_vias@.len(),
            i <= n,
            bv == board.deep_view(),
            cv == classes.deep_view(),
            av == as_ints(at@),
            vv == m.connector_vias@,
            forall|j: int| 0 <= j < at@.len() ==> (#[trigger] at@[j]) < board.footprints@.len(),
            ok == tied(bv, cv, av, vv.take(i as int)),
            ok <= i,
            worst.deep_view() == untied(bv, cv, av, vv.take(i as int)),
        decreases n - i,
    {
        let ghost before = worst.deep_view();
        assert(vv.take(i + 1).drop_last() =~= vv.take(i as int));
        let k: usize = at[i];
        assert(bv.footprints[k as int] == board.footprints@[k as int].deep_view());
        let near: u64 = m.connector_vias[i];
        if check_pads(classes, &board.footprints[k].pads, Trait::Ground) && near >= 2 {
            ok += 1;
        } else {
            let value = Extent::Count(near);
            worst.push(WorstEntry { label: board.footprints[k].reference.clone(), value });
            assert(worst.deep_view() =~= before.push(
                WorstEntryV { label: bv.footprints[k as int].reference, value },
            ));
        }
        i += 1;
    }
    assert(vv.take(n as int) =~= vv);
    MetricResult::new(
        id,
        Amount::Ratio(ok as u128, n as u128),
        "ratio",
        Rule::Share(1000),
        10,
    ).with_worst(worst, false)
}

impl EmiPass {
    /// The name of the family.
    pub fn id(&self) -> (r: &'static str)
        ensures
            r@ == "emi"@,
    {
        "emi"
    }

    /// The results of the family.
    pub fn run(&self, ctx: &ScoreContext, reals: &EmiReals) -> (r: CategoryResult)
        requires
            emi_fits(ctx.deep_view(), *reals),
        ensures
            r.deep_view() == emi_results(ctx.deep_view(), *reals),
    {
        let ghost cv = ctx.deep_view();
        let note = "netlist unavailable: declarative net classification required";
        let board = &ctx.board;
        assert(cv.board.tracks.len() == board.tracks@.len());
        let mut m: Vec<MetricResult> = Vec::new();
        match &ctx.net_classes {
            Some(classes) => {
                let planes = plane_layers(board, &ctx.net_classes);
                assert(planes.deep_view().len() == planes@.len());
                m.push(judge_loops(board, classes, reals));
                m.push(judge_edge(board, reals));
                m.push(judge_fence(board, planes.len(), reals, Ghost(classes.deep_view())));
                m.push(judge_stitching(board, classes, reals));
                m.push(judge_slots(board, classes, reals));
                m.push(judge_exposure(board, classes, reals));
                match &ctx.roles {
                    Some(roles) => {
                        m.push(judge_shields(board, classes, roles, reals));
                    },
                    None => {
                        m.push(MetricResult::not_applicable("connector_shield_grounding", 10, note));
                    },
                }
            },
            None => {
                m.push(MetricResult::not_applicable("loop_area_proxy", 30, note));
                m.push(judge_edge(board, reals));
                m.push(MetricResult::not_applicable("edge_stitching_density", 10, note));
                m.push(MetricResult::not_applicable("stitching_via_density", 10, note));
                m.push(MetricResult::not_applicable("plane_slot_crossings", 20, note));
                m.push(MetricResult::not_applicable("outer_layer_hs_exposure", 10, note));
                m.push(MetricResult::not_applicable("connector_shield_grounding", 10, note));
            },
        }
        assert(m.deep_view() =~= emi_metrics(cv, *reals));
        CategoryResult::new("emi", "EMI / EMC", ctx.weights.emi, m)
    }
}

} // verus!
