//! Metrics of signal integrity. The nets in question are those that declare a fast signal or an
//! impedance target.
use vstd::prelude::*;

use crate::number::{
    below, finite, greatest, greatest_of, no_number, place, zero, Real, INFINITE,
};
use crate::order::as_ints;
use crate::score::board::{name_of_net, BoardModel, BoardModelV};
use crate::score::classify::NetInfo;
use crate::score::metrics::context::{
    find_nets, find_stats, find_zones, label_nets, list_offenders, net_labels, nets_that,
    no_netlist, offenders, stats_at, zones_that, Classes, ScoreContext, ScoreContextV, Trait,
};
use crate::score::metrics::entries::{list_once, names_once};
use crate::score::metrics::si_select::{
    any_group, diff_pairs, fast_barrels, fast_vias, find_diff_pairs, find_fast_barrels,
    find_fast_vias, find_groups, find_measurable, groups_hold_nets, groups_of, measurable,
    pair_labels, pairs_as_ints,
};
use crate::score::model::{
    scored, skipped, with_offenders, Amount, CategoryResult, CategoryResultV, Extent, MetricResult,
    MetricResultV, Rule, WorstEntry, WorstEntryV,
};
use crate::score::net_stats::{NetStats, NetStatsV};
use crate::score::stackup::{has_permittivity, knows_permittivity, plane_layers, planes_of};
use crate::text::cat3;

verus! {

/// The family of metrics of signal integrity.
pub struct SiPass;

/// What is measured for the family.
pub struct SiReals {
    /// For each net with an impedance target, how far its impedance is off on average; nothing
    /// where no piece of it lies over a reference plane.
    pub target_errors: Vec<Option<Extent>>,
    pub mean_error: Real,
    /// For each differential pair the difference of the routed lengths; nothing where neither
    /// net is routed.
    pub skews: Vec<Option<Extent>>,
    /// How much of the coupled length keeps its gap, where pairs are coupled.
    pub gap_ratio: Option<Real>,
    pub decoupled_total: Real,
    pub stub_total: Real,
    /// The stackup gives the thickness of the board.
    pub thickness_known: bool,
    pub mean_barrel_stub: Real,
    /// For each name of a fast net, in order, the length without a reference plane underneath,
    /// where it counts.
    pub uncovered: Vec<Option<Extent>>,
    /// The share of the routed length over a reference plane, where fast nets are routed.
    pub coverage: Option<Real>,
    /// For each via of a fast net the distance to the nearest ground via.
    pub stitch_distances: Vec<Real>,
    /// For each group that can be measured the spread of the routed lengths.
    pub group_skews: Vec<Real>,
}

/// One millimetre.
pub const ONE: u64 = 0x3ff0_0000_0000_0000;

/// What stands for a distance that is not there.
pub const FAR: u64 = 0x4058_c000_0000_0000;

/// Some value is there.
pub open spec fn any_value(values: Seq<Option<Extent>>) -> bool {
    exists|i: int| 0 <= i < values.len() && (#[trigger] values[i]) is Some
}

/// Whether some value is there.
pub fn has_value(values: &Vec<Option<Extent>>) -> (r: bool)
    ensures
        r == any_value(values@),
{
    let n: usize = values.len();
    let mut i: usize = 0;
    while i < n
        invariant
            n == values@.len(),
            i <= n,
            forall|j: int| 0 <= j < i ==> (#[trigger] values@[j]) is None,
        decreases n - i,
    {
        if values[i].is_some() {
            return true;
        }
        i += 1;
    }
    false
}

/// The measured numbers among the values.
pub open spec fn measured(values: Seq<Option<Extent>>) -> Seq<Real>
    decreases values.len(),
{
    if values.len() == 0 {
        Seq::empty()
    } else {
        match values.last() {
            Some(Extent::Measured(x)) => measured(values.drop_last()).push(x),
            _ => measured(values.drop_last()),
        }
    }
}

/// The measured numbers among the values.
pub fn list_measured(values: &Vec<Option<Extent>>) -> (r: Vec<Real>)
    ensures
        r@ == measured(values@),
{
    let n: usize = values.len();
    let mut out: Vec<Real> = Vec::new();
    let mut i: usize = 0;
    while i < n
        invariant
            n == values@.len(),
            i <= n,
            out@ == measured(values@.take(i as int)),
        decreases n - i,
    {
        assert(values@.take(i + 1).drop_last() =~= values@.take(i as int));
        match values[i] {
            Some(Extent::Measured(x)) => {
                out.push(x);
            },
            _ => {},
        }
        i += 1;
    }
    assert(values@.take(n as int) =~= values@);
    out
}

/// How close the impedances are to their targets.
pub open spec fn impedance_metric(b: BoardModelV, classes: Classes, errors: Seq<Option<Extent>>, mean: Real) -> MetricResultV {
    let targets = nets_that(b, classes, Trait::ImpedanceTarget);
    if targets.len() == 0 {
        skipped("impedance_compliance"@, 40, "no single-ended impedance targets declared"@)
    } else if !(has_permittivity(b.stackup) && planes_of(b, Some(classes)).len() > 0) {
        skipped(
            "impedance_compliance"@,
            40,
            "stackup dielectric data or reference planes missing"@,
        )
    } else if !any_value(errors) {
        skipped(
            "impedance_compliance"@,
            40,
            "impedance-target nets have no routed tracks near a reference plane"@,
        )
    } else {
        with_offenders(
            scored(
                "impedance_compliance"@,
                Amount::Measured(mean),
                "rel_err"@,
                Rule::Band(0, Some(50), 0, 150),
                40,
            ),
            offenders(net_labels(b, targets), errors),
            true,
        )
    }
}

/// The metrics of differential pairs.
pub open spec fn pair_metrics(
    b: BoardModelV,
    classes: Classes,
    skews: Seq<Option<Extent>>,
    gap_ratio: Option<Real>,
    decoupled: Real,
) -> Seq<MetricResultV> {
    let pairs = diff_pairs(b, classes);
    let note = "no differential pairs declared (DiffPair interfaces)"@;
    if pairs.len() == 0 {
        seq![
            skipped("diffpair_skew"@, 20, note),
            skipped("diffpair_gap_consistency"@, 20, note),
            skipped("diffpair_decoupled_length"@, 20, note),
        ]
    } else {
        seq![
            with_offenders(
                scored(
                    "diffpair_skew"@,
                    Amount::Measured(greatest(zero(), measured(skews))),
                    "mm"@,
                    Rule::Decay(500),
                    30,
                ),
                offenders(pair_labels(b, pairs), skews),
                true,
            ),
            match gap_ratio {
                Some(ratio) => scored(
                    "diffpair_gap_consistency"@,
                    Amount::Measured(ratio),
                    "ratio"@,
                    Rule::Share(1000),
                    20,
                ),
                None => skipped(
                    "diffpair_gap_consistency"@,
                    20,
                    "declared pairs have no coupled routing yet"@,
                ),
            },
            scored(
                "diffpair_decoupled_length"@,
                Amount::Measured(decoupled),
                "mm"@,
                Rule::Decay(2000),
                20,
            ),
        ]
    }
}

/// Entries for the nets at the given places that have free ends.
pub open spec fn stub_entries_at(b: BoardModelV, stats: Seq<NetStatsV>, at: Seq<int>) -> Seq<
    WorstEntryV,
>
    decreases at.len(),
{
    if at.len() == 0 {
        Seq::empty()
    } else {
        let front = stub_entries_at(b, stats, at.drop_last());
        match stats_at(stats, b.nets[at.last()].0) {
            Some(s) => if below(zero(), s.stub_length) {
                front.push(
                    WorstEntryV {
                        label: b.nets[at.last()].1,
                        value: Extent::Measured(s.stub_length),
                    },
                )
            } else {
                front
            },
            None => front,
        }
    }
}

/// Free ends of fast nets.
pub open spec fn fast_stub_metric(b: BoardModelV, stats: Seq<NetStatsV>, at: Seq<int>, total: Real) -> MetricResultV {
    if at.len() == 0 {
        skipped("stub_length_hs"@, 20, "no high-speed nets declared"@)
    } else {
        with_offenders(
            scored("stub_length_hs"@, Amount::Measured(total), "mm"@, Rule::Decay(1000), 30),
            stub_entries_at(b, stats, at),
            true,
        )
    }
}

/// Unused depth of the through vias of fast nets.
pub open spec fn barrel_metric(
    b: BoardModelV,
    classes: Classes,
    fast: nat,
    thickness_known: bool,
    mean: Real,
) -> MetricResultV {
    if fast == 0 || b.copper_layers.len() <= 2 {
        skipped(
            "via_stub_proxy"@,
            10,
            "needs high-speed nets and more than two copper layers"@,
        )
    } else if !thickness_known {
        skipped("via_stub_proxy"@, 10, "stackup thickness data missing"@)
    } else if fast_barrels(b, classes).len() == 0 {
        skipped("via_stub_proxy"@, 10, "no through vias on high-speed nets"@)
    } else {
        scored("via_stub_proxy"@, Amount::Measured(mean), "mm"@, Rule::Decay(300), 10)
    }
}

/// How much of the fast routing has a reference plane underneath.
pub open spec fn continuity_metric(
    b: BoardModelV,
    classes: Classes,
    at: Seq<int>,
    uncovered: Seq<Option<Extent>>,
    coverage: Option<Real>,
) -> MetricResultV {
    if at.len() == 0 {
        skipped("reference_plane_continuity"@, 30, "no high-speed nets declared"@)
    } else if zones_that(b, classes, Trait::Reference).len() == 0 {
        skipped("reference_plane_continuity"@, 30, "no ground/power plane fills present"@)
    } else {
        match coverage {
            Some(ratio) => with_offenders(
                scored(
                    "reference_plane_continuity"@,
                    Amount::Measured(ratio),
                    "ratio"@,
                    Rule::Share(1000),
                    30,
                ),
                offenders(names_once(net_labels(b, at)), uncovered),
                true,
            ),
            None => skipped(
                "reference_plane_continuity"@,
                30,
                "high-speed nets have no routed tracks yet"@,
            ),
        }
    }
}

/// The distance is at most one millimetre.
pub open spec fn is_stitched(d: Real) -> bool {
    !no_number(d) && place(d) <= ONE
}

/// How many of the distances are at most one millimetre.
pub open spec fn stitched(distances: Seq<Real>) -> nat
    decreases distances.len(),
{
    if distances.len() == 0 {
        0
    } else {
        stitched(distances.drop_last()) + if is_stitched(distances.last()) {
            1nat
        } else {
            0nat
        }
    }
}

/// Entries for the vias without a ground via nearby.
pub open spec fn unstitched(b: BoardModelV, vias: Seq<int>, distances: Seq<Real>) -> Seq<
    WorstEntryV,
>
    decreases distances.len(),
{
    if distances.len() == 0 {
        Seq::empty()
    } else {
        let front = unstitched(b, vias, distances.drop_last());
        let d = distances.last();
        if is_stitched(d) {
            front
        } else {
            front.push(
                WorstEntryV {
                    label: name_of_net(
                        b.nets,
                        b.vias[vias[distances.len() - 1]].net,
                    ),
                    value: Extent::Measured(
                        if finite(d) {
                            d
                        } else {
                            Real { bits: FAR }
                        },
                    ),
                },
            )
        }
    }
}

/// How many layer changes of fast nets have a ground via nearby.
pub open spec fn stitching_metric(b: BoardModelV, classes: Classes, distances: Seq<Real>) -> MetricResultV {
    let vias = fast_vias(b, classes);
    if vias.len() == 0 {
        skipped("reference_change_stitching"@, 20, "no layer changes on high-speed nets"@)
    } else {
        with_offenders(
            scored(
                "reference_change_stitching"@,
                Amount::Ratio(stitched(distances) as u128, vias.len() as u128),
                "ratio"@,
                Rule::Share(1000),
                20,
            ),
            unstitched(b, vias, distances),
            true,
        )
    }
}

/// Entries for groups by their spread.
pub open spec fn group_entries(names: Seq<Seq<char>>, skews: Seq<Real>) -> Seq<WorstEntryV> {
    Seq::new(
        names.len(),
        |i: int| WorstEntryV { label: names[i], value: Extent::Measured(skews[i]) },
    )
}

/// How well lengths match within groups.
pub open spec fn matching_metric(
    b: BoardModelV,
    classes: Classes,
    stats: Seq<NetStatsV>,
    skews: Seq<Real>,
) -> MetricResultV {
    let groups = groups_of(b, classes, b.nets.len() as int);
    let names = measurable(b, stats, groups);
    if !any_group(groups) {
        skipped(
            "length_matching_groups"@,
            20,
            "no matched groups declared (io(..., matched_group=...))"@,
        )
    } else if names.len() == 0 {
        skipped(
            "length_matching_groups"@,
            20,
            "declared matched groups have no routed nets yet"@,
        )
    } else {
        with_offenders(
            scored(
                "length_matching_groups"@,
                Amount::Measured(greatest(zero(), skews)),
                "mm"@,
                Rule::Decay(2000),
                20,
            ),
            group_entries(names, skews),
            true,
        )
    }
}

/// The right angles of the nets at the given places.
pub open spec fn corners_at(b: BoardModelV, stats: Seq<NetStatsV>, at: Seq<int>) -> nat
    decreases at.len(),
{
    if at.len() == 0 {
        0
    } else {
        corners_at(b, stats, at.drop_last()) + match stats_at(stats, b.nets[at.last()].0) {
            Some(s) => s.right_angle_corners as nat,
            None => 0,
        }
    }
}

/// Entries for the nets at the given places that have right angles.
pub open spec fn corner_entries(b: BoardModelV, stats: Seq<NetStatsV>, at: Seq<int>) -> Seq<
    WorstEntryV,
>
    decreases at.len(),
{
    if at.len() == 0 {
        Seq::empty()
    } else {
        let front = corner_entries(b, stats, at.drop_last());
        match stats_at(stats, b.nets[at.last()].0) {
            Some(s) => if s.right_angle_corners > 0 {
                front.push(
                    WorstEntryV {
                        label: b.nets[at.last()].1,
                        value: Extent::Count(s.right_angle_corners as u64),
                    },
                )
            } else {
                front
            },
            None => front,
        }
    }
}

/// Right angles on fast nets.
pub open spec fn corner_metric(b: BoardModelV, stats: Seq<NetStatsV>, at: Seq<int>) -> MetricResultV {
    if at.len() == 0 {
        skipped("corner_discipline_hs"@, 10, "no high-speed nets declared"@)
    } else {
        with_offenders(
            scored(
                "corner_discipline_hs"@,
                Amount::Count(corners_at(b, stats, at) as u128),
                "count"@,
                Rule::Decay(5000),
                10,
            ),
            corner_entries(b, stats, at),
            true,
        )
    }
}

/// The metrics without a netlist.
pub open spec fn si_without_netlist() -> Seq<MetricResultV> {
    seq![
        skipped("impedance_compliance"@, 10, no_netlist()),
        skipped("diffpair_skew"@, 10, no_netlist()),
        skipped("diffpair_gap_consistency"@, 10, no_netlist()),
        skipped("diffpair_decoupled_length"@, 10, no_netlist()),
        skipped("stub_length_hs"@, 10, no_netlist()),
        skipped("via_stub_proxy"@, 10, no_netlist()),
        skipped("reference_plane_continuity"@, 10, no_netlist()),
        skipped("reference_change_stitching"@, 10, no_netlist()),
        skipped("length_matching_groups"@, 10, no_netlist()),
        skipped("corner_discipline_hs"@, 10, no_netlist()),
    ]
}

/// The metrics with a netlist.
pub open spec fn si_metrics(c: ScoreContextV, classes: Classes, m: SiReals) -> Seq<MetricResultV> {
    let b = c.board;
    let fast = nets_that(b, classes, Trait::HighSpeed);
    seq![impedance_metric(b, classes, m.target_errors@, m.mean_error)] + pair_metrics(
        b,
        classes,
        m.skews@,
        m.gap_ratio,
        m.decoupled_total,
    ) + seq![
        fast_stub_metric(b, c.net_stats, fast, m.stub_total),
        barrel_metric(b, classes, fast.len(), m.thickness_known, m.mean_barrel_stub),
        continuity_metric(b, classes, fast, m.uncovered@, m.coverage),
        stitching_metric(b, classes, m.stitch_distances@),
        matching_metric(b, classes, c.net_stats, m.group_skews@),
        corner_metric(b, c.net_stats, fast),
    ]
}

/// The results of the family.
pub open spec fn si_results(c: ScoreContextV, m: SiReals) -> CategoryResultV {
    CategoryResultV {
        id: "signal_integrity"@,
        label: "Signal integrity"@,
        weight: c.weights.signal_integrity,
        metrics: match c.net_classes {
            Some(classes) => si_metrics(c, classes, m),
            None => si_without_netlist(),
        },
    }
}

/// There is one measurement for each thing that is measured.
pub open spec fn si_fits(c: ScoreContextV, m: SiReals) -> bool {
    c.net_classes matches Some(classes) ==> {
        &&& m.target_errors@.len() == nets_that(c.board, classes, Trait::ImpedanceTarget).len()
        &&& m.skews@.len() == diff_pairs(c.board, classes).len()
        &&& m.uncovered@.len() == names_once(
            net_labels(c.board, nets_that(c.board, classes, Trait::HighSpeed)),
        ).len()
        &&& m.stitch_distances@.len() == fast_vias(c.board, classes).len()
        &&& m.group_skews@.len() == measurable(
            c.board,
            c.net_stats,
            groups_of(c.board, classes, c.board.nets.len() as int),
        ).len()
    }
}

fn judge_impedance(
    board: &BoardModel,
    net_classes: &Option<Vec<(String, NetInfo)>>,
    classes: &Vec<(String, NetInfo)>,
    m: &SiReals,
) -> (r: MetricResult)
    requires
        net_classes.deep_view() == Some(classes.deep_view()),
        m.target_errors@.len() == nets_that(
            board.deep_view(),
            classes.deep_view(),
            Trait::ImpedanceTarget,
        ).len(),
    ensures
        r.deep_view() == impedance_metric(
            board.deep_view(),
            classes.deep_view(),
            m.target_errors@,
            m.mean_error,
        ),
{
    let id = "impedance_compliance";
    let targets = find_nets(board, classes, Trait::ImpedanceTarget);
    assert(as_ints(targets@).len() == targets@.len());
    let planes = plane_layers(board, net_classes);
    assert(planes.deep_view().len() == planes@.len());
    if targets.len() == 0 {
        MetricResult::not_applicable(id, 40, "no single-ended impedance targets declared")
    } else if !(knows_permittivity(board) && planes.len() > 0) {
        MetricResult::not_applicable(
            id,
            40,
            "stackup dielectric data or reference planes missing",
        )
    } else if !has_value(&m.target_errors) {
        MetricResult::not_applicable(
            id,
            40,
            "impedance-target nets have no routed tracks near a reference plane",
        )
    } else {
        let labels = label_nets(board, &targets);
        assert(labels.deep_view().len() == labels@.len());
        let worst = list_offenders(&labels, &m.target_errors);
        MetricResult::new(
            id,
            Amount::Measured(m.mean_error),
            "rel_err",
            Rule::Band(0, Some(50), 0, 150),
            40,
        ).with_worst(worst, true)
    }
}

fn label_pairs(board: &BoardModel, pairs: &Vec<(usize, usize)>) -> (r: Vec<String>)
    requires
        forall|i: int|
            0 <= i < pairs@.len() ==> (#[trigger] pairs@[i]).0 < board.nets@.len() && pairs@[i].1
                < board.nets@.len(),
    ensures
        r.deep_view() == pair_labels(board.deep_view(), pairs_as_ints(pairs@)),
{
    let ghost bv = board.deep_view();
    let ghost want = pair_labels(bv, pairs_as_ints(pairs@));
    let n: usize = pairs.len();
    let mut out: Vec<String> = Vec::new();
    let mut i: usize = 0;
    while i < n
        invariant
            n == pairs@.len(),
            i <= n,
            bv == board.deep_view(),
            want == pair_labels(bv, pairs_as_ints(pairs@)),
            forall|j: int|
                0 <= j < pairs@.len() ==> (#[trigger] pairs@[j]).0 < board.nets@.len()
                    && pairs@[j].1 < board.nets@.len(),
            out.deep_view() == want.take(i as int),
        decreases n - i,
    {
        let ghost before = out.deep_view();
        let a: usize = pairs[i].0;
        let b: usize = pairs[i].1;
        assert(pairs@[i as int].0 < board.nets@.len());
        assert(bv.nets[a as int] == (board.nets@[a as int].0, board.nets@[a as int].1@));
        assert(bv.nets[b as int] == (board.nets@[b as int].0, board.nets@[b as int].1@));
        out.push(cat3(board.nets[a].1.as_str(), "/", board.nets[b].1.as_str()));
        assert(out.deep_view() =~= before.push(want[i as int]));
        assert(out.deep_view() =~= want.take(i + 1));
        i += 1;
    }
    assert(want.take(n as int) =~= want);
    out
}

fn judge_pairs(board: &BoardModel, classes: &Vec<(String, NetInfo)>, m: &SiReals) -> (r: Vec<
    MetricResult,
>)
    requires
        m.skews@.len() == diff_pairs(board.deep_view(), classes.deep_view()).len(),
    ensures
        r.deep_view() == pair_metrics(
            board.deep_view(),
            classes.deep_view(),
            m.skews@,
            m.gap_ratio,
            m.decoupled_total,
        ),
{
    let pairs = find_diff_pairs(board, classes);
    assert(pairs_as_ints(pairs@).len() == pairs@.len());
    let mut out: Vec<MetricResult> = Vec::new();
    if pairs.len() == 0 {
        let note = "no differential pairs declared (DiffPair interfaces)";
        out.push(MetricResult::not_applicable("diffpair_skew", 20, note));
        out.push(MetricResult::not_applicable("diffpair_gap_consistency", 20, note));
        out.push(MetricResult::not_applicable("diffpair_decoupled_length", 20, note));
    } else {
        let labels = label_pairs(board, &pairs);
        assert(labels.deep_view().len() == labels@.len());
        let worst = list_offenders(&labels, &m.skews);
        let amounts = list_measured(&m.skews);
        out.push(
            MetricResult::new(
                "diffpair_skew",
                Amount::Measured(greatest_of(Real::zero(), &amounts)),
                "mm",
                Rule::Decay(500),
                30,
            ).with_worst(worst, true),
        );
        out.push(
            match m.gap_ratio {
                Some(ratio) => MetricResult::new(
                    "diffpair_gap_consistency",
                    Amount::Measured(ratio),
                    "ratio",
                    Rule::Share(1000),
                    20,
                ),
                None => MetricResult::not_applicable(
                    "diffpair_gap_consistency",
                    20,
                    "declared pairs have no coupled routing yet",
                ),
            },
        );
        out.push(
            MetricResult::new(
                "diffpair_decoupled_length",
                Amount::Measured(m.decoupled_total),
                "mm",
                Rule::Decay(2000),
                20,
            ),
        );
    }
    assert(out.deep_view() =~= pair_metrics(
        board.deep_view(),
        classes.deep_view(),
        m.skews@,
        m.gap_ratio,
        m.decoupled_total,
    ));
    out
}

fn judge_stubs(board: &BoardModel, stats: &Vec<NetStats>, at: &Vec<usize>, total: Real) -> (r:
    MetricResult)
    requires
        forall|i: int| 0 <= i < at@.len() ==> (#[trigger] at@[i]) < board.nets@.len(),
    ensures
        r.deep_view() == fast_stub_metric(
            board.deep_view(),
            stats.deep_view(),
            as_ints(at@),
            total,
        ),
{
    let ghost bv = board.deep_view();
    let ghost sv = stats.deep_view();
    let ghost av = as_ints(at@);
    let n: usize = at.len();
    if n == 0 {
        return MetricResult::not_applicable("stub_length_hs", 20, "no high-speed nets declared");
    }
    let mut worst: Vec<WorstEntry> = Vec::new();
    let mut i: usize = 0;
    assert(worst.deep_view() =~= stub_entries_at(bv, sv, av.take(0)));
    while i < n
        invariant
            n == at@.len(),
            i <= n,
            bv == board.deep_view(),
            sv == stats.deep_view(),
            av == as_ints(at@),
            forall|j: int| 0 <= j < at@.len() ==> (#[trigger] at@[j]) < board.nets@.len(),
            worst.deep_view() == stub_entries_at(bv, sv, av.take(i as int)),
        decreases n - i,
    {
        let ghost before = worst.deep_view();
        assert(av.take(i + 1).drop_last() =~= av.take(i as int));
        let k: usize = at[i];
        assert(bv.nets[k as int] == (board.nets@[k as int].0, board.nets@[k as int].1@));
        match find_stats(stats, board.nets[k].0) {
            Some(s) => {
                if Real::zero().less(&s.stub_length) {
                    let value = Extent::Measured(s.stub_length);
                    worst.push(WorstEntry { label: board.nets[k].1.clone(), value });
                    assert(worst.deep_view() =~= before.push(
                        WorstEntryV { label: bv.nets[k as int].1, value },
                    ));
                }
            },
            None => {},
        }
        i += 1;
    }
    assert(av.take(n as int) =~= av);
    MetricResult::new("stub_length_hs", Amount::Measured(total), "mm", Rule::Decay(1000), 30)
        .with_worst(worst, true)
}

fn judge_barrels(
    board: &BoardModel,
    classes: &Vec<(String, NetInfo)>,
    fast: usize,
    m: &SiReals,
) -> (r: MetricResult)
    ensures
        r.deep_view() == barrel_metric(
            board.deep_view(),
            classes.deep_view(),
            fast as nat,
            m.thickness_known,
            m.mean_barrel_stub,
        ),
{
    let id = "via_stub_proxy";
    assert(board.deep_view().copper_layers.len() == board.copper_layers@.len());
    let barrels = find_fast_barrels(board, classes);
    assert(as_ints(barrels@).len() == barrels@.len());
    if fast == 0 || board.copper_layers.len() <= 2 {
        MetricResult::not_applicable(
            id,
            10,
            "needs high-speed nets and more than two copper layers",
        )
    } else if !m.thickness_known {
        MetricResult::not_applicable(id, 10, "stackup thickness data missing")
    } else if barrels.len() == 0 {
        MetricResult::not_applicable(id, 10, "no through vias on high-speed nets")
    } else {
        MetricResult::new(id, Amount::Measured(m.mean_barrel_stub), "mm", Rule::Decay(300), 10)
    }
}

fn judge_continuity(
    board: &BoardModel,
    classes: &Vec<(String, NetInfo)>,
    at: &Vec<usize>,
    m: &SiReals,
) -> (r: MetricResult)
    requires
        forall|i: int| 0 <= i < at@.len() ==> (#[trigger] at@[i]) < board.nets@.len(),
        m.uncovered@.len() == names_once(net_labels(board.deep_view(), as_ints(at@))).len(),
    ensures
        r.deep_view() == continuity_metric(
            board.deep_view(),
            classes.deep_view(),
            as_ints(at@),
            m.uncovered@,
            m.coverage,
        ),
{
    let id = "reference_plane_continuity";
    let zones = find_zones(board, classes, Trait::Reference);
    assert(as_ints(zones@).len() == zones@.len());
    if at.len() == 0 {
        MetricResult::not_applicable(id, 30, "no high-speed nets declared")
    } else if zones.len() == 0 {
        MetricResult::not_applicable(id, 30, "no ground/power plane fills present")
    } else {
        match m.coverage {
            Some(ratio) => {
                let labels = list_once(&label_nets(board, at));
                assert(labels.deep_view().len() == labels@.len());
                let worst = list_offenders(&labels, &m.uncovered);
                MetricResult::new(id, Amount::Measured(ratio), "ratio", Rule::Share(1000), 30)
                    .with_worst(worst, true)
            },
            None => MetricResult::not_applicable(
                id,
                30,
                "high-speed nets have no routed tracks yet",
            ),
        }
    }
}

fn near_enough(d: &Real) -> (r: bool)
    ensures
        r == is_stitched(*d),
{
    let at: i64 = d.rank();
    -(INFINITE as i64) <= at && at <= ONE as i64
}

fn judge_stitching(board: &BoardModel, classes: &Vec<(String, NetInfo)>, distances: &Vec<Real>) -> (r:
    MetricResult)
    requires
        distances@.len() == fast_vias(board.deep_view(), classes.deep_view()).len(),
    ensures
        r.deep_view() == stitching_metric(board.deep_view(), classes.deep_view(), distances@),
{
    let id = "reference_change_stitching";
    let ghost bv = board.deep_view();
    let vias = find_fast_vias(board, classes);
    let ghost vv = as_ints(vias@);
    let n: usize = vias.len();
    assert(vv.len() == n);
    if n == 0 {
        return MetricResult::not_applicable(id, 20, "no layer changes on high-speed nets");
    }
    let mut ok: usize = 0;
    let mut worst: Vec<WorstEntry> = Vec::new();
    let mut i: usize = 0;
    assert(worst.deep_view() =~= unstitched(bv, vv, distances@.take(0)));
    while i < n
        invariant
            n == vias@.len(),
            n == distances@.len(),
            i <= n,
            bv == board.deep_view(),
            vv == as_ints(vias@),
            forall|j: int| 0 <= j < vias@.len() ==> (#[trigger] vias@[j]) < board.vias@.len(),
            ok <= i,
            ok == stitched(distances@.take(i as int)),
            worst.deep_view() == unstitched(bv, vv, distances@.take(i as int)),
        decreases n - i,
    {
        let ghost before = worst.deep_view();
        assert(distances@.take(i + 1).drop_last() =~= distances@.take(i as int));
        let d = distances[i];
        if near_enough(&d) {
            ok += 1;
        } else {
            let k: usize = vias[i];
            assert(bv.vias[k as int] == board.vias@[k as int].deep_view());
            let label = board.net_name(board.vias[k].net);
            let value = Extent::Measured(
                if d.is_finite() {
                    d
                } else {
                    Real { bits: FAR }
                },
            );
            let ghost entry = WorstEntryV { label: label@, value };
            worst.push(WorstEntry { label, value });
            assert(worst.deep_view() =~= before.push(entry));
        }
        i += 1;
    }
    assert(distances@.take(n as int) =~= distances@);
    MetricResult::new(
        id,
        Amount::Ratio(ok as u128, n as u128),
        "ratio",
        Rule::Share(1000),
        20,
    ).with_worst(worst, true)
}

fn judge_matching(
    board: &BoardModel,
    classes: &Vec<(String, NetInfo)>,
    stats: &Vec<NetStats>,
    m: &SiReals,
) -> (r: MetricResult)
    requires
        m.group_skews@.len() == measurable(
            board.deep_view(),
            stats.deep_view(),
            groups_of(
                board.deep_view(),
                classes.deep_view(),
                board.deep_view().nets.len() as int,
            ),
        ).len(),
    ensures
        r.deep_view() == matching_metric(
            board.deep_view(),
            classes.deep_view(),
            stats.deep_view(),
            m.group_skews@,
        ),
{
    let id = "length_matching_groups";
    let groups = find_groups(board, classes);
    let count: usize = board.nets.len();
    assert(board.deep_view().nets.len() == count);
    proof {
        groups_hold_nets(
            board.deep_view(),
            classes.deep_view(),
            board.deep_view().nets.len() as int,
        );
    }
    let (names, any) = find_measurable(board, stats, &groups);
    let ghost nv = names.deep_view();
    let n: usize = names.len();
    assert(nv.len() == n);
    if !any {
        return MetricResult::not_applicable(
            id,
            20,
            "no matched groups declared (io(..., matched_group=...))",
        );
    }
    if n == 0 {
        return MetricResult::not_applicable(
            id,
            20,
            "declared matched groups have no routed nets yet",
        );
    }
    let ghost want = group_entries(nv, m.group_skews@);
    let mut worst: Vec<WorstEntry> = Vec::new();
    let mut i: usize = 0;
    while i < n
        invariant
            n == names@.len(),
            n == m.group_skews@.len(),
            i <= n,
            nv == names.deep_view(),
            want == group_entries(nv, m.group_skews@),
            worst.deep_view() == want.take(i as int),
        decreases n - i,
    {
        let ghost before = worst.deep_view();
        assert(nv[i as int] == names@[i as int]@);
        worst.push(
            WorstEntry { label: names[i].clone(), value: Extent::Measured(m.group_skews[i]) },
        );
        assert(worst.deep_view() =~= before.push(want[i as int]));
        assert(worst.deep_view() =~= want.take(i + 1));
        i += 1;
    }
    assert(want.take(n as int) =~= want);
    let most = greatest_of(Real::zero(), &m.group_skews);
    MetricResult::new(id, Amount::Measured(most), "mm", Rule::Decay(2000), 20).with_worst(
        worst,
        true,
    )
}

fn judge_corners(board: &BoardModel, stats: &Vec<NetStats>, at: &Vec<usize>) -> (r: MetricResult)
    requires
        forall|i: int| 0 <= i < at@.len() ==> (#[trigger] at@[i]) < board.nets@.len(),
    ensures
        r.deep_view() == corner_metric(board.deep_view(), stats.deep_view(), as_ints(at@)),
{
    let ghost bv = board.deep_view();
    let ghost sv = stats.deep_view();
    let ghost av = as_ints(at@);
    let n: usize = at.len();
    if n == 0 {
        return MetricResult::not_applicable(
            "corner_discipline_hs",
            10,
            "no high-speed nets declared",
        );
    }
    let mut total: u128 = 0;
    let mut worst: Vec<WorstEntry> = Vec::new();
    let mut i: usize = 0;
    assert(worst.deep_view() =~= corner_entries(bv, sv, av.take(0)));
    while i < n
        invariant
            n == at@.len(),
            i <= n,
            bv == board.deep_view(),
            sv == stats.deep_view(),
            av == as_ints(at@),
            forall|j: int| 0 <= j < at@.len() ==> (#[trigger] at@[j]) < board.nets@.len(),
            total == corners_at(bv, sv, av.take(i as int)),
            total <= i * 0x1_0000_0000_0000_0000,
            worst.deep_view() == corner_entries(bv, sv, av.take(i as int)),
        decreases n - i,
    {
        let ghost before = worst.deep_view();
        assert(av.take(i + 1).drop_last() =~= av.take(i as int));
        assert(i * 0x1_0000_0000_0000_0000 <= 0xffff_ffff_ffff_fffe * 0x1_0000_0000_0000_0000);
        assert((i + 1) * 0x1_0000_0000_0000_0000 == i * 0x1_0000_0000_0000_0000
            + 0x1_0000_0000_0000_0000);
        let k: usize = at[i];
        assert(bv.nets[k as int] == (board.nets@[k as int].0, board.nets@[k as int].1@));
        match find_stats(stats, board.nets[k].0) {
            Some(s) => {
                total = total + s.right_angle_corners as u128;
                if s.right_angle_corners > 0 {
                    let value = Extent::Count(s.right_angle_corners as u64);
                    worst.push(WorstEntry { label: board.nets[k].1.clone(), value });
                    assert(worst.deep_view() =~= before.push(
                        WorstEntryV { label: bv.nets[k as int].1, value },
                    ));
                }
            },
            None => {},
        }
        i += 1;
    }
    assert(av.take(n as int) =~= av);
    MetricResult::new(
        "corner_discipline_hs",
        Amount::Count(total),
        "count",
        Rule::Decay(5000),
        10,
    ).with_worst(worst, true)
}

fn all_skipped() -> (r: Vec<MetricResult>)
    ensures
        r.deep_view() == si_without_netlist(),
{
    let note = "netlist unavailable: declarative net classification required";
    let mut m: Vec<MetricResult> = Vec::new();
    m.push(MetricResult::not_applicable("impedance_compliance", 10, note));
    m.push(MetricResult::not_applicable("diffpair_skew", 10, note));
    m.push(MetricResult::not_applicable("diffpair_gap_consistency", 10, note));
    m.push(MetricResult::not_applicable("diffpair_decoupled_length", 10, note));
    m.push(MetricResult::not_applicable("stub_length_hs", 10, note));
    m.push(MetricResult::not_applicable("via_stub_proxy", 10, note));
    m.push(MetricResult::not_applicable("reference_plane_continuity", 10, note));
    m.push(MetricResult::not_applicable("reference_change_stitching", 10, note));
    m.push(MetricResult::not_applicable("length_matching_groups", 10, note));
    m.push(MetricResult::not_applicable("corner_discipline_hs", 10, note));
    assert(m.deep_view() =~= si_without_netlist());
    m
}

impl SiPass {
    /// The name of the family.
    pub fn id(&self) -> (r: &'static str)
        ensures
            r@ == "signal_integrity"@,
    {
        "signal_integrity"
    }

    /// The results of the family.
    pub fn run(&self, ctx: &ScoreContext, reals: &SiReals) -> (r: CategoryResult)
        requires
            si_fits(ctx.deep_view(), *reals),
        ensures
            r.deep_view() == si_results(ctx.deep_view(), *reals),
    {
        let ghost cv = ctx.deep_view();
        let metrics = match &ctx.net_classes {
            Some(classes) => {
                let board = &ctx.board;
                let fast = find_nets(board, classes, Trait::HighSpeed);
                assert(as_ints(fast@).len() == fast@.len());
                let mut m: Vec<MetricResult> = Vec::new();
                m.push(judge_impedance(board, &ctx.net_classes, classes, reals));
                let ghost first = m.deep_view();
                assert(first =~= seq![
                    impedance_metric(
                        cv.board,
                        classes.deep_view(),
                        reals.target_errors@,
                        reals.mean_error,
                    ),
                ]);
                let mut pairs = judge_pairs(board, classes, reals);
                let ghost pv = pairs.deep_view();
                m.append(&mut pairs);
                assert(m.deep_view() =~= first + pv);
                m.push(judge_stubs(board, &ctx.net_stats, &fast, reals.stub_total));
                m.push(judge_barrels(board, classes, fast.len(), reals));
                m.push(judge_continuity(board, classes, &fast, reals));
                m.push(judge_stitching(board, classes, &reals.stitch_distances));
                m.push(judge_matching(board, classes, &ctx.net_stats, reals));
                m.push(judge_corners(board, &ctx.net_stats, &fast));
                assert(m.deep_view() =~= si_metrics(cv, classes.deep_view(), *reals));
                m
            },
            None => all_skipped(),
        };
        assert(metrics.deep_view() =~= si_results(cv, *reals).metrics);
        CategoryResult::new(
            "signal_integrity",
            "Signal integrity",
            ctx.weights.signal_integrity,
            metrics,
        )
    }
}

} // verus!
