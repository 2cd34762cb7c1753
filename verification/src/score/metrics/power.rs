//! Metrics of power integrity, from declared currents and the kinds of nets.
use vstd::prelude::*;

use crate::number::{least, least_of, Real, INFINITE};
use crate::order::as_ints;
use crate::score::board::{BoardModel, BoardModelV, Point};
use crate::score::classify::NetInfo;
use crate::score::metrics::context::{
    find_nets, find_stats, label_nets, net_labels, nets_that, no_netlist, stats_at, Classes,
    ScoreContext, ScoreContextV, Trait,
};
use crate::score::metrics::entries::{
    entries_above, entries_all, entries_below, label_footprints, list_above, list_all, list_below,
    references,
};
use crate::score::metrics::power_select::{
    budgeted_nets, check_known_fills, check_paired, crossing_power, decoupling_caps, find_budgeted,
    find_crossing_power, find_decoupling_caps, find_routed_power, find_track_fed, known_fills,
    planes_paired, routed_power, track_fed_nets,
};
use crate::score::model::{
    noted, scored, skipped, with_offenders, Amount, CategoryResult, CategoryResultV, Extent,
    MetricResult, MetricResultV, Rule, WorstEntry, WorstEntryV,
};
use crate::score::net_stats::{NetStats, NetStatsV};
use crate::score::outline::{circles_fit, has_box};
use crate::score::roles::Role;
use crate::score::stackup::{plane_layers, planes_of};
use crate::sorted_map::{entry, map_find};

verus! {

/// The family of metrics of power integrity.
pub struct PowerPass;

/// What is measured for the family.
pub struct PowerReals {
    /// For each net whose tracks carry its current, its narrowest width over the required one.
    pub width_ratios: Vec<Real>,
    /// For each net with a budget, what it sources over what it sinks.
    pub margins: Vec<Real>,
    /// For each routed power net, its narrowest width over its widest.
    pub width_spreads: Vec<Real>,
    pub mean_width_spread: Real,
    /// For each decoupling capacitor, how far its pads are from the planes.
    pub loops: Vec<Real>,
    pub mean_loop: Real,
    /// The points on the circles of the outline.
    pub on_circles: Vec<Point>,
    pub coverage: Real,
    /// For each power net that crosses layers, how many vias share the current that it sinks,
    /// at half an ampere each.
    pub via_shares: Vec<u64>,
    pub mean_via_ratio: Real,
}

/// Widths below this ratio are listed: one and a half.
pub const LISTED_WIDTH: u64 = 0x3ff8_0000_0000_0000;

/// Widths that vary more than this are listed: 0.99.
pub const LISTED_SPREAD: u64 = 0x3fef_ae14_7ae1_47ae;

/// Loops longer than this are listed: half a millimetre.
pub const LISTED_LOOP: u64 = 0x3fe0_0000_0000_0000;

/// Whether tracks are wide enough for their currents.
pub open spec fn capacity_metric(
    b: BoardModelV,
    stats: Seq<NetStatsV>,
    classes: Classes,
    ratios: Seq<Real>,
) -> MetricResultV {
    let judged = track_fed_nets(b, stats, classes);
    if nets_that(b, classes, Trait::Current).len() == 0 {
        skipped(
            "trace_current_capacity"@,
            40,
            "no io() current declarations on any net"@,
        )
    } else if judged.len() == 0 {
        skipped(
            "trace_current_capacity"@,
            40,
            "current-declared nets are plane-fed or unrouted"@,
        )
    } else {
        noted(
            with_offenders(
                scored(
                    "trace_current_capacity"@,
                    Amount::Measured(least(Real { bits: INFINITE }, ratios)),
                    "width_ratio"@,
                    Rule::Band(1000, None, 700, 0),
                    40,
                ),
                entries_below(net_labels(b, judged), ratios, LISTED_WIDTH),
                false,
            ),
            "net-total current vs narrowest segment (per-branch flow analysis planned)"@,
        )
    }
}

/// How much the sources exceed the sinks.
pub open spec fn margin_metric(b: BoardModelV, classes: Classes, margins: Seq<Real>) -> MetricResultV {
    let nets = budgeted_nets(b, classes);
    if nets.len() == 0 {
        skipped(
            "current_budget_margin"@,
            10,
            "no net declares both source and sink currents"@,
        )
    } else {
        with_offenders(
            scored(
                "current_budget_margin"@,
                Amount::Measured(least(Real { bits: INFINITE }, margins)),
                "ratio"@,
                Rule::Band(1200, None, 200, 0),
                10,
            ),
            entries_all(net_labels(b, nets), margins),
            false,
        )
    }
}

/// How evenly wide power nets are.
pub open spec fn width_metric(b: BoardModelV, classes: Classes, spreads: Seq<Real>, mean: Real) -> MetricResultV {
    let nets = routed_power(b, classes);
    if nets.len() == 0 {
        skipped("power_net_width_consistency"@, 10, "no routed Power-kind nets"@)
    } else {
        with_offenders(
            scored(
                "power_net_width_consistency"@,
                Amount::Measured(mean),
                "ratio"@,
                Rule::Share(1000),
                10,
            ),
            entries_below(net_labels(b, nets), spreads, LISTED_SPREAD),
            false,
        )
    }
}

/// How close decoupling capacitors are to the planes.
pub open spec fn loop_metric(
    b: BoardModelV,
    roles: Option<Seq<(Seq<char>, Role)>>,
    classes: Classes,
    loops: Seq<Real>,
    mean: Real,
) -> MetricResultV {
    match roles {
        Some(roles) => {
            let caps = decoupling_caps(b, roles, classes);
            if caps.len() == 0 {
                skipped(
                    "decoupling_loop"@,
                    20,
                    "no declared capacitors bridging Power and Ground"@,
                )
            } else {
                with_offenders(
                    scored(
                        "decoupling_loop"@,
                        Amount::Measured(mean),
                        "mm"@,
                        Rule::Decay(2000),
                        20,
                    ),
                    entries_above(references(b, caps), loops, LISTED_LOOP),
                    true,
                )
            }
        },
        None => skipped("decoupling_loop"@, 20, no_netlist()),
    }
}

/// How much of the board the planes cover.
pub open spec fn coverage_metric(planes: nat, has_outline: bool, coverage: Real) -> MetricResultV {
    if !has_outline {
        skipped("plane_coverage"@, 10, "no board outline (Edge.Cuts) found"@)
    } else if planes == 0 {
        skipped("plane_coverage"@, 10, "no ground/power plane fills present"@)
    } else {
        scored("plane_coverage"@, Amount::Measured(coverage), "ratio"@, Rule::Share(700), 10)
    }
}

/// How many vias a power net is to have: as many as share the current that it sinks, and at
/// least two.
pub open spec fn wanted_vias(classes: Classes, name: Seq<char>, share: u64) -> u64 {
    match map_find(classes, name) {
        Some(i) => if i.sink_total_amps is Some && share > 2 {
            share
        } else {
            2
        },
        None => 2,
    }
}

/// How many vias a power net is to have: as many as share the current that it sinks, and at
/// least two.
pub fn via_target(classes: &Vec<(String, NetInfo)>, name: &String, share: u64) -> (r: u64)
    ensures
        r == wanted_vias(classes.deep_view(), name@, share),
{
    match entry(classes, name) {
        Some(i) => if i.sink_total_amps.is_some() && share > 2 {
            share
        } else {
            2
        },
        None => 2,
    }
}

/// Entries for the nets with fewer vias than they are to have.
pub open spec fn via_entries(
    b: BoardModelV,
    stats: Seq<NetStatsV>,
    classes: Classes,
    at: Seq<int>,
    shares: Seq<u64>,
) -> Seq<WorstEntryV>
    decreases shares.len(),
{
    if shares.len() == 0 {
        Seq::empty()
    } else {
        let front = via_entries(b, stats, classes, at, shares.drop_last());
        let net = b.nets[at[shares.len() - 1]];
        match stats_at(stats, net.0) {
            Some(s) => if s.via_count < wanted_vias(classes, net.1, shares.last()) {
                front.push(
                    WorstEntryV { label: net.1, value: Extent::Count(s.via_count as u64) },
                )
            } else {
                front
            },
            None => front,
        }
    }
}

/// Whether power nets cross layers with enough vias.
pub open spec fn power_via_metric(
    b: BoardModelV,
    stats: Seq<NetStatsV>,
    classes: Classes,
    shares: Seq<u64>,
    mean: Real,
) -> MetricResultV {
    let nets = crossing_power(b, stats, classes);
    if nets.len() == 0 {
        skipped("power_via_count"@, 10, "no power nets crossing layers"@)
    } else {
        with_offenders(
            scored("power_via_count"@, Amount::Measured(mean), "ratio"@, Rule::Share(1000), 10),
            via_entries(b, stats, classes, nets, shares),
            false,
        )
    }
}

/// Whether a power and a ground plane are neighbours.
pub open spec fn pairing_metric(b: BoardModelV, classes: Classes) -> MetricResultV {
    if b.copper_layers.len() <= 2 {
        skipped("power_gnd_plane_pairing"@, 10, "two-layer board"@)
    } else if !known_fills(b, classes) {
        skipped("power_gnd_plane_pairing"@, 10, "no plane fills present"@)
    } else {
        scored(
            "power_gnd_plane_pairing"@,
            Amount::Count(
                if planes_paired(b, classes) {
                    1
                } else {
                    0
                },
            ),
            "bool"@,
            Rule::Share(1000),
            10,
        )
    }
}

/// The metrics without a netlist.
pub open spec fn power_without_netlist() -> Seq<MetricResultV> {
    seq![
        skipped("trace_current_capacity"@, 10, no_netlist()),
        skipped("current_budget_margin"@, 10, no_netlist()),
        skipped("power_net_width_consistency"@, 10, no_netlist()),
        skipped("decoupling_loop"@, 10, no_netlist()),
        skipped("plane_coverage"@, 10, no_netlist()),
        skipped("power_via_count"@, 10, no_netlist()),
        skipped("power_gnd_plane_pairing"@, 10, no_netlist()),
    ]
}

/// The metrics with a netlist.
pub open spec fn power_metrics(c: ScoreContextV, classes: Classes, m: PowerReals) -> Seq<
    MetricResultV,
> {
    let b = c.board;
    seq![
        capacity_metric(b, c.net_stats, classes, m.width_ratios@),
        margin_metric(b, classes, m.margins@),
        width_metric(b, classes, m.width_spreads@, m.mean_width_spread),
        loop_metric(b, c.roles, classes, m.loops@, m.mean_loop),
        coverage_metric(
            planes_of(b, Some(classes)).len(),
            has_box(b.outline, m.on_circles@),
            m.coverage,
        ),
        power_via_metric(b, c.net_stats, classes, m.via_shares@, m.mean_via_ratio),
        pairing_metric(b, classes),
    ]
}

/// The results of the family.
pub open spec fn power_results(c: ScoreContextV, m: PowerReals) -> CategoryResultV {
    CategoryResultV {
        id: "power_integrity"@,
        label: "Power integrity"@,
        weight: c.weights.power_integrity,
        metrics: match c.net_classes {
            Some(classes) => power_metrics(c, classes, m),
            None => power_without_netlist(),
        },
    }
}

/// There is one measurement for each thing that is measured.
pub open spec fn power_fits(c: ScoreContextV, m: PowerReals) -> bool {
    c.net_classes matches Some(classes) ==> {
        &&& circles_fit(c.board.outline, m.on_circles@)
        &&& m.width_ratios@.len() == track_fed_nets(c.board, c.net_stats, classes).len()
        &&& m.margins@.len() == budgeted_nets(c.board, classes).len()
        &&& m.width_spreads@.len() == routed_power(c.board, classes).len()
        &&& (c.roles matches Some(roles) ==> m.loops@.len() == decoupling_caps(
            c.board,
            roles,
            classes,
        ).len())
        &&& m.via_shares@.len() == crossing_power(c.board, c.net_stats, classes).len()
    }
}

fn judge_capacity(
    board: &BoardModel,
    stats: &Vec<NetStats>,
    classes: &Vec<(String, NetInfo)>,
    m: &PowerReals,
) -> (r: MetricResult)
    requires
        m.width_ratios@.len() == track_fed_nets(
            board.deep_view(),
            stats.deep_view(),
            classes.deep_view(),
        ).len(),
    ensures
        r.deep_view() == capacity_metric(
            board.deep_view(),
            stats.deep_view(),
            classes.deep_view(),
            m.width_ratios@,
        ),
{
    let id = "trace_current_capacity";
    let current = find_nets(board, classes, Trait::Current);
    assert(as_ints(current@).len() == current@.len());
    let judged = find_track_fed(board, stats, classes);
    assert(as_ints(judged@).len() == judged@.len());
    if current.len() == 0 {
        MetricResult::not_applicable(id, 40, "no io() current declarations on any net")
    } else if judged.len() == 0 {
        MetricResult::not_applicable(id, 40, "current-declared nets are plane-fed or unrouted")
    } else {
        let labels = label_nets(board, &judged);
        assert(labels.deep_view().len() == labels@.len());
        let worst = list_below(&labels, &m.width_ratios, LISTED_WIDTH);
        MetricResult::new(
            id,
            Amount::Measured(least_of(Real { bits: INFINITE }, &m.width_ratios)),
            "width_ratio",
            Rule::Band(1000, None, 700, 0),
            40,
        ).with_worst(worst, false).with_note(
            "net-total current vs narrowest segment (per-branch flow analysis planned)",
        )
    }
}

fn judge_margin(board: &BoardModel, classes: &Vec<(String, NetInfo)>, m: &PowerReals) -> (r:
    MetricResult)
    requires
        m.margins@.len() == budgeted_nets(board.deep_view(), classes.deep_view()).len(),
    ensures
        r.deep_view() == margin_metric(
            board.deep_view(),
            classes.deep_view(),
            m.margins@,
        ),
{
    let id = "current_budget_margin";
    let nets = find_budgeted(board, classes);
    assert(as_ints(nets@).len() == nets@.len());
    if nets.len() == 0 {
        MetricResult::not_applicable(id, 10, "no net declares both source and sink currents")
    } else {
        let labels = label_nets(board, &nets);
        assert(labels.deep_view().len() == labels@.len());
        let worst = list_all(&labels, &m.margins);
        MetricResult::new(
            id,
            Amount::Measured(least_of(Real { bits: INFINITE }, &m.margins)),
            "ratio",
            Rule::Band(1200, None, 200, 0),
            10,
        ).with_worst(worst, false)
    }
}

fn judge_width(board: &BoardModel, classes: &Vec<(String, NetInfo)>, m: &PowerReals) -> (r:
    MetricResult)
    requires
        m.width_spreads@.len() == routed_power(board.deep_view(), classes.deep_view()).len(),
    ensures
        r.deep_view() == width_metric(
            board.deep_view(),
            classes.deep_view(),
            m.width_spreads@,
            m.mean_width_spread,
        ),
{
    let id = "power_net_width_consistency";
    let nets = find_routed_power(board, classes);
    assert(as_ints(nets@).len() == nets@.len());
    if nets.len() == 0 {
        MetricResult::not_applicable(id, 10, "no routed Power-kind nets")
    } else {
        let labels = label_nets(board, &nets);
        assert(labels.deep_view().len() == labels@.len());
        let worst = list_below(&labels, &m.width_spreads, LISTED_SPREAD);
        MetricResult::new(
            id,
            Amount::Measured(m.mean_width_spread),
            "ratio",
            Rule::Share(1000),
            10,
        ).with_worst(worst, false)
    }
}

fn judge_loops(
    board: &BoardModel,
    roles: &Option<Vec<(String, Role)>>,
    classes: &Vec<(String, NetInfo)>,
    m: &PowerReals,
) -> (r: MetricResult)
    requires
        roles.deep_view() matches Some(rv) ==> m.loops@.len() == decoupling_caps(
            board.deep_view(),
            rv,
            classes.deep_view(),
        ).len(),
    ensures
        r.deep_view() == loop_metric(
            board.deep_view(),
            roles.deep_view(),
            classes.deep_view(),
            m.loops@,
            m.mean_loop,
        ),
{
    let id = "decoupling_loop";
    match roles {
        Some(roles) => {
            let caps = find_decoupling_caps(board, roles, classes);
            assert(as_ints(caps@).len() == caps@.len());
            if caps.len() == 0 {
                MetricResult::not_applicable(
                    id,
                    20,
                    "no declared capacitors bridging Power and Ground",
                )
            } else {
                let labels = label_footprints(board, &caps);
                assert(labels.deep_view().len() == labels@.len());
                let worst = list_above(&labels, &m.loops, LISTED_LOOP);
                MetricResult::new(id, Amount::Measured(m.mean_loop), "mm", Rule::Decay(2000), 20)
                    .with_worst(worst, true)
            }
        },
        None => MetricResult::not_applicable(
            id,
            20,
            "netlist unavailable: declarative net classification required",
        ),
    }
}

fn judge_coverage(board: &BoardModel, planes: usize, m: &PowerReals) -> (r: MetricResult)
    ensures
        r.deep_view() == coverage_metric(
            planes as nat,
            has_box(board.deep_view().outline, m.on_circles@),
            m.coverage,
        ),
{
    let id = "plane_coverage";
    if board.outline_bbox(&m.on_circles).is_none() {
        MetricResult::not_applicable(id, 10, "no board outline (Edge.Cuts) found")
    } else if planes == 0 {
        MetricResult::not_applicable(id, 10, "no ground/power plane fills present")
    } else {
        MetricResult::new(id, Amount::Measured(m.coverage), "ratio", Rule::Share(700), 10)
    }
}

fn judge_power_vias(
    board: &BoardModel,
    stats: &Vec<NetStats>,
    classes: &Vec<(String, NetInfo)>,
    m: &PowerReals,
) -> (r: MetricResult)
    requires
        m.via_shares@.len() == crossing_power(
            board.deep_view(),
            stats.deep_view(),
            classes.deep_view(),
        ).len(),
    ensures
        r.deep_view() == power_via_metric(
            board.deep_view(),
            stats.deep_view(),
            classes.deep_view(),
            m.via_shares@,
            m.mean_via_ratio,
        ),
{
    let id = "power_via_count";
    let ghost bv = board.deep_view();
    let ghost sv = stats.deep_view();
    let ghost cv = classes.deep_view();
    let nets = find_crossing_power(board, stats, classes);
    let ghost nv = as_ints(nets@);
    let n: usize = nets.len();
    assert(nv.len() == n);
    if n == 0 {
        return MetricResult::not_applicable(id, 10, "no power nets crossing layers");
    }
    let ghost tv = m.via_shares@;
    let mut worst: Vec<WorstEntry> = Vec::new();
    let mut i: usize = 0;
    assert(worst.deep_view() =~= via_entries(bv, sv, cv, nv, tv.take(0)));
    while i < n
        invariant
            n == nets@.len(),
            n == m.via_shares@.len(),
            i <= n,
            bv == board.deep_view(),
            sv == stats.deep_view(),
            cv == classes.deep_view(),
            nv == as_ints(nets@),
            tv == m.via_shares@,
            forall|j: int| 0 <= j < nets@.len() ==> (#[trigger] nets@[j]) < board.nets@.len(),
            worst.deep_view() == via_entries(bv, sv, cv, nv, tv.take(i as int)),
        decreases n - i,
    {
        let ghost before = worst.deep_view();
        assert(tv.take(i + 1).drop_last() =~= tv.take(i as int));
        let k: usize = nets[i];
        assert(bv.nets[k as int] == (board.nets@[k as int].0, board.nets@[k as int].1@));
        match find_stats(stats, board.nets[k].0) {
            Some(s) => {
                if (s.via_count as u64) < via_target(classes, &board.nets[k].1, m.via_shares[i]) {
                    let value = Extent::Count(s.via_count as u64);
                    worst.push(WorstEntry { label: board.nets[k].1.clone(), value });
                    assert(worst.deep_view() =~= before.push(
                        WorstEntryV { label: bv.nets[k as int].1, value },
                    ));
                }
            },
            None => {},
        }
        i += 1;
    }
    assert(tv.take(n as int) =~= tv);
    MetricResult::new(id, Amount::Measured(m.mean_via_ratio), "ratio", Rule::Share(1000), 10)
        .with_worst(worst, false)
}

fn judge_pairing(board: &BoardModel, classes: &Vec<(String, NetInfo)>) -> (r: MetricResult)
    ensures
        r.deep_view() == pairing_metric(board.deep_view(), classes.deep_view()),
{
    let id = "power_gnd_plane_pairing";
    assert(board.deep_view().copper_layers.len() == board.copper_layers@.len());
    if board.copper_layers.len() <= 2 {
        MetricResult::not_applicable(id, 10, "two-layer board")
    } else if !check_known_fills(board, classes) {
        MetricResult::not_applicable(id, 10, "no plane fills present")
    } else {
        let paired: u128 = if check_paired(board, classes) {
            1
        } else {
            0
        };
        MetricResult::new(id, Amount::Count(paired), "bool", Rule::Share(1000), 10)
    }
}

fn all_skipped() -> (r: Vec<MetricResult>)
    ensures
        r.deep_view() == power_without_netlist(),
{
    let note = "netlist unavailable: declarative net classification required";
    let mut m: Vec<MetricResult> = Vec::new();
    m.push(MetricResult::not_applicable("trace_current_capacity", 10, note));
    m.push(MetricResult::not_applicable("current_budget_margin", 10, note));
    m.push(MetricResult::not_applicable("power_net_width_consistency", 10, note));
    m.push(MetricResult::not_applicable("decoupling_loop", 10, note));
    m.push(MetricResult::not_applicable("plane_coverage", 10, note));
    m.push(MetricResult::not_applicable("power_via_count", 10, note));
    m.push(MetricResult::not_applicable("power_gnd_plane_pairing", 10, note));
    assert(m.deep_view() =~= power_without_netlist());
    m
}

impl PowerPass {
    /// The name of the family.
    pub fn id(&self) -> (r: &'static str)
        ensures
            r@ == "power_integrity"@,
    {
        "power_integrity"
    }

    /// The results of the family.
    pub fn run(&self, ctx: &ScoreContext, reals: &PowerReals) -> (r: CategoryResult)
        requires
            power_fits(ctx.deep_view(), *reals),
        ensures
            r.deep_view() == power_results(ctx.deep_view(), *reals),
    {
        let ghost cv = ctx.deep_view();
        let metrics = match &ctx.net_classes {
            Some(classes) => {
                let board = &ctx.board;
                let stats = &ctx.net_stats;
                let planes = plane_layers(board, &ctx.net_classes);
                assert(planes.deep_view().len() == planes@.len());
                let mut m: Vec<MetricResult> = Vec::new();
                m.push(judge_capacity(board, stats, classes, reals));
                m.push(judge_margin(board, classes, reals));
                m.push(judge_width(board, classes, reals));
                m.push(judge_loops(board, &ctx.roles, classes, reals));
                m.push(judge_coverage(board, planes.len(), reals));
                m.push(judge_power_vias(board, stats, classes, reals));
                m.push(judge_pairing(board, classes));
                assert(m.deep_view() =~= power_metrics(cv, classes.deep_view(), *reals));
                m
            },
            None => all_skipped(),
        };
        assert(metrics.deep_view() =~= power_results(cv, *reals).metrics);
        CategoryResult::new(
            "power_integrity",
            "Power integrity",
            ctx.weights.power_integrity,
            metrics,
        )
    }
}

} // verus!
