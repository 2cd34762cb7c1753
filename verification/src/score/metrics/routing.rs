//! Metrics of routing efficiency.
use vstd::prelude::*;

use crate::number::{below, zero, Real};
use crate::order::as_ints;
use crate::score::gates::{count_routable, is_routable, routable_count};
use crate::score::metrics::context::{ScoreContext, ScoreContextV};
use crate::score::metrics::tally::{
    entries_where, every, list, list_where, sum_where, total, total_where, Field,
};
use crate::score::model::{
    graded, scored, skipped, with_offenders, Amount, CategoryResult, CategoryResultV, Extent,
    Grade, MetricResult, MetricResultV, Rule, WorstEntry, WorstEntryV,
};
use crate::score::net_stats::{has_detour, NetStats, NetStatsV, TINY};
use crate::select::{asks, count_places, find_places, places, Test};

verus! {

/// The family of metrics of routing efficiency.
pub struct RoutingPass;

/// What is measured for the family. Detours are the routed length over the shortest tree, one for
/// each net where the two compare.
pub struct RoutingReals {
    pub detours: Vec<Real>,
    pub mean_detour: Real,
    pub total_routed: Real,
    pub total_mst: Real,
    /// The total routed length over the total of the shortest trees.
    pub wire_ratio: Real,
    pub stub_total: Real,
    /// The routed length on each copper layer.
    pub layer_lengths: Vec<Real>,
    /// How unevenly the routed length is spread over the copper layers.
    pub gini: Real,
}

/// The nets where the routed length compares with the shortest tree.
pub open spec fn compared(stats: Seq<NetStatsV>) -> Seq<int> {
    places(stats, |s: NetStatsV| has_detour(s))
}

/// Entries for the nets that compare, with their detours.
pub open spec fn detour_entries(stats: Seq<NetStatsV>, detours: Seq<Real>) -> Seq<WorstEntryV> {
    Seq::new(
        compared(stats).len(),
        |i: int|
            WorstEntryV {
                label: stats[compared(stats)[i]].name,
                value: Extent::Measured(detours[i]),
            },
    )
}

/// The net needs routing and has no filled area; the vias of others are mostly stitching.
pub open spec fn zone_free() -> spec_fn(NetStatsV) -> bool {
    |s: NetStatsV| is_routable(s) && !s.has_zone
}

/// The net needs routing and uses more than two layers.
pub open spec fn spread_out() -> spec_fn(NetStatsV) -> bool {
    |s: NetStatsV| is_routable(s) && s.layers_used.len() > 2
}

/// Entries for the nets with free ends.
pub open spec fn stub_entries(stats: Seq<NetStatsV>) -> Seq<WorstEntryV>
    decreases stats.len(),
{
    if stats.len() == 0 {
        Seq::empty()
    } else {
        let front = stub_entries(stats.drop_last());
        if below(zero(), stats.last().stub_length) {
            front.push(
                WorstEntryV {
                    label: stats.last().name,
                    value: Extent::Measured(stats.last().stub_length),
                },
            )
        } else {
            front
        }
    }
}

/// How many of the lengths are not zero.
pub open spec fn carrying(lengths: Seq<Real>) -> nat {
    places(lengths, |x: Real| below(zero(), x)).len()
}

/// How far the routed length exceeds the shortest tree.
pub open spec fn detour_metric(stats: Seq<NetStatsV>, detours: Seq<Real>, mean: Real) -> MetricResultV {
    if compared(stats).len() == 0 {
        skipped("detour_factor"@, 40, "no fully routed multi-pad nets yet"@)
    } else {
        with_offenders(
            scored(
                "detour_factor"@,
                Amount::Measured(mean),
                "ratio"@,
                Rule::Band(0, Some(1250), 0, 1250),
                40,
            ),
            detour_entries(stats, detours),
            true,
        )
    }
}

/// The total routed length.
pub open spec fn wire_metric(routed: Real, mst: Real, ratio: Real) -> MetricResultV {
    if below(Real { bits: TINY }, mst) {
        graded(
            "total_wire_length"@,
            Amount::Measured(routed),
            "mm"@,
            Grade { basis: Amount::Measured(ratio), rule: Rule::Band(0, Some(1250), 0, 1250) },
            20,
        )
    } else {
        skipped("total_wire_length"@, 20, "no multi-pad nets to route"@)
    }
}

/// Vias per net.
pub open spec fn via_metric(stats: Seq<NetStatsV>) -> MetricResultV {
    let n = places(stats, zone_free()).len();
    if n == 0 {
        skipped("via_count_per_net"@, 30, "no zone-free multi-pad nets"@)
    } else {
        with_offenders(
            scored(
                "via_count_per_net"@,
                Amount::Ratio(sum_where(stats, zone_free(), Field::Vias) as u128, n as u128),
                "count"@,
                Rule::Decay(2000),
                30,
            ),
            entries_where(stats, zone_free(), Field::Vias),
            true,
        )
    }
}

/// The share of nets that use more than two layers.
pub open spec fn spread_metric(stats: Seq<NetStatsV>) -> MetricResultV {
    if routable_count(stats) == 0 {
        skipped("unnecessary_layer_usage"@, 20, "no multi-pad nets"@)
    } else {
        scored(
            "unnecessary_layer_usage"@,
            Amount::Ratio(
                places(stats, spread_out()).len() as u128,
                routable_count(stats) as u128,
            ),
            "ratio"@,
            Rule::Complement,
            20,
        )
    }
}

/// The share of segments that could be merged with another.
pub open spec fn fragment_metric(stats: Seq<NetStatsV>) -> MetricResultV {
    let segments = sum_where(stats, every(), Field::Segments);
    if segments == 0 {
        skipped("segment_fragmentation"@, 10, "no routed segments"@)
    } else {
        scored(
            "segment_fragmentation"@,
            Amount::Ratio(
                sum_where(stats, every(), Field::Mergeable) as u128,
                segments as u128,
            ),
            "ratio"@,
            Rule::Complement,
            10,
        )
    }
}

/// Reversals per net.
pub open spec fn meander_metric(stats: Seq<NetStatsV>) -> MetricResultV {
    if routable_count(stats) == 0 || sum_where(stats, every(), Field::Segments) == 0 {
        skipped("meander_score"@, 20, "no routed segments"@)
    } else {
        with_offenders(
            scored(
                "meander_score"@,
                Amount::Ratio(
                    sum_where(stats, every(), Field::Reversals) as u128,
                    routable_count(stats) as u128,
                ),
                "count"@,
                Rule::Decay(3000),
                20,
            ),
            entries_where(stats, every(), Field::Reversals),
            true,
        )
    }
}

/// How evenly the routed length is spread over the layers.
pub open spec fn balance_metric(layers: nat, lengths: Seq<Real>, gini: Real) -> MetricResultV {
    if layers < 2 || carrying(lengths) < 2 {
        skipped("routing_layer_balance"@, 10, "routing on fewer than two copper layers"@)
    } else {
        scored("routing_layer_balance"@, Amount::Measured(gini), "gini"@, Rule::Complement, 10)
    }
}

/// The results of the family.
pub open spec fn routing_results(c: ScoreContextV, m: RoutingReals) -> CategoryResultV {
    CategoryResultV {
        id: "routing_efficiency"@,
        label: "Routing efficiency"@,
        weight: c.weights.routing_efficiency,
        metrics: seq![
            detour_metric(c.net_stats, m.detours@, m.mean_detour),
            wire_metric(m.total_routed, m.total_mst, m.wire_ratio),
            via_metric(c.net_stats),
            spread_metric(c.net_stats),
            fragment_metric(c.net_stats),
            meander_metric(c.net_stats),
            with_offenders(
                scored(
                    "stub_length"@,
                    Amount::Measured(m.stub_total),
                    "mm"@,
                    Rule::Decay(2000),
                    20,
                ),
                stub_entries(c.net_stats),
                true,
            ),
            balance_metric(c.board.copper_layers.len(), m.layer_lengths@, m.gini),
        ],
    }
}

struct Comparable;

impl Test<NetStats> for Comparable {
    closed spec fn passes(&self, x: NetStatsV) -> bool {
        has_detour(x)
    }

    fn check(&self, x: &NetStats) -> (r: bool) {
        x.comparable()
    }
}

struct ZoneFree;

impl Test<NetStats> for ZoneFree {
    closed spec fn passes(&self, x: NetStatsV) -> bool {
        is_routable(x) && !x.has_zone
    }

    fn check(&self, x: &NetStats) -> (r: bool) {
        x.pad_count >= 2 && !x.has_zone
    }
}

struct SpreadOut;

impl Test<NetStats> for SpreadOut {
    closed spec fn passes(&self, x: NetStatsV) -> bool {
        is_routable(x) && x.layers_used.len() > 2
    }

    fn check(&self, x: &NetStats) -> (r: bool) {
        assert(x.deep_view().layers_used.len() == x.layers_used@.len());
        x.pad_count >= 2 && x.layers_used.len() > 2
    }
}

struct Carrying;

impl Test<Real> for Carrying {
    closed spec fn passes(&self, x: Real) -> bool {
        below(zero(), x)
    }

    fn check(&self, x: &Real) -> (r: bool) {
        Real::zero().less(x)
    }
}

/// The nets where the routed length compares with the shortest tree.
pub fn comparable_nets(stats: &Vec<NetStats>) -> (r: Vec<usize>)
    ensures
        as_ints(r@) == compared(stats.deep_view()),
        forall|i: int| 0 <= i < r@.len() ==> (#[trigger] r@[i]) < stats@.len(),
{
    let r = find_places(stats, &Comparable);
    assert(asks::<NetStats, Comparable>(Comparable) =~= |s: NetStatsV| has_detour(s));
    r
}

fn judge_detour(stats: &Vec<NetStats>, detours: &Vec<Real>, mean: Real) -> (r: MetricResult)
    requires
        detours@.len() == compared(stats.deep_view()).len(),
    ensures
        r.deep_view() == detour_metric(stats.deep_view(), detours@, mean),
{
    let ghost sv = stats.deep_view();
    let nets = comparable_nets(stats);
    let ghost at = compared(sv);
    let n: usize = nets.len();
    assert(as_ints(nets@).len() == n);
    if n == 0 {
        return MetricResult::not_applicable(
            "detour_factor",
            40,
            "no fully routed multi-pad nets yet",
        );
    }
    let ghost want = detour_entries(sv, detours@);
    let mut worst: Vec<WorstEntry> = Vec::new();
    let mut i: usize = 0;
    while i < n
        invariant
            n == nets@.len(),
            n == detours@.len(),
            i <= n,
            sv == stats.deep_view(),
            at == compared(sv),
            as_ints(nets@) == at,
            forall|j: int| 0 <= j < nets@.len() ==> (#[trigger] nets@[j]) < stats@.len(),
            want == detour_entries(sv, detours@),
            worst.deep_view() == want.take(i as int),
        decreases n - i,
    {
        let ghost before = worst.deep_view();
        let k: usize = nets[i];
        assert(at[i as int] == k);
        assert(sv[k as int] == stats@[k as int].deep_view());
        worst.push(
            WorstEntry { label: stats[k].name.clone(), value: Extent::Measured(detours[i]) },
        );
        assert(worst.deep_view() =~= before.push(want[i as int]));
        assert(worst.deep_view() =~= want.take(i + 1));
        i += 1;
    }
    assert(want.take(n as int) =~= want);
    MetricResult::new(
        "detour_factor",
        Amount::Measured(mean),
        "ratio",
        Rule::Band(0, Some(1250), 0, 1250),
        40,
    ).with_worst(worst, true)
}

fn judge_wire(routed: Real, mst: Real, ratio: Real) -> (r: MetricResult)
    ensures
        r.deep_view() == wire_metric(routed, mst, ratio),
{
    let tiny = Real { bits: TINY };
    if tiny.less(&mst) {
        MetricResult::with_grade(
            "total_wire_length",
            Amount::Measured(routed),
            "mm",
            Grade { basis: Amount::Measured(ratio), rule: Rule::Band(0, Some(1250), 0, 1250) },
            20,
        )
    } else {
        MetricResult::not_applicable("total_wire_length", 20, "no multi-pad nets to route")
    }
}

fn judge_vias(stats: &Vec<NetStats>) -> (r: MetricResult)
    ensures
        r.deep_view() == via_metric(stats.deep_view()),
{
    assert(asks::<NetStats, ZoneFree>(ZoneFree) =~= zone_free());
    let n: usize = count_places(stats, &ZoneFree);
    if n == 0 {
        MetricResult::not_applicable("via_count_per_net", 30, "no zone-free multi-pad nets")
    } else {
        let vias: u128 = total_where(stats, &ZoneFree, Field::Vias);
        let worst = list_where(stats, &ZoneFree, Field::Vias);
        MetricResult::new(
            "via_count_per_net",
            Amount::Ratio(vias, n as u128),
            "count",
            Rule::Decay(2000),
            30,
        ).with_worst(worst, true)
    }
}

fn judge_spread(stats: &Vec<NetStats>) -> (r: MetricResult)
    ensures
        r.deep_view() == spread_metric(stats.deep_view()),
{
    let routable: usize = count_routable(stats);
    if routable == 0 {
        MetricResult::not_applicable("unnecessary_layer_usage", 20, "no multi-pad nets")
    } else {
        assert(asks::<NetStats, SpreadOut>(SpreadOut) =~= spread_out());
        let spread: usize = count_places(stats, &SpreadOut);
        MetricResult::new(
            "unnecessary_layer_usage",
            Amount::Ratio(spread as u128, routable as u128),
            "ratio",
            Rule::Complement,
            20,
        )
    }
}

fn judge_fragments(stats: &Vec<NetStats>) -> (r: MetricResult)
    ensures
        r.deep_view() == fragment_metric(stats.deep_view()),
{
    let segments: u128 = total(stats, Field::Segments);
    if segments == 0 {
        MetricResult::not_applicable("segment_fragmentation", 10, "no routed segments")
    } else {
        let mergeable: u128 = total(stats, Field::Mergeable);
        MetricResult::new(
            "segment_fragmentation",
            Amount::Ratio(mergeable, segments),
            "ratio",
            Rule::Complement,
            10,
        )
    }
}

fn judge_meander(stats: &Vec<NetStats>) -> (r: MetricResult)
    ensures
        r.deep_view() == meander_metric(stats.deep_view()),
{
    let routable: usize = count_routable(stats);
    let segments: u128 = total(stats, Field::Segments);
    if routable == 0 || segments == 0 {
        MetricResult::not_applicable("meander_score", 20, "no routed segments")
    } else {
        let reversals: u128 = total(stats, Field::Reversals);
        let worst = list(stats, Field::Reversals);
        MetricResult::new(
            "meander_score",
            Amount::Ratio(reversals, routable as u128),
            "count",
            Rule::Decay(3000),
            20,
        ).with_worst(worst, true)
    }
}

fn list_stubs(stats: &Vec<NetStats>) -> (r: Vec<WorstEntry>)
    ensures
        r.deep_view() == stub_entries(stats.deep_view()),
{
    let ghost sv = stats.deep_view();
    let n: usize = stats.len();
    let mut out: Vec<WorstEntry> = Vec::new();
    let mut i: usize = 0;
    assert(out.deep_view() =~= stub_entries(sv.take(0)));
    while i < n
        invariant
            n == stats@.len(),
            i <= n,
            sv == stats.deep_view(),
            out.deep_view() == stub_entries(sv.take(i as int)),
        decreases n - i,
    {
        let ghost before = out.deep_view();
        assert(sv.take(i + 1).drop_last() =~= sv.take(i as int));
        assert(sv[i as int] == stats@[i as int].deep_view());
        if Real::zero().less(&stats[i].stub_length) {
            let value = Extent::Measured(stats[i].stub_length);
            out.push(WorstEntry { label: stats[i].name.clone(), value });
            assert(out.deep_view() =~= before.push(
                WorstEntryV { label: sv[i as int].name, value },
            ));
        }
        i += 1;
    }
    assert(sv.take(n as int) =~= sv);
    out
}

fn judge_balance(layers: usize, lengths: &Vec<Real>, gini: Real) -> (r: MetricResult)
    ensures
        r.deep_view() == balance_metric(layers as nat, lengths@, gini),
{
    assert(asks::<Real, Carrying>(Carrying) =~= |x: Real| below(zero(), x));
    assert(lengths.deep_view() =~= lengths@);
    let carrying: usize = count_places(lengths, &Carrying);
    if layers < 2 || carrying < 2 {
        MetricResult::not_applicable(
            "routing_layer_balance",
            10,
            "routing on fewer than two copper layers",
        )
    } else {
        MetricResult::new(
            "routing_layer_balance",
            Amount::Measured(gini),
            "gini",
            Rule::Complement,
            10,
        )
    }
}

impl RoutingPass {
    /// The name of the family.
    pub fn id(&self) -> (r: &'static str)
        ensures
            r@ == "routing_efficiency"@,
    {
        "routing_efficiency"
    }

    /// The results of the family.
    pub fn run(&self, ctx: &ScoreContext, reals: &RoutingReals) -> (r: CategoryResult)
        requires
            reals.detours@.len() == compared(ctx.deep_view().net_stats).len(),
        ensures
            r.deep_view() == routing_results(ctx.deep_view(), *reals),
    {
        let ghost cv = ctx.deep_view();
        let stats = &ctx.net_stats;
        let mut metrics: Vec<MetricResult> = Vec::new();
        metrics.push(judge_detour(stats, &reals.detours, reals.mean_detour));
        metrics.push(judge_wire(reals.total_routed, reals.total_mst, reals.wire_ratio));
        metrics.push(judge_vias(stats));
        metrics.push(judge_spread(stats));
        metrics.push(judge_fragments(stats));
        metrics.push(judge_meander(stats));
        let stubs = list_stubs(stats);
        metrics.push(
            MetricResult::new(
                "stub_length",
                Amount::Measured(reals.stub_total),
                "mm",
                Rule::Decay(2000),
                20,
            ).with_worst(stubs, true),
        );
        let layers: usize = ctx.board.copper_layers.len();
        assert(cv.board.copper_layers.len() == layers);
        metrics.push(judge_balance(layers, &reals.layer_lengths, reals.gini));
        assert(metrics.deep_view() =~= routing_results(cv, *reals).metrics);
        CategoryResult::new(
            "routing_efficiency",
            "Routing efficiency",
            ctx.weights.routing_efficiency,
            metrics,
        )
    }
}

} // verus!
