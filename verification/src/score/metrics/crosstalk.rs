//! Metrics of crosstalk: coupling between declared aggressors and victims, and the spacing of all
//! tracks.
use vstd::prelude::*;

use crate::number::{below, greatest, greatest_of, least, least_of, zero, Real, INFINITE};
use crate::order::as_ints;
use crate::score::board::{BoardModel, BoardModelV};
use crate::score::classify::NetInfo;
use crate::score::metrics::context::{
    find_nets, nets_that, no_netlist, Classes, ScoreContext, ScoreContextV, Trait,
};
use crate::score::metrics::crosstalk_select::{
    count_hotspots, coupled_pairs, find_coupled_pairs, find_low_margin, find_victims, hotspots,
    low_margin, victims, Run,
};
use crate::score::metrics::entries::{entries_all, list_all};
use crate::score::metrics::si::ONE;
use crate::score::metrics::si_select::pairs_as_ints;
use crate::score::model::{
    noted, scored, skipped, with_offenders, Amount, CategoryResult, CategoryResultV, MetricResult,
    MetricResultV, Rule,
};
use crate::score::net_stats::TINY;
use crate::score::spatial::CellRange;
use crate::score::stackup::{has_depths, knows_depths};

verus! {

/// The family of metrics of crosstalk.
pub struct CrosstalkPass;

/// What is measured for the family.
pub struct CrosstalkReals {
    /// The length over which tracks run beside each other.
    pub adjacent_length: Real,
    /// The share of that length that keeps its spacing.
    pub spaced_ratio: Real,
    /// For each track the grid cells that it covers.
    pub cells: Vec<CellRange>,
    /// For each track the grid cells in which it is looked for victims.
    pub around: Vec<CellRange>,
    /// For each aggressor track and victim track beside it their parallel run, if any.
    pub runs: Vec<Option<Run>>,
    /// For each victim, in order, the sum of its exposures.
    pub exposures: Vec<Real>,
    /// The sum of the exposures of tracks above each other.
    pub broadside_total: Real,
}

/// How much of the parallel routing keeps its spacing.
pub open spec fn spacing_metric(length: Real, ratio: Real) -> MetricResultV {
    if below(Real { bits: TINY }, length) {
        scored(
            "three_w_compliance"@,
            Amount::Measured(ratio),
            "ratio"@,
            Rule::Share(1000),
            30,
        )
    } else {
        noted(
            scored(
                "three_w_compliance"@,
                Amount::Measured(Real { bits: ONE }),
                "ratio"@,
                Rule::Fixed(1000),
                30,
            ),
            "no parallel adjacencies found"@,
        )
    }
}

/// How much victims are exposed to aggressors on their layer.
pub open spec fn parallel_metric(names: Seq<Seq<char>>, exposures: Seq<Real>) -> MetricResultV {
    with_offenders(
        scored(
            "parallel_coupling"@,
            Amount::Measured(greatest(zero(), exposures)),
            "mm_per_mm2"@,
            Rule::Decay(100000),
            40,
        ),
        entries_all(names, exposures),
        true,
    )
}

/// How much victims are exposed to aggressors on the next layer.
pub open spec fn broadside_metric(b: BoardModelV, total: Real) -> MetricResultV {
    if has_depths(b.stackup) && b.copper_layers.len() >= 2 {
        scored(
            "broadside_coupling"@,
            Amount::Measured(total),
            "mm_per_mm2"@,
            Rule::Decay(200000),
            20,
        )
    } else {
        skipped("broadside_coupling"@, 20, "stackup data missing"@)
    }
}

/// The smallest margin of each name.
pub open spec fn low_margins(
    b: BoardModelV,
    classes: Classes,
    pairs: Seq<(int, int)>,
    runs: Seq<Option<Run>>,
    names: Seq<Seq<char>>,
) -> Seq<Real> {
    Seq::new(
        names.len(),
        |i: int|
            match low_margin(b, classes, pairs, runs, names[i], pairs.len() as int) {
                Some(m) => m,
                None => Real { bits: INFINITE },
            },
    )
}

/// How far sensitive victims keep from aggressors.
pub open spec fn isolation_metric(
    b: BoardModelV,
    classes: Classes,
    pairs: Seq<(int, int)>,
    runs: Seq<Option<Run>>,
) -> MetricResultV {
    let names = victims(b, classes, pairs, runs, true);
    let margins = low_margins(b, classes, pairs, runs, names);
    if names.len() > 0 {
        with_offenders(
            scored(
                "sensitive_net_isolation"@,
                Amount::Measured(least(Real { bits: INFINITE }, margins)),
                "x3w"@,
                Rule::Share(1000),
                20,
            ),
            entries_all(names, margins),
            false,
        )
    } else if nets_that(b, classes, Trait::Sensitive).len() > 0 {
        noted(
            scored(
                "sensitive_net_isolation"@,
                Amount::Measured(Real { bits: ONE }),
                "ratio"@,
                Rule::Fixed(1000),
                20,
            ),
            "sensitive nets have no aggressor adjacency"@,
        )
    } else {
        skipped("sensitive_net_isolation"@, 20, "no nets declared analog/rf"@)
    }
}

/// The metrics that need classes do not apply, for one reason.
pub open spec fn no_coupling(spacing: MetricResultV, note: Seq<char>) -> Seq<MetricResultV> {
    seq![
        spacing,
        skipped("parallel_coupling"@, 20, note),
        skipped("broadside_coupling"@, 20, note),
        skipped("sensitive_net_isolation"@, 20, note),
        skipped("crosstalk_hotspot_count"@, 20, note),
    ]
}

/// There are aggressors and victims.
pub open spec fn has_pairs(b: BoardModelV, classes: Classes) -> bool {
    nets_that(b, classes, Trait::Aggressor).len() > 0 && nets_that(
        b,
        classes,
        Trait::Victim,
    ).len() > 0
}

/// The aggressor tracks with the victim tracks beside them.
pub open spec fn judged_pairs(b: BoardModelV, classes: Classes, m: CrosstalkReals) -> Seq<
    (int, int),
> {
    coupled_pairs(b, classes, m.cells@, m.around@, m.cells@.len() as int)
}

/// The metrics of the family.
pub open spec fn crosstalk_metrics(c: ScoreContextV, m: CrosstalkReals) -> Seq<MetricResultV> {
    let b = c.board;
    let spacing = spacing_metric(m.adjacent_length, m.spaced_ratio);
    match c.net_classes {
        Some(classes) => if has_pairs(b, classes) {
            let pairs = judged_pairs(b, classes, m);
            seq![
                spacing,
                parallel_metric(victims(b, classes, pairs, m.runs@, false), m.exposures@),
                broadside_metric(b, m.broadside_total),
                isolation_metric(b, classes, pairs, m.runs@),
                scored(
                    "crosstalk_hotspot_count"@,
                    Amount::Count(hotspots(m.runs@) as u128),
                    "count"@,
                    Rule::Decay(3000),
                    20,
                ),
            ]
        } else {
            no_coupling(spacing, "no aggressor/victim pairs declared (`signal` classes)"@)
        },
        None => no_coupling(spacing, no_netlist()),
    }
}

/// The results of the family.
pub open spec fn crosstalk_results(c: ScoreContextV, m: CrosstalkReals) -> CategoryResultV {
    CategoryResultV {
        id: "crosstalk"@,
        label: "Crosstalk"@,
        weight: c.weights.crosstalk,
        metrics: crosstalk_metrics(c, m),
    }
}

/// There is one measurement for each thing that is measured.
pub open spec fn crosstalk_fits(c: ScoreContextV, m: CrosstalkReals) -> bool {
    &&& m.cells@.len() == c.board.tracks.len()
    &&& m.around@.len() == c.board.tracks.len()
    &&& c.net_classes matches Some(classes) ==> {
        let pairs = judged_pairs(c.board, classes, m);
        &&& m.runs@.len() == pairs.len()
        &&& m.exposures@.len() == victims(c.board, classes, pairs, m.runs@, false).len()
    }
}

fn judge_spacing(m: &CrosstalkReals) -> (r: MetricResult)
    ensures
        r.deep_view() == spacing_metric(m.adjacent_length, m.spaced_ratio),
{
    let id = "three_w_compliance";
    let tiny = Real { bits: TINY };
    if tiny.less(&m.adjacent_length) {
        MetricResult::new(id, Amount::Measured(m.spaced_ratio), "ratio", Rule::Share(1000), 30)
    } else {
        MetricResult::new(
            id,
            Amount::Measured(Real { bits: ONE }),
            "ratio",
            Rule::Fixed(1000),
            30,
        ).with_note("no parallel adjacencies found")
    }
}

fn judge_broadside(board: &BoardModel, m: &CrosstalkReals) -> (r: MetricResult)
    ensures
        r.deep_view() == broadside_metric(board.deep_view(), m.broadside_total),
{
    let id = "broadside_coupling";
    assert(board.deep_view().copper_layers.len() == board.copper_layers@.len());
    if knows_depths(board) && board.copper_layers.len() >= 2 {
        MetricResult::new(
            id,
            Amount::Measured(m.broadside_total),
            "mm_per_mm2",
            Rule::Decay(200000),
            20,
        )
    } else {
        MetricResult::not_applicable(id, 20, "stackup data missing")
    }
}

fn judge_isolation(
    board: &BoardModel,
    classes: &Vec<(String, NetInfo)>,
    pairs: &Vec<(usize, usize)>,
    runs: &Vec<Option<Run>>,
) -> (r: MetricResult)
    requires
        runs@.len() == pairs@.len(),
        forall|i: int| 0 <= i < pairs@.len() ==> (#[trigger] pairs@[i]).1 < board.tracks@.len(),
    ensures
        r.deep_view() == isolation_metric(
            board.deep_view(),
            classes.deep_view(),
            pairs_as_ints(pairs@),
            runs@,
        ),
{
    let id = "sensitive_net_isolation";
    let ghost bv = board.deep_view();
    let ghost cv = classes.deep_view();
    let ghost pv = pairs_as_ints(pairs@);
    let names = find_victims(board, classes, pairs, runs, true);
    let ghost nv = names.deep_view();
    let n: usize = names.len();
    assert(nv.len() == n);
    if n == 0 {
        let nets = find_nets(board, classes, Trait::Sensitive);
        assert(as_ints(nets@).len() == nets@.len());
        if nets.len() > 0 {
            return MetricResult::new(
                id,
                Amount::Measured(Real { bits: ONE }),
                "ratio",
                Rule::Fixed(1000),
                20,
            ).with_note("sensitive nets have no aggressor adjacency");
        }
        return MetricResult::not_applicable(id, 20, "no nets declared analog/rf");
    }
    let ghost want = low_margins(bv, cv, pv, runs@, nv);
    let mut margins: Vec<Real> = Vec::new();
    let mut i: usize = 0;
    while i < n
        invariant
            n == names@.len(),
            i <= n,
            bv == board.deep_view(),
            cv == classes.deep_view(),
            pv == pairs_as_ints(pairs@),
            nv == names.deep_view(),
            want == low_margins(bv, cv, pv, runs@, nv),
            runs@.len() == pairs@.len(),
            forall|j: int| 0 <= j < pairs@.len() ==> (#[trigger] pairs@[j]).1 < board.tracks@.len(),
            margins@ == want.take(i as int),
        decreases n - i,
    {
        assert(nv[i as int] == names@[i as int]@);
        assert(pv.len() == pairs@.len());
        let low = match find_low_margin(board, classes, pairs, runs, names[i].as_str()) {
            Some(m) => m,
            None => Real { bits: INFINITE },
        };
        margins.push(low);
        assert(margins@ =~= want.take(i + 1));
        i += 1;
    }
    assert(want.take(n as int) =~= want);
    let worst = list_all(&names, &margins);
    MetricResult::new(
        id,
        Amount::Measured(least_of(Real { bits: INFINITE }, &margins)),
        "x3w",
        Rule::Share(1000),
        20,
    ).with_worst(worst, false)
}

fn skip_coupling(spacing: MetricResult, note: &str) -> (r: Vec<MetricResult>)
    ensures
        r.deep_view() == no_coupling(spacing.deep_view(), note@),
{
    let ghost sv = spacing.deep_view();
    let mut m: Vec<MetricResult> = Vec::new();
    m.push(spacing);
    m.push(MetricResult::not_applicable("parallel_coupling", 20, note));
    m.push(MetricResult::not_applicable("broadside_coupling", 20, note));
    m.push(MetricResult::not_applicable("sensitive_net_isolation", 20, note));
    m.push(MetricResult::not_applicable("crosstalk_hotspot_count", 20, note));
    assert(m.deep_view() =~= no_coupling(sv, note@));
    m
}

impl CrosstalkPass {
    /// The name of the family.
    pub fn id(&self) -> (r: &'static str)
        ensures
            r@ == "crosstalk"@,
    {
        "crosstalk"
    }

    /// The results of the family.
    pub fn run(&self, ctx: &ScoreContext, reals: &CrosstalkReals) -> (r: CategoryResult)
        requires
            crosstalk_fits(ctx.deep_view(), *reals),
        ensures
            r.deep_view() == crosstalk_results(ctx.deep_view(), *reals),
    {
        let ghost cv = ctx.deep_view();
        let board = &ctx.board;
        assert(cv.board.tracks.len() == board.tracks@.len());
        let spacing = judge_spacing(reals);
        let metrics = match &ctx.net_classes {
            Some(classes) => {
                let strong = find_nets(board, classes, Trait::Aggressor);
                let weak = find_nets(board, classes, Trait::Victim);
                assert(as_ints(strong@).len() == strong@.len());
                assert(as_ints(weak@).len() == weak@.len());
                if strong.len() > 0 && weak.len() > 0 {
                    let pairs = find_coupled_pairs(board, classes, &reals.cells, &reals.around);
                    assert(pairs_as_ints(pairs@).len() == pairs@.len());
                    let names = find_victims(board, classes, &pairs, &reals.runs, false);
                    assert(names.deep_view().len() == names@.len());
                    let worst = list_all(&names, &reals.exposures);
                    let mut m: Vec<MetricResult> = Vec::new();
                    m.push(spacing);
                    m.push(
                        MetricResult::new(
                            "parallel_coupling",
                            Amount::Measured(greatest_of(Real::zero(), &reals.exposures)),
                            "mm_per_mm2",
                            Rule::Decay(100000),
                            40,
                        ).with_worst(worst, true),
                    );
                    m.push(judge_broadside(board, reals));
                    m.push(judge_isolation(board, classes, &pairs, &reals.runs));
                    m.push(
                        MetricResult::new(
                            "crosstalk_hotspot_count",
                            Amount::Count(count_hotspots(&reals.runs) as u128),
                            "count",
                            Rule::Decay(3000),
                            20,
                        ),
                    );
                    m
                } else {
                    skip_coupling(
                        spacing,
                        "no aggressor/victim pairs declared (`signal` classes)",
                    )
                }
            },
            None => skip_coupling(
                spacing,
                "netlist unavailable: declarative net classification required",
            ),
        };
        assert(metrics.deep_view() =~= crosstalk_metrics(cv, *reals));
        CategoryResult::new("crosstalk", "Crosstalk", ctx.weights.crosstalk, metrics)
    }
}

} // verus!
