//! Metrics of routing conventions: angles, widths, grid, copper without a net.
use vstd::prelude::*;

use crate::number::{below, Real};
use crate::score::board::{name_of_net, BoardModel, BoardModelV};
use crate::score::metrics::context::{ScoreContext, ScoreContextV};
use crate::score::metrics::si::ONE;
use crate::score::model::{
    scored, skipped, with_offenders, Amount, CategoryResult, CategoryResultV, Extent, MetricResult,
    MetricResultV, Rule, WorstEntry, WorstEntryV,
};
use crate::score::net_stats::{NetStats, NetStatsV, TINY};
use crate::steps::distinct;
use crate::text::is_empty_text;

verus! {

/// The family of metrics of routing conventions.
pub struct AestheticsPass;

/// What is measured for the family.
pub struct AestheticsReals {
    /// The routed length.
    pub length: Real,
    /// The share of that length at multiples of 45 degrees.
    pub disciplined: Real,
    /// For each track its width in micrometres.
    pub widths: Vec<u64>,
    /// For each track, whether the coordinates of its ends are on the grid.
    pub on_grid: Vec<(bool, bool, bool, bool)>,
}

/// The widths of those of the first `n` tracks that are on the net.
pub open spec fn net_widths(b: BoardModelV, widths: Seq<u64>, net: i64, n: int) -> Seq<u64>
    decreases n,
{
    if n <= 0 {
        Seq::empty()
    } else {
        let front = net_widths(b, widths, net, n - 1);
        if b.tracks[n - 1].net == net {
            front.push(widths[n - 1])
        } else {
            front
        }
    }
}

/// How many different widths a net has.
pub open spec fn width_count(b: BoardModelV, widths: Seq<u64>, net: i64) -> nat {
    distinct(net_widths(b, widths, net, widths.len() as int)).len()
}

/// How many nets have tracks.
pub open spec fn nets_with_widths(b: BoardModelV, widths: Seq<u64>, stats: Seq<NetStatsV>) -> nat
    decreases stats.len(),
{
    if stats.len() == 0 {
        0
    } else {
        nets_with_widths(b, widths, stats.drop_last()) + if width_count(
            b,
            widths,
            stats.last().net,
        ) > 0 {
            1nat
        } else {
            0nat
        }
    }
}

/// How many nets have one or two widths.
pub open spec fn even_nets(b: BoardModelV, widths: Seq<u64>, stats: Seq<NetStatsV>) -> nat
    decreases stats.len(),
{
    if stats.len() == 0 {
        0
    } else {
        let own = width_count(b, widths, stats.last().net);
        even_nets(b, widths, stats.drop_last()) + if 0 < own <= 2 {
            1nat
        } else {
            0nat
        }
    }
}

/// Entries for the nets with more than two widths.
pub open spec fn uneven_nets(b: BoardModelV, widths: Seq<u64>, stats: Seq<NetStatsV>) -> Seq<
    WorstEntryV,
>
    decreases stats.len(),
{
    if stats.len() == 0 {
        Seq::empty()
    } else {
        let front = uneven_nets(b, widths, stats.drop_last());
        let own = width_count(b, widths, stats.last().net);
        if own > 2 {
            front.push(WorstEntryV { label: stats.last().name, value: Extent::Count(own as u64) })
        } else {
            front
        }
    }
}

/// How many nets keep to at most two widths.
pub open spec fn consistency_metric(b: BoardModelV, widths: Seq<u64>, stats: Seq<NetStatsV>) -> MetricResultV {
    if nets_with_widths(b, widths, stats) == 0 {
        skipped("width_consistency"@, 10, "no routed nets"@)
    } else {
        with_offenders(
            scored(
                "width_consistency"@,
                Amount::Ratio(
                    even_nets(b, widths, stats) as u128,
                    nets_with_widths(b, widths, stats) as u128,
                ),
                "ratio"@,
                Rule::Share(1000),
                10,
            ),
            uneven_nets(b, widths, stats),
            true,
        )
    }
}

/// How many of the four are set.
pub open spec fn set_of_four(f: (bool, bool, bool, bool)) -> nat {
    (if f.0 {
        1nat
    } else {
        0nat
    }) + (if f.1 {
        1nat
    } else {
        0nat
    }) + (if f.2 {
        1nat
    } else {
        0nat
    }) + (if f.3 {
        1nat
    } else {
        0nat
    })
}

/// How many coordinates are on the grid.
pub open spec fn grid_count(on_grid: Seq<(bool, bool, bool, bool)>) -> nat
    decreases on_grid.len(),
{
    if on_grid.len() == 0 {
        0
    } else {
        grid_count(on_grid.drop_last()) + set_of_four(on_grid.last())
    }
}

/// A net without a name, or number zero.
pub open spec fn is_orphan(b: BoardModelV, net: i64) -> bool {
    net == 0 || name_of_net(b.nets, net).len() == 0
}

/// The tracks among the first `n` that are on no named net.
pub open spec fn orphan_tracks(b: BoardModelV, n: int) -> nat
    decreases n,
{
    if n <= 0 {
        0
    } else {
        orphan_tracks(b, n - 1) + if is_orphan(b, b.tracks[n - 1].net) {
            1nat
        } else {
            0nat
        }
    }
}

/// The vias among the first `n` that are on no named net.
pub open spec fn orphan_vias(b: BoardModelV, n: int) -> nat
    decreases n,
{
    if n <= 0 {
        0
    } else {
        orphan_vias(b, n - 1) + if is_orphan(b, b.vias[n - 1].net) {
            1nat
        } else {
            0nat
        }
    }
}

/// The metrics of the family.
pub open spec fn aesthetics_metrics(c: ScoreContextV, m: AestheticsReals) -> Seq<MetricResultV> {
    let b = c.board;
    let note = "no routed tracks"@;
    if b.tracks.len() == 0 {
        seq![
            skipped("angle_discipline"@, 10, note),
            skipped("width_consistency"@, 10, note),
            skipped("grid_adherence"@, 10, note),
            skipped("orphan_copper"@, 10, note),
        ]
    } else {
        seq![
            scored(
                "angle_discipline"@,
                Amount::Measured(
                    if below(Real { bits: TINY }, m.length) {
                        m.disciplined
                    } else {
                        Real { bits: ONE }
                    },
                ),
                "ratio"@,
                Rule::Share(1000),
                20,
            ),
            consistency_metric(b, m.widths@, c.net_stats),
            scored(
                "grid_adherence"@,
                Amount::Ratio(grid_count(m.on_grid@) as u128, (4 * m.on_grid@.len()) as u128),
                "ratio"@,
                Rule::Share(1000),
                5,
            ),
            scored(
                "orphan_copper"@,
                Amount::Count(
                    (orphan_tracks(b, b.tracks.len() as int) + orphan_vias(
                        b,
                        b.vias.len() as int,
                    )) as u128,
                ),
                "count"@,
                Rule::Decay(2000),
                10,
            ),
        ]
    }
}

/// The results of the family.
pub open spec fn aesthetics_results(c: ScoreContextV, m: AestheticsReals) -> CategoryResultV {
    CategoryResultV {
        id: "aesthetics"@,
        label: "Aesthetics"@,
        weight: c.weights.aesthetics,
        metrics: aesthetics_metrics(c, m),
    }
}

/// There is one measurement for each track.
pub open spec fn aesthetics_fits(c: ScoreContextV, m: AestheticsReals) -> bool {
    m.widths@.len() == c.board.tracks.len() && m.on_grid@.len() == c.board.tracks.len()
}

fn holds_width(list: &Vec<u64>, w: u64) -> (r: bool)
    ensures
        r == list@.contains(w),
{
    let n: usize = list.len();
    let mut i: usize = 0;
    while i < n
        invariant
            n == list@.len(),
            i <= n,
            forall|j: int| 0 <= j < i ==> list@[j] != w,
        decreases n - i,
    {
        if list[i] == w {
            assert(list@[i as int] == w);
            return true;
        }
        i += 1;
    }
    false
}

fn count_widths(board: &BoardModel, widths: &Vec<u64>, net: i64) -> (r: usize)
    requires
        widths@.len() == board.tracks@.len(),
    ensures
        r == width_count(board.deep_view(), widths@, net),
{
    let ghost bv = board.deep_view();
    let n: usize = widths.len();
    let mut out: Vec<u64> = Vec::new();
    let mut i: usize = 0;
    assert(out@ =~= distinct(net_widths(bv, widths@, net, 0)));
    while i < n
        invariant
            n == widths@.len(),
            n == board.tracks@.len(),
            i <= n,
            bv == board.deep_view(),
            out@ == distinct(net_widths(bv, widths@, net, i as int)),
        decreases n - i,
    {
        let ghost base = net_widths(bv, widths@, net, i as int);
        assert(bv.tracks[i as int] == board.tracks@[i as int].deep_view());
        if board.tracks[i].net == net {
            let w: u64 = widths[i];
            assert(base.push(w).drop_last() =~= base);
            if !holds_width(&out, w) {
                out.push(w);
            }
        }
        i += 1;
    }
    out.len()
}

fn judge_consistency(board: &BoardModel, stats: &Vec<NetStats>, m: &AestheticsReals) -> (r:
    MetricResult)
    requires
        m.widths@.len() == board.tracks@.len(),
    ensures
        r.deep_view() == consistency_metric(board.deep_view(), m.widths@, stats.deep_view()),
{
    let id = "width_consistency";
    let ghost bv = board.deep_view();
    let ghost wv = m.widths@;
    let ghost sv = stats.deep_view();
    let n: usize = stats.len();
    let mut counted: usize = 0;
    let mut even: usize = 0;
    let mut worst: Vec<WorstEntry> = Vec::new();
    let mut i: usize = 0;
    assert(worst.deep_view() =~= uneven_nets(bv, wv, sv.take(0)));
    while i < n
        invariant
            n == stats@.len(),
            i <= n,
            m.widths@.len() == board.tracks@.len(),
            bv == board.deep_view(),
            wv == m.widths@,
            sv == stats.deep_view(),
            counted == nets_with_widths(bv, wv, sv.take(i as int)),
            even == even_nets(bv, wv, sv.take(i as int)),
            counted <= i,
            even <= i,
            worst.deep_view() == uneven_nets(bv, wv, sv.take(i as int)),
        decreases n - i,
    {
        let ghost before = worst.deep_view();
        assert(sv.take(i + 1).drop_last() =~= sv.take(i as int));
        assert(sv[i as int] == stats@[i as int].deep_view());
        let own: usize = count_widths(board, &m.widths, stats[i].net);
        if own > 0 {
            counted += 1;
            if own <= 2 {
                even += 1;
            } else {
                let value = Extent::Count(own as u64);
                worst.push(WorstEntry { label: stats[i].name.clone(), value });
                assert(worst.deep_view() =~= before.push(
                    WorstEntryV { label: sv[i as int].name, value },
                ));
            }
        }
        i += 1;
    }
    assert(sv.take(n as int) =~= sv);
    if counted == 0 {
        MetricResult::not_applicable(id, 10, "no routed nets")
    } else {
        MetricResult::new(
            id,
            Amount::Ratio(even as u128, counted as u128),
            "ratio",
            Rule::Share(1000),
            10,
        ).with_worst(worst, true)
    }
}

fn count_grid(on_grid: &Vec<(bool, bool, bool, bool)>) -> (r: u128)
    ensures
        r == grid_count(on_grid@),
{
    let n: usize = on_grid.len();
    let mut count: u128 = 0;
    let mut i: usize = 0;
    while i < n
        invariant
            n == on_grid@.len(),
            i <= n,
            count == grid_count(on_grid@.take(i as int)),
            count <= 4 * i,
        decreases n - i,
    {
        assert(on_grid@.take(i + 1).drop_last() =~= on_grid@.take(i as int));
        let f = on_grid[i];
        if f.0 {
            count = count + 1;
        }
        if f.1 {
            count = count + 1;
        }
        if f.2 {
            count = count + 1;
        }
        if f.3 {
            count = count + 1;
        }
        i += 1;
    }
    assert(on_grid@.take(n as int) =~= on_grid@);
    count
}

fn check_orphan(board: &BoardModel, net: i64) -> (r: bool)
    ensures
        r == is_orphan(board.deep_view(), net),
{
    let name = board.net_name(net);
    net == 0 || is_empty_text(name.as_str())
}

/// How many tracks and vias are on no named net.
pub fn count_orphans(board: &BoardModel) -> (r: u128)
    ensures
        r == orphan_tracks(board.deep_view(), board.tracks@.len() as int) + orphan_vias(
            board.deep_view(),
            board.vias@.len() as int,
        ),
{
    let ghost bv = board.deep_view();
    let n: usize = board.tracks.len();
    let mut tracks: usize = 0;
    let mut i: usize = 0;
    while i < n
        invariant
            n == board.tracks@.len(),
            i <= n,
            bv == board.deep_view(),
            tracks == orphan_tracks(bv, i as int),
            tracks <= i,
        decreases n - i,
    {
        assert(bv.tracks[i as int] == board.tracks@[i as int].deep_view());
        if check_orphan(board, board.tracks[i].net) {
            tracks += 1;
        }
        i += 1;
    }
    let k: usize = board.vias.len();
    let mut vias: usize = 0;
    let mut j: usize = 0;
    while j < k
        invariant
            k == board.vias@.len(),
            j <= k,
            bv == board.deep_view(),
            vias == orphan_vias(bv, j as int),
            vias <= j,
        decreases k - j,
    {
        assert(bv.vias[j as int] == board.vias@[j as int].deep_view());
        if check_orphan(board, board.vias[j].net) {
            vias += 1;
        }
        j += 1;
    }
    tracks as u128 + vias as u128
}

impl AestheticsPass {
    /// The name of the family.
    pub fn id(&self) -> (r: &'static str)
        ensures
            r@ == "aesthetics"@,
    {
        "aesthetics"
    }

    /// The results of the family.
    pub fn run(&self, ctx: &ScoreContext, reals: &AestheticsReals) -> (r: CategoryResult)
        requires
            aesthetics_fits(ctx.deep_view(), *reals),
        ensures
            r.deep_view() == aesthetics_results(ctx.deep_view(), *reals),
    {
        let ghost cv = ctx.deep_view();
        let board = &ctx.board;
        assert(cv.board.tracks.len() == board.tracks@.len());
        assert(cv.board.vias.len() == board.vias@.len());
        let mut m: Vec<MetricResult> = Vec::new();
        if board.tracks.len() == 0 {
            let note = "no routed tracks";
            m.push(MetricResult::not_applicable("angle_discipline", 10, note));
            m.push(MetricResult::not_applicable("width_consistency", 10, note));
            m.push(MetricResult::not_applicable("grid_adherence", 10, note));
            m.push(MetricResult::not_applicable("orphan_copper", 10, note));
        } else {
            let tiny = Real { bits: TINY };
            let ratio: Real = if tiny.less(&reals.length) {
                reals.disciplined
            } else {
                Real { bits: ONE }
            };
            m.push(
                MetricResult::new(
                    "angle_discipline",
                    Amount::Measured(ratio),
                    "ratio",
                    Rule::Share(1000),
                    20,
                ),
            );
            m.push(judge_consistency(board, &ctx.net_stats, reals));
            let on: u128 = count_grid(&reals.on_grid);
            let all: u128 = 4 * reals.on_grid.len() as u128;
            m.push(
                MetricResult::new(
                    "grid_adherence",
                    Amount::Ratio(on, all),
                    "ratio",
                    Rule::Share(1000),
                    5,
                ),
            );
            m.push(
                MetricResult::new(
                    "orphan_copper",
                    Amount::Count(count_orphans(board)),
                    "count",
                    Rule::Decay(2000),
                    10,
                ),
            );
        }
        assert(m.deep_view() =~= aesthetics_metrics(cv, *reals));
        CategoryResult::new("aesthetics", "Aesthetics", ctx.weights.aesthetics, m)
    }
}

} // verus!
