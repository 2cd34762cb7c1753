//! Which offenders are listed, and which pads airwires join.
use vstd::prelude::*;

use crate::number::{below, Real};
use crate::order::{permutation_is_onto, ranking, ranking_is_stable};
use crate::score::airwires::{net_pads, pads_in, pads_of, wires_of_net};
use crate::score::board::{BoardModelV, PadV};
use crate::score::metrics::context::offenders;
use crate::score::metrics::entries::{entries_above, entries_below};
use crate::score::metrics::esd_select::PadAt;
use crate::score::metrics::tally::{entries_where, field_of, Field};
use crate::score::model::{
    badness, listed, no_better, the_worst_are_listed, with_offenders, worst_first, Extent,
    MetricResultV, WorstEntryV,
};
use crate::score::net_stats::NetStatsV;
use crate::score::shortest_tree::the_tree_joins_all;
use crate::score::spanning::{all_points_are_joined, spanning_tree};

verus! {

/// A metric lists at most five offenders, as many as there are up to that, each one of them, and no
/// one that is left out is worse than one that is listed.
pub proof fn five_worst_are_listed(
    m: MetricResultV,
    entries: Seq<WorstEntryV>,
    higher_is_worse: bool,
)
    ensures
        ({
            let r = with_offenders(m, entries, higher_is_worse);
            &&& r.worst.len() == if entries.len() < 5 {
                entries.len() as int
            } else {
                5
            }
            &&& forall|i: int| 0 <= i < r.worst.len() ==> entries.contains(#[trigger] r.worst[i])
            &&& forall|i: int, j: int|
                0 <= i < j < r.worst.len() ==> no_better(
                    (#[trigger] r.worst[i]).value,
                    (#[trigger] r.worst[j]).value,
                    higher_is_worse,
                )
            &&& r == (MetricResultV { worst: r.worst, ..m })
        }),
        forall|x: WorstEntryV|
            entries.contains(x) && !with_offenders(m, entries, higher_is_worse).worst.contains(x)
                ==> forall|i: int|
                0 <= i < with_offenders(m, entries, higher_is_worse).worst.len() ==> no_better(
                    (#[trigger] with_offenders(m, entries, higher_is_worse).worst[i]).value,
                    x.value,
                    higher_is_worse,
                ),
{
    let all = worst_first(entries, higher_is_worse);
    let ranks = badness(entries, higher_is_worse);
    ranking_is_stable::<(i128, String)>(ranks);
    let p = ranking::<(i128, String)>(ranks);
    let r = with_offenders(m, entries, higher_is_worse);
    assert(all.len() == entries.len());
    assert forall|i: int| 0 <= i < r.worst.len() implies entries.contains(#[trigger] r.worst[i]) by {
        assert(r.worst[i] == all[i]);
        assert(all[i] == entries[p[i]]);
    }
    assert forall|i: int, j: int| 0 <= i < j < r.worst.len() implies no_better(
        (#[trigger] r.worst[i]).value,
        (#[trigger] r.worst[j]).value,
        higher_is_worse,
    ) by {
        the_worst_are_listed(entries, higher_is_worse, i, j);
    }
    assert forall|x: WorstEntryV|
        entries.contains(x) && !r.worst.contains(x) implies forall|i: int|
        0 <= i < r.worst.len() ==> no_better(
            (#[trigger] r.worst[i]).value,
            x.value,
            higher_is_worse,
        ) by {
        let k = choose|k: int| 0 <= k < entries.len() && entries[k] == x;
        permutation_is_onto(p, entries.len(), k);
        let at = choose|at: int| 0 <= at < p.len() && p[at] == k;
        assert(all[at] == x);
        if at < r.worst.len() {
            assert(r.worst[at] == x);
        }
        assert forall|i: int| 0 <= i < r.worst.len() implies no_better(
            (#[trigger] r.worst[i]).value,
            x.value,
            higher_is_worse,
        ) by {
            the_worst_are_listed(entries, higher_is_worse, i, at);
        }
    }
}

/// The offenders below a limit are those whose value is below it; those above it, those above.
pub proof fn limits_make_offenders(
    labels: Seq<Seq<char>>,
    values: Seq<Real>,
    limit: u64,
    x: WorstEntryV,
)
    ensures
        entries_below(labels, values, limit).contains(x) <==> exists|i: int|
            0 <= i < values.len() && below(#[trigger] values[i], Real { bits: limit }) && x == (
            WorstEntryV { label: labels[i], value: Extent::Measured(values[i]) }),
        entries_above(labels, values, limit).contains(x) <==> exists|i: int|
            0 <= i < values.len() && below(Real { bits: limit }, #[trigger] values[i]) && x == (
            WorstEntryV { label: labels[i], value: Extent::Measured(values[i]) }),
    decreases values.len(),
{
    if values.len() > 0 {
        let front = values.drop_last();
        limits_make_offenders(labels, front, limit, x);
        let end = values.len() - 1;
        assert(values[end] == values.last());
        let own = WorstEntryV { label: labels[end], value: Extent::Measured(values[end]) };
        let a = entries_below(labels, front, limit);
        let b = entries_below(labels, values, limit);
        let c = entries_above(labels, front, limit);
        let d = entries_above(labels, values, limit);
        if a.contains(x) {
            let k = choose|k: int| 0 <= k < a.len() && a[k] == x;
            assert(b[k] == x);
            let i = choose|i: int|
                0 <= i < front.len() && below(#[trigger] front[i], Real { bits: limit }) && x == (
                WorstEntryV { label: labels[i], value: Extent::Measured(front[i]) });
            assert(values[i] == front[i]);
        }
        if c.contains(x) {
            let k = choose|k: int| 0 <= k < c.len() && c[k] == x;
            assert(d[k] == x);
            let i = choose|i: int|
                0 <= i < front.len() && below(Real { bits: limit }, #[trigger] front[i]) && x == (
                WorstEntryV { label: labels[i], value: Extent::Measured(front[i]) });
            assert(values[i] == front[i]);
        }
        if b.contains(x) {
            let k = choose|k: int| 0 <= k < b.len() && b[k] == x;
            if k < a.len() {
                assert(a[k] == x);
            } else {
                assert(x == own);
                assert(below(values[end], Real { bits: limit }));
            }
        }
        if d.contains(x) {
            let k = choose|k: int| 0 <= k < d.len() && d[k] == x;
            if k < c.len() {
                assert(c[k] == x);
            } else {
                assert(x == own);
                assert(below(Real { bits: limit }, values[end]));
            }
        }
        if exists|i: int|
            0 <= i < values.len() && below(#[trigger] values[i], Real { bits: limit }) && x == (
            WorstEntryV { label: labels[i], value: Extent::Measured(values[i]) }) {
            let i = choose|i: int|
                0 <= i < values.len() && below(#[trigger] values[i], Real { bits: limit }) && x == (
                WorstEntryV { label: labels[i], value: Extent::Measured(values[i]) });
            if i < end {
                assert(front[i] == values[i]);
            } else {
                assert(b[b.len() - 1] == x);
            }
        }
        if exists|i: int|
            0 <= i < values.len() && below(Real { bits: limit }, #[trigger] values[i]) && x == (
            WorstEntryV { label: labels[i], value: Extent::Measured(values[i]) }) {
            let i = choose|i: int|
                0 <= i < values.len() && below(Real { bits: limit }, #[trigger] values[i]) && x == (
                WorstEntryV { label: labels[i], value: Extent::Measured(values[i]) });
            if i < end {
                assert(front[i] == values[i]);
            } else {
                assert(d[d.len() - 1] == x);
            }
        }
    }
}

/// The nets listed for a count are those that pass and have any, each with its own.
pub proof fn counts_make_offenders(
    stats: Seq<NetStatsV>,
    test: spec_fn(NetStatsV) -> bool,
    f: Field,
    x: WorstEntryV,
)
    ensures
        entries_where(stats, test, f).contains(x) <==> exists|i: int|
            0 <= i < stats.len() && test(#[trigger] stats[i]) && field_of(stats[i], f) > 0 && x == (
            WorstEntryV {
                label: stats[i].name,
                value: Extent::Count(field_of(stats[i], f) as u64),
            }),
    decreases stats.len(),
{
    if stats.len() > 0 {
        let front = stats.drop_last();
        counts_make_offenders(front, test, f, x);
        let end = stats.len() - 1;
        assert(stats[end] == stats.last());
        let a = entries_where(front, test, f);
        let b = entries_where(stats, test, f);
        if a.contains(x) {
            let k = choose|k: int| 0 <= k < a.len() && a[k] == x;
            assert(b[k] == x);
            let i = choose|i: int|
                0 <= i < front.len() && test(#[trigger] front[i]) && field_of(front[i], f) > 0 && x
                    == (WorstEntryV {
                    label: front[i].name,
                    value: Extent::Count(field_of(front[i], f) as u64),
                });
            assert(stats[i] == front[i]);
        }
        if b.contains(x) {
            let k = choose|k: int| 0 <= k < b.len() && b[k] == x;
            if k < a.len() {
                assert(a[k] == x);
            } else {
                assert(test(stats[end]));
            }
        }
        if exists|i: int|
            0 <= i < stats.len() && test(#[trigger] stats[i]) && field_of(stats[i], f) > 0 && x == (
            WorstEntryV {
                label: stats[i].name,
                value: Extent::Count(field_of(stats[i], f) as u64),
            }) {
            let i = choose|i: int|
                0 <= i < stats.len() && test(#[trigger] stats[i]) && field_of(stats[i], f) > 0 && x
                    == (WorstEntryV {
                    label: stats[i].name,
                    value: Extent::Count(field_of(stats[i], f) as u64),
                });
            if i < end {
                assert(front[i] == stats[i]);
            } else {
                assert(b[b.len() - 1] == x);
            }
        }
    }
}

/// The pad at the place is on the board and on the net.
pub open spec fn is_pad_of(b: BoardModelV, net: i64, p: PadAt) -> bool {
    &&& p.footprint < b.footprints.len()
    &&& p.pad < b.footprints[p.footprint as int].pads.len()
    &&& b.footprints[p.footprint as int].pads[p.pad as int].net == Some(net)
}

proof fn pads_in_footprint(pads: Seq<PadV>, f: int, net: i64, k: int, p: PadAt)
    requires
        0 <= k <= pads.len() <= usize::MAX,
        0 <= f <= usize::MAX,
    ensures
        pads_in(pads, f, Some(net), k).contains(p) <==> p.footprint == f && p.pad < k
            && pads[p.pad as int].net == Some(net),
    decreases k,
{
    if k > 0 {
        pads_in_footprint(pads, f, net, k - 1, p);
        let a = pads_in(pads, f, Some(net), k - 1);
        let b = pads_in(pads, f, Some(net), k);
        if a.contains(p) {
            let i = choose|i: int| 0 <= i < a.len() && a[i] == p;
            assert(b[i] == p);
        }
        if b.contains(p) {
            let i = choose|i: int| 0 <= i < b.len() && b[i] == p;
            if i < a.len() {
                assert(a[i] == p);
            }
        }
        if p.footprint == f && p.pad == k - 1 && pads[k - 1].net == Some(net) {
            assert(b[b.len() - 1] == p);
        }
    }
}

proof fn pads_on_net(b: BoardModelV, net: i64, n: int, p: PadAt)
    requires
        0 <= n <= b.footprints.len() <= usize::MAX,
        forall|f: int|
            0 <= f < b.footprints.len() ==> (#[trigger] b.footprints[f]).pads.len() <= usize::MAX,
    ensures
        pads_of(b, Some(net), n).contains(p) <==> p.footprint < n && is_pad_of(b, net, p),
    decreases n,
{
    if n > 0 {
        pads_on_net(b, net, n - 1, p);
        let pads = b.footprints[n - 1].pads;
        pads_in_footprint(pads, n - 1, net, pads.len() as int, p);
        let a = pads_of(b, Some(net), n - 1);
        let c = pads_in(pads, n - 1, Some(net), pads.len() as int);
        let r = pads_of(b, Some(net), n);
        if a.contains(p) {
            let i = choose|i: int| 0 <= i < a.len() && a[i] == p;
            assert(r[i] == p);
        }
        if c.contains(p) {
            let i = choose|i: int| 0 <= i < c.len() && c[i] == p;
            assert(r[a.len() + i] == p);
        }
        if r.contains(p) {
            let i = choose|i: int| 0 <= i < r.len() && r[i] == p;
            if i < a.len() {
                assert(a[i] == p);
            } else {
                assert(c[i - a.len()] == p);
            }
        }
    }
}

/// The airwires of a net join its pads: one fewer than it has pads, each between two pads of the net,
/// and none where it has fewer than two.
pub proof fn airwires_join_the_pads_of_their_net(
    b: BoardModelV,
    net: i64,
    d: Seq<Seq<Real>>,
    k: int,
)
    requires
        d.len() == net_pads(b, Some(net)).len(),
        b.footprints.len() <= usize::MAX,
        forall|f: int|
            0 <= f < b.footprints.len() ==> (#[trigger] b.footprints[f]).pads.len() <= usize::MAX,
    ensures
        wires_of_net(b, net, d).len() == if d.len() < 2 {
            0int
        } else {
            d.len() - 1
        },
        0 <= k < wires_of_net(b, net, d).len() ==> {
            let w = wires_of_net(b, net, d)[k];
            w.net == net && is_pad_of(b, net, w.from) && is_pad_of(b, net, w.to)
        },
{
    let pads = net_pads(b, Some(net));
    if d.len() >= 2 {
        all_points_are_joined(d, 0);
        the_tree_joins_all(d);
        if 0 <= k < wires_of_net(b, net, d).len() {
            let e = spanning_tree(d)[k];
            assert(0 <= e.0 < d.len() && 0 <= e.1 < d.len());
            assert(pads.contains(pads[e.0]));
            assert(pads.contains(pads[e.1]));
            pads_on_net(b, net, b.footprints.len() as int, pads[e.0]);
            pads_on_net(b, net, b.footprints.len() as int, pads[e.1]);
        }
    }
}

} // verus!
