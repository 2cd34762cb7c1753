//! What the metrics on fast nets, noise and coupling count, and when they apply.
use vstd::prelude::*;

use crate::number::{below, no_number, place, Real};
use crate::score::board::{BoardModelV, FootprintV, ViaV};
use crate::score::metrics::context::{
    name_is, net_is, role_is, stats_at, Classes, ScoreContext, ScoreContextV, Trait,
};
use crate::score::metrics::count_laws::{count, some_count, total};
use crate::score::metrics::crosstalk::{judged_pairs, CrosstalkPass, CrosstalkReals};
use crate::score::metrics::crosstalk_select::{
    beside, coupled_pairs, hotspots, near_track, victims_of, Run,
};
use crate::score::metrics::emi::{emi_fits, tied, EmiPass, EmiReals};
use crate::score::metrics::emi_select::{
    covered_after, gap_begins, gap_total, gaps_from, is_near_edge,
};
use crate::score::metrics::power_laws::{
    are_stats_of, found_stats, has_pad_on, is_listed, pads_found,
};
use crate::score::metrics::si::{corners_at, si_metrics, stitched, SiPass, SiReals};
use crate::score::metrics::si_select::{diff_pairs, listed_is, net_place, pairs_of, peer_of};
use crate::score::model::{Amount, CategoryResult, Rule};
use crate::score::net_stats::NetStatsV;
use crate::score::roles::Role;
use crate::score::spatial::{indexed_layers, neighbours_are_exact, share_cell};
use crate::select::places;
use crate::sorted_map::map_find;

verus! {

/// The numbers below `n`.
pub open spec fn upto(n: nat) -> Seq<int> {
    Seq::new(n, |i: int| i)
}

proof fn stitches_counted(distances: Seq<Real>)
    ensures
        stitched(distances) == count(
            distances,
            |d: Real| !no_number(d) && place(d) <= 0x3ff0_0000_0000_0000,
        ),
    decreases distances.len(),
{
    if distances.len() > 0 {
        stitches_counted(distances.drop_last());
    }
}

/// The corners of the net, by its statistics.
pub open spec fn corners_of(c: ScoreContextV, i: int) -> nat {
    if exists|s: NetStatsV| are_stats_of(c.net_stats, c.board.nets[i].0, s) {
        (choose|s: NetStatsV| are_stats_of(c.net_stats, c.board.nets[i].0, s)).right_angle_corners as nat
    } else {
        0
    }
}

proof fn corners_counted(c: ScoreContextV, at: Seq<int>)
    ensures
        corners_at(c.board, c.net_stats, at) == total(at, |i: int| corners_of(c, i)),
    decreases at.len(),
{
    if at.len() > 0 {
        corners_counted(c, at.drop_last());
        let net = c.board.nets[at.last()].0;
        let found = stats_at(c.net_stats, net);
        assert forall|s: NetStatsV| #[trigger] are_stats_of(c.net_stats, net, s) <==> found == Some(
            s,
        ) by {
            found_stats(c.net_stats, net, s);
        }
        if let Some(s) = found {
            assert(are_stats_of(c.net_stats, net, s));
        }
    }
}

/// Net `i` is the positive side of a fast pair, and net `p` is the first of the name of its peer.
pub open spec fn is_pair_of(c: ScoreContextV, i: int, p: int) -> bool {
    let info = map_find(c.net_classes->0, c.board.nets[i].1);
    &&& is_listed(c, i, Trait::HighSpeed)
    &&& info is Some
    &&& info->0.diff_pair_role == Some("p"@)
    &&& info->0.diff_pair_peer is Some
    &&& 0 <= p < c.board.nets.len()
    &&& c.board.nets[p].1 == info->0.diff_pair_peer->0
    &&& forall|j: int| 0 <= j < p ==> (#[trigger] c.board.nets[j]).1 != info->0.diff_pair_peer->0
}

proof fn first_named(nets: Seq<(i64, Seq<char>)>, name: Seq<char>, p: int)
    ensures
        net_place(nets, name) == Some(p) <==> 0 <= p < nets.len() && nets[p].1 == name && forall|j: int|
            0 <= j < p ==> (#[trigger] nets[j]).1 != name,
    decreases nets.len(),
{
    if nets.len() > 0 {
        let rest = nets.drop_first();
        if nets[0].1 == name {
            if 0 < p < nets.len() && nets[p].1 == name && forall|j: int|
                0 <= j < p ==> (#[trigger] nets[j]).1 != name {
                assert(nets[0].1 != name);
            }
        } else {
            first_named(rest, name, p - 1);
            if net_place(nets, name) == Some(p) {
                assert(nets[p] == rest[p - 1]);
                assert forall|j: int| 0 <= j < p implies (#[trigger] nets[j]).1 != name by {
                    if j > 0 {
                        assert(rest[j - 1] == nets[j]);
                    }
                }
            }
            if 0 <= p < nets.len() && nets[p].1 == name && forall|j: int|
                0 <= j < p ==> (#[trigger] nets[j]).1 != name {
                assert(p != 0);
                assert(rest[p - 1] == nets[p]);
                assert forall|j: int| 0 <= j < p - 1 implies (#[trigger] rest[j]).1 != name by {
                    assert(nets[j + 1] == rest[j]);
                }
            }
        }
    }
}

proof fn pairs_found(c: ScoreContextV, n: int, pair: (int, int))
    requires
        0 <= n <= c.board.nets.len(),
    ensures
        pairs_of(c.board, c.net_classes->0, n).contains(pair) <==> pair.0 < n && is_pair_of(
            c,
            pair.0,
            pair.1,
        ),
    decreases n,
{
    let b = c.board;
    let classes = c.net_classes->0;
    if n > 0 {
        pairs_found(c, n - 1, pair);
        let f = pairs_of(b, classes, n - 1);
        let r = pairs_of(b, classes, n);
        let name = b.nets[n - 1].1;
        if let Some(i) = map_find(classes, name) {
            if let Some(peer) = i.diff_pair_peer {
                first_named(b.nets, peer, pair.1);
            }
        }
        if f.contains(pair) {
            let k = choose|k: int| 0 <= k < f.len() && f[k] == pair;
            assert(r[k] == pair);
        }
        if r.contains(pair) {
            let k = choose|k: int| 0 <= k < r.len() && r[k] == pair;
            if k < f.len() {
                assert(f[k] == pair);
            } else {
                assert(pair.0 == n - 1);
                assert(peer_of(b, classes, n - 1) == Some(pair.1));
            }
        }
        if pair.0 == n - 1 && is_pair_of(c, pair.0, pair.1) {
            assert(peer_of(b, classes, n - 1) == Some(pair.1));
            assert(r[r.len() - 1] == pair);
        }
    }
}

/// The metrics on signal integrity: pairs are judged where a fast net is the positive side of a pair
/// and its peer is on the board; of the vias on fast nets, those count that have a ground via within
/// a millimetre; right-angled corners count on fast nets.
pub proof fn si_counts(pass: SiPass, ctx: ScoreContext, reals: SiReals, r: CategoryResult)
    requires
        SiPass::run.ensures((&pass, &ctx, &reals), r),
        ctx.net_classes is Some,
    ensures
        ({
            let m = r.metrics.deep_view();
            let c = ctx.deep_view();
            let fast = places(
                c.board.nets,
                |x: (i64, Seq<char>)| name_is(c.net_classes->0, x.1, Trait::HighSpeed),
            );
            let vias = count(
                c.board.vias,
                |v: ViaV|
                    map_find(c.board.nets, v.net) is Some && name_is(
                        c.net_classes->0,
                        map_find(c.board.nets, v.net)->0,
                        Trait::HighSpeed,
                    ),
            );
            &&& m[1].applicable <==> exists|i: int, p: int| #[trigger] is_pair_of(c, i, p)
            &&& m[3].applicable <==> m[1].applicable
            &&& m[2].applicable <==> m[1].applicable && reals.gap_ratio is Some
            &&& m[4].applicable <==> fast.len() > 0
            &&& m[5].applicable ==> fast.len() > 0 && c.board.copper_layers.len() > 2
                && reals.thickness_known
            &&& m[6].applicable ==> fast.len() > 0
            &&& m[7].applicable <==> vias > 0
            &&& m[7].applicable ==> m[7].raw == Some(
                Amount::Ratio(
                    count(
                        reals.stitch_distances@,
                        |d: Real| !no_number(d) && place(d) <= 0x3ff0_0000_0000_0000,
                    ) as u128,
                    vias as u128,
                ),
            )
            &&& m[9].applicable <==> fast.len() > 0
            &&& m[9].applicable ==> m[9].raw == Some(
                Amount::Count(total(fast, |i: int| corners_of(c, i)) as u128),
            )
        }),
{
    let c = ctx.deep_view();
    let b = c.board;
    let classes = c.net_classes->0;
    let pairs = diff_pairs(b, classes);
    stitches_counted(reals.stitch_distances@);
    let fast = places(b.nets, |x: (i64, Seq<char>)| name_is(classes, x.1, Trait::HighSpeed));
    corners_counted(c, fast);
    let v1 = |v: ViaV| listed_is(b, classes, v.net, Trait::HighSpeed);
    let v2 = |v: ViaV|
        map_find(c.board.nets, v.net) is Some && name_is(
            c.net_classes->0,
            map_find(c.board.nets, v.net)->0,
            Trait::HighSpeed,
        );
    assert(v1 =~= v2);
    if pairs.len() > 0 {
        pairs_found(c, b.nets.len() as int, pairs[0]);
        assert(pairs.contains(pairs[0]));
        assert(is_pair_of(c, pairs[0].0, pairs[0].1));
    }
    if exists|i: int, p: int| #[trigger] is_pair_of(c, i, p) {
        let (i, p) = choose|i: int, p: int| #[trigger] is_pair_of(c, i, p);
        pairs_found(c, b.nets.len() as int, (i, p));
        assert(pairs.contains((i, p)));
    }
    assert(r.metrics.deep_view() == si_metrics(c, classes, reals));
}

/// A stretch without cover begins at `k`: the sample before is covered, this one is not, and a later
/// one is.
pub open spec fn is_gap(covered: Seq<bool>, k: int) -> bool {
    &&& 1 <= k < covered.len()
    &&& covered[k - 1]
    &&& !covered[k]
    &&& exists|j: int| k < j < covered.len() && #[trigger] covered[j]
}

proof fn gaps_add(covered: Seq<bool>, k: int)
    requires
        0 <= k <= covered.len(),
    ensures
        gaps_from(covered, k) + count(upto(k as nat), |i: int| is_gap(covered, i)) == count(
            upto(covered.len()),
            |i: int| is_gap(covered, i),
        ),
    decreases covered.len() - k,
{
    if k < covered.len() {
        gaps_add(covered, k + 1);
        assert(upto((k + 1) as nat).drop_last() =~= upto(k as nat));
        assert(upto((k + 1) as nat).last() == k);
        if gap_begins(covered, k) {
            let j = choose|j: int| k < j < covered.len() && #[trigger] covered[j];
            assert(is_gap(covered, k));
        }
        if is_gap(covered, k) {
            let j = choose|j: int| k < j < covered.len() && #[trigger] covered[j];
            assert(covered_after(covered, k));
        }
    }
}

proof fn gaps_counted(covered: Seq<Seq<bool>>, n: int)
    requires
        0 <= n <= covered.len(),
    ensures
        gap_total(covered, n) == total(
            covered.take(n),
            |row: Seq<bool>| count(upto(row.len()), |i: int| is_gap(row, i)),
        ),
    decreases n,
{
    if n > 0 {
        gaps_counted(covered, n - 1);
        assert(covered.take(n).drop_last() =~= covered.take(n - 1));
        let row = covered[n - 1];
        gaps_add(row, 0);
        assert(upto(0) =~= Seq::empty());
    }
}

proof fn ties_counted(c: ScoreContextV, at: Seq<int>, vias: Seq<u64>)
    requires
        at.len() >= vias.len(),
    ensures
        tied(c.board, c.net_classes->0, at, vias) == count(
            upto(vias.len()),
            |i: int| has_pad_on(c, at[i], Trait::Ground) && vias[i] >= 2,
        ),
    decreases vias.len(),
{
    if vias.len() > 0 {
        ties_counted(c, at, vias.drop_last());
        let n = vias.len();
        assert(upto(n).drop_last() =~= upto((n - 1) as nat));
        assert(upto(n).last() == n - 1);
        pads_found(c, at[n - 1], Trait::Ground);
        let f = |i: int| has_pad_on(c, at[i], Trait::Ground) && vias[i] >= 2;
        let g = |i: int| has_pad_on(c, at[i], Trait::Ground) && vias.drop_last()[i] >= 2;
        counts_agree(upto((n - 1) as nat), f, g);
    }
}

proof fn counts_agree<A>(items: Seq<A>, f: spec_fn(A) -> bool, g: spec_fn(A) -> bool)
    requires
        forall|i: int| 0 <= i < items.len() ==> f(#[trigger] items[i]) == g(items[i]),
    ensures
        count(items, f) == count(items, g),
    decreases items.len(),
{
    if items.len() > 0 {
        assert(items[items.len() - 1] == items.last());
        assert forall|i: int| 0 <= i < items.drop_last().len() implies f(
            #[trigger] items.drop_last()[i],
        ) == g(items.drop_last()[i]) by {
            assert(items.drop_last()[i] == items[i]);
        }
        counts_agree(items.drop_last(), f, g);
        assert(f(items.last()) == g(items.last()));
    }
}

/// The metrics on radiated noise: stretches of fast tracks without a plane below them that lie
/// between covered ones; connectors with a ground pad and at least two ground vias near it; and a
/// fence of ground vias along the edge, which takes two of them within a millimetre and a half.
pub proof fn emi_counts(pass: EmiPass, ctx: ScoreContext, reals: EmiReals, r: CategoryResult)
    requires
        EmiPass::run.ensures((&pass, &ctx, &reals), r),
        emi_fits(ctx.deep_view(), reals),
        ctx.net_classes is Some,
    ensures
        ({
            let m = r.metrics.deep_view();
            let c = ctx.deep_view();
            let fast = exists|i: int| #[trigger] is_listed(c, i, Trait::HighSpeed);
            let near = count(
                reals.via_edge_distances@,
                |d: Real| !no_number(d) && place(d) <= 0x3ff8_0000_0000_0000,
            );
            &&& m[0].applicable ==> fast
            &&& m[1].applicable <==> c.board.outline.len() > 0 && c.board.tracks.len() > 0
            &&& m[2].applicable ==> (m[2].normalized->0.rule == Rule::Fixed(0) <==> near < 2)
            &&& m[4].applicable ==> fast
            &&& m[4].applicable ==> m[4].raw == Some(
                Amount::Count(
                    total(
                        reals.covered.deep_view(),
                        |row: Seq<bool>| count(upto(row.len()), |i: int| is_gap(row, i)),
                    ) as u128,
                ),
            )
            &&& m[5].applicable ==> fast && c.board.copper_layers.len() > 2
            &&& c.roles is Some ==> ({
                let at = places(
                    c.board.footprints,
                    |x: FootprintV| map_find(c.roles->0, x.reference) == Some(Role::Connector),
                );
                &&& m[6].applicable <==> at.len() > 0
                &&& m[6].applicable ==> m[6].raw == Some(
                    Amount::Ratio(
                        count(
                            upto(at.len()),
                            |i: int|
                                has_pad_on(c, at[i], Trait::Ground) && reals.connector_vias@[i]
                                    >= 2,
                        ) as u128,
                        at.len() as u128,
                    ),
                )
            })
        }),
{
    let c = ctx.deep_view();
    let b = c.board;
    let classes = c.net_classes->0;
    let h = |x: (i64, Seq<char>)| name_is(classes, x.1, Trait::HighSpeed);
    some_count(b.nets, h);
    if places(b.nets, h).len() > 0 {
        let i = choose|i: int| 0 <= i < b.nets.len() && h(#[trigger] b.nets[i]);
        assert(is_listed(c, i, Trait::HighSpeed));
    }
    let d1 = |d: Real| is_near_edge(d);
    let d2 = |d: Real| !no_number(d) && place(d) <= 0x3ff8_0000_0000_0000;
    assert(d1 =~= d2);
    let covered = reals.covered.deep_view();
    gaps_counted(covered, covered.len() as int);
    assert(covered.take(covered.len() as int) =~= covered);
    if c.roles is Some {
        let k1 = |x: FootprintV|
            role_is(c.roles->0, x.reference, Role::Connector);
        let k2 = |x: FootprintV| map_find(c.roles->0, x.reference) == Some(Role::Connector);
        assert(k1 =~= k2);
        let at = places(b.footprints, k1);
        ties_counted(c, at, reals.connector_vias@);
    }
}

proof fn hotspots_counted(runs: Seq<Option<Run>>)
    ensures
        hotspots(runs) == count(
            runs,
            |x: Option<Run>|
                x is Some && !below(x->0.reach, x->0.separation) && below(
                    Real { bits: 0x4064_0000_0000_0000 },
                    x->0.exposure,
                ),
        ),
    decreases runs.len(),
{
    if runs.len() > 0 {
        hotspots_counted(runs.drop_last());
    }
}

proof fn victims_found(b: BoardModelV, classes: Classes, i: int, near: Seq<int>, pair: (int, int))
    ensures
        victims_of(b, classes, i, near).contains(pair) <==> pair.0 == i && near.contains(pair.1)
            && b.tracks[pair.1].net != b.tracks[i].net && net_is(
            b,
            classes,
            b.tracks[pair.1].net,
            Trait::Victim,
        ),
    decreases near.len(),
{
    if near.len() > 0 {
        let front = near.drop_last();
        victims_found(b, classes, i, front, pair);
        let f = victims_of(b, classes, i, front);
        let r = victims_of(b, classes, i, near);
        let end = near.len() - 1;
        assert(near[end] == near.last());
        if f.contains(pair) {
            let k = choose|k: int| 0 <= k < f.len() && f[k] == pair;
            assert(r[k] == pair);
            let x = choose|x: int| 0 <= x < front.len() && front[x] == pair.1;
            assert(near[x] == pair.1);
        }
        if r.contains(pair) {
            let k = choose|k: int| 0 <= k < r.len() && r[k] == pair;
            if k < f.len() {
                assert(f[k] == pair);
            }
        }
        if pair.0 == i && near.contains(pair.1) {
            let x = choose|x: int| 0 <= x < near.len() && near[x] == pair.1;
            if x < end {
                assert(front[x] == pair.1);
            } else if r.len() > f.len() {
                assert(r[r.len() - 1] == pair);
            }
        }
    }
}

proof fn coupled_found(
    b: BoardModelV,
    classes: Classes,
    reals: CrosstalkReals,
    n: int,
    pair: (int, int),
)
    ensures
        coupled_pairs(b, classes, reals.cells@, reals.around@, n).contains(pair) <==> {
            &&& 0 <= pair.0 < n
            &&& 0 <= pair.1 < reals.cells@.len()
            &&& net_is(b, classes, b.tracks[pair.0].net, Trait::Aggressor)
            &&& net_is(b, classes, b.tracks[pair.1].net, Trait::Victim)
            &&& b.tracks[pair.1].net != b.tracks[pair.0].net
            &&& beside(b, reals.cells@, reals.around@, pair.0, pair.1)
        },
    decreases n,
{
    let cells = reals.cells@;
    let around = reals.around@;
    if n > 0 {
        coupled_found(b, classes, reals, n - 1, pair);
        let near = near_track(b, cells, around, n - 1);
        victims_found(b, classes, n - 1, near, pair);
        neighbours_are_exact(
            indexed_layers(b),
            cells,
            n - 1,
            b.tracks[n - 1].layer,
            around[n - 1],
            cells.len() as int,
        );
        assert(near.contains(pair.1) <==> 0 <= pair.1 < cells.len() && beside(
            b,
            cells,
            around,
            n - 1,
            pair.1,
        ));
        let f = coupled_pairs(b, classes, cells, around, n - 1);
        let v = victims_of(b, classes, n - 1, near);
        let r = coupled_pairs(b, classes, cells, around, n);
        if f.contains(pair) {
            let k = choose|k: int| 0 <= k < f.len() && f[k] == pair;
            assert(r[k] == pair);
        }
        if net_is(b, classes, b.tracks[n - 1].net, Trait::Aggressor) {
            assert(r == f + v);
            if v.contains(pair) {
                let k = choose|k: int| 0 <= k < v.len() && v[k] == pair;
                assert(r[f.len() + k] == pair);
            }
            if r.contains(pair) {
                let k = choose|k: int| 0 <= k < r.len() && r[k] == pair;
                if k < f.len() {
                    assert(f[k] == pair);
                } else {
                    assert(v[k - f.len()] == pair);
                }
            }
        }
    }
}

/// Coupling is judged where some net injects noise and some net suffers from it, between tracks of
/// different nets: one that injects, and beside it one that suffers. A run beside each other is hot
/// where it is within reach and its exposure is above 160.
pub proof fn crosstalk_counts(
    pass: CrosstalkPass,
    ctx: ScoreContext,
    reals: CrosstalkReals,
    r: CategoryResult,
    pair: (int, int),
)
    requires
        CrosstalkPass::run.ensures((&pass, &ctx, &reals), r),
        reals.cells@.len() == ctx.deep_view().board.tracks.len(),
        ctx.net_classes is Some,
    ensures
        ({
            let m = r.metrics.deep_view();
            let c = ctx.deep_view();
            let b = c.board;
            let classes = c.net_classes->0;
            let open = (exists|i: int| #[trigger] is_listed(c, i, Trait::Aggressor)) && (exists|
                i: int,
            | #[trigger] is_listed(c, i, Trait::Victim));
            &&& m[0].applicable
            &&& m[1].applicable <==> open
            &&& m[4].applicable <==> open
            &&& m[4].applicable ==> m[4].raw == Some(
                Amount::Count(
                    count(
                        reals.runs@,
                        |x: Option<Run>|
                            x is Some && !below(x->0.reach, x->0.separation) && below(
                                Real { bits: 0x4064_0000_0000_0000 },
                                x->0.exposure,
                            ),
                    ) as u128,
                ),
            )
            &&& judged_pairs(b, classes, reals).contains(pair) <==> {
                &&& 0 <= pair.0 < b.tracks.len()
                &&& 0 <= pair.1 < b.tracks.len()
                &&& net_is(b, classes, b.tracks[pair.0].net, Trait::Aggressor)
                &&& net_is(b, classes, b.tracks[pair.1].net, Trait::Victim)
                &&& b.tracks[pair.0].net != b.tracks[pair.1].net
                &&& b.tracks[pair.0].layer == b.tracks[pair.1].layer
                &&& b.copper_layers.contains(b.tracks[pair.0].layer)
                &&& share_cell(reals.cells@[pair.1], reals.around@[pair.0])
            }
        }),
{
    let c = ctx.deep_view();
    let b = c.board;
    let classes = c.net_classes->0;
    let a = |x: (i64, Seq<char>)| name_is(classes, x.1, Trait::Aggressor);
    let v = |x: (i64, Seq<char>)| name_is(classes, x.1, Trait::Victim);
    some_count(b.nets, a);
    some_count(b.nets, v);
    if places(b.nets, a).len() > 0 {
        let i = choose|i: int| 0 <= i < b.nets.len() && a(#[trigger] b.nets[i]);
        assert(is_listed(c, i, Trait::Aggressor));
    }
    if places(b.nets, v).len() > 0 {
        let i = choose|i: int| 0 <= i < b.nets.len() && v(#[trigger] b.nets[i]);
        assert(is_listed(c, i, Trait::Victim));
    }
    if exists|i: int| #[trigger] is_listed(c, i, Trait::Aggressor) {
        let i = choose|i: int| #[trigger] is_listed(c, i, Trait::Aggressor);
        assert(a(b.nets[i]));
    }
    if exists|i: int| #[trigger] is_listed(c, i, Trait::Victim) {
        let i = choose|i: int| #[trigger] is_listed(c, i, Trait::Victim);
        assert(v(b.nets[i]));
    }
    hotspots_counted(reals.runs@);
    coupled_found(b, classes, reals, reals.cells@.len() as int, pair);
}

} // verus!
