//! When single metrics apply, what heat, matched lengths and coupling across layers count.
use vstd::prelude::*;

use crate::number::{below, Real};
use crate::score::board::{BoardModelV, FootprintV, ViaV, ZoneV};
use crate::score::copper_laws::{lies_between, spans_between};
use crate::score::metrics::context::{
    name_is, net_is, nets_that, role_is, zones_that, Classes, ScoreContext, ScoreContextV, Trait,
};
use crate::score::metrics::count_laws::{count, some_count, total};
use crate::score::metrics::crosstalk::{CrosstalkPass, CrosstalkReals};
use crate::score::metrics::crosstalk_select::{
    broadside_pairs, disturbs, every_broadside_pair_counts_once, layer_place, stacked,
};
use crate::score::metrics::emi::{EmiPass, EmiReals};
use crate::score::metrics::esd_select::{pad_at, PadAt};
use crate::score::metrics::placement::{PlacementPass, PlacementReals};
use crate::score::metrics::power::wanted_vias;
use crate::score::metrics::power_laws::is_listed;
use crate::score::metrics::si::{si_metrics, SiPass, SiReals};
use crate::score::metrics::si_select::{
    any_group, group_of, groups_of, is_group, is_measurable, listed_is, measurable, routed_members,
    routed_of,
};
use crate::score::metrics::speed_laws::upto;
use crate::score::metrics::thermal::{
    exposed_pads, filled, filled_total, spreading, spreading_total, spreads, ThermalPass,
    ThermalReals,
};
use crate::score::model::{Amount, CategoryResult};
use crate::score::net_graph::spans;
use crate::score::roles::Role;
use crate::score::stackup::planes_of;
use crate::select::{places, places_are_exact};
use crate::sorted_map::{keys_rise, map_find, map_put_is_found, map_put_keeps_order, Keyed};

verus! {

/// The via is inside the pad and on its net.
pub open spec fn cools(b: BoardModelV, p: PadAt, inside: Seq<bool>, k: int) -> bool {
    inside[k] && pad_at(b, p).net == Some(b.vias[k].net)
}

/// The via reaches one of the planes.
pub open spec fn reaches_plane(b: BoardModelV, planes: Seq<Seq<char>>, k: int) -> bool {
    exists|p: int|
        0 <= p < planes.len() && (b.vias[k].layers.contains(#[trigger] planes[p]) || (
        b.vias[k].layers.len() > 0 && lies_between(
            b.copper_layers,
            b.vias[k].layers[0],
            planes[p],
            b.vias[k].layers.last(),
        )))
}

proof fn planes_reached(b: BoardModelV, planes: Seq<Seq<char>>, k: int)
    requires
        b.copper_layers.no_duplicates(),
    ensures
        spreads(b, planes, k) <==> reaches_plane(b, planes, k),
{
    assert forall|p: int| 0 <= p < planes.len() implies spans(
        b.vias[k].layers,
        #[trigger] planes[p],
        b.copper_layers,
    ) == (b.vias[k].layers.contains(planes[p]) || (b.vias[k].layers.len() > 0 && lies_between(
        b.copper_layers,
        b.vias[k].layers[0],
        planes[p],
        b.vias[k].layers.last(),
    ))) by {
        spans_between(b.vias[k].layers, planes[p], b.copper_layers);
    }
    if spreads(b, planes, k) {
        let p = choose|p: int|
            0 <= p < planes.len() && spans(
                b.vias[k].layers,
                #[trigger] planes[p],
                b.copper_layers,
            );
        assert(b.vias[k].layers.contains(planes[p]) || (b.vias[k].layers.len() > 0 && lies_between(
            b.copper_layers,
            b.vias[k].layers[0],
            planes[p],
            b.vias[k].layers.last(),
        )));
    }
    if reaches_plane(b, planes, k) {
        let p = choose|p: int|
            0 <= p < planes.len() && (b.vias[k].layers.contains(#[trigger] planes[p]) || (
            b.vias[k].layers.len() > 0 && lies_between(
                b.copper_layers,
                b.vias[k].layers[0],
                planes[p],
                b.vias[k].layers.last(),
            )));
        assert(spans(b.vias[k].layers, planes[p], b.copper_layers));
    }
}

proof fn cooling_counted(
    b: BoardModelV,
    planes: Seq<Seq<char>>,
    p: PadAt,
    inside: Seq<bool>,
    n: int,
)
    requires
        0 <= n,
        b.copper_layers.no_duplicates(),
    ensures
        filled(b, p, inside, n) == count(upto(n as nat), |k: int| cools(b, p, inside, k)),
        spreading(b, planes, p, inside, n) == count(
            upto(n as nat),
            |k: int| cools(b, p, inside, k) && reaches_plane(b, planes, k),
        ),
    decreases n,
{
    if n > 0 {
        cooling_counted(b, planes, p, inside, n - 1);
        assert(upto(n as nat).drop_last() =~= upto((n - 1) as nat));
        assert(upto(n as nat).last() == n - 1);
        planes_reached(b, planes, n - 1);
    }
}

proof fn cooling_totals(
    b: BoardModelV,
    planes: Seq<Seq<char>>,
    pads: Seq<PadAt>,
    inside: Seq<Seq<bool>>,
    n: int,
)
    requires
        0 <= n,
        b.copper_layers.no_duplicates(),
    ensures
        filled_total(b, pads, inside, n) == total(
            upto(n as nat),
            |x: int| count(upto(b.vias.len()), |k: int| cools(b, pads[x], inside[x], k)),
        ),
        spreading_total(b, planes, pads, inside, n) == total(
            upto(n as nat),
            |x: int|
                count(
                    upto(b.vias.len()),
                    |k: int| cools(b, pads[x], inside[x], k) && reaches_plane(b, planes, k),
                ),
        ),
    decreases n,
{
    if n > 0 {
        cooling_totals(b, planes, pads, inside, n - 1);
        assert(upto(n as nat).drop_last() =~= upto((n - 1) as nat));
        assert(upto(n as nat).last() == n - 1);
        cooling_counted(b, planes, pads[n - 1], inside[n - 1], b.vias.len() as int);
    }
}

/// Of the vias inside exposed pads, on the net of the pad, those count that reach a reference plane.
pub proof fn heat_spreads_into_planes(
    pass: ThermalPass,
    ctx: ScoreContext,
    reals: ThermalReals,
    r: CategoryResult,
)
    requires
        ThermalPass::run.ensures((&pass, &ctx, &reals), r),
        ctx.deep_view().board.copper_layers.no_duplicates(),
    ensures
        ({
            let m = r.metrics.deep_view();
            let b = ctx.deep_view().board;
            let planes = planes_of(b, ctx.deep_view().net_classes);
            let pads = exposed_pads(b, reals.areas@);
            let inside = reals.inside.deep_view();
            let all = total(
                upto(pads.len()),
                |x: int| count(upto(b.vias.len()), |k: int| cools(b, pads[x], inside[x], k)),
            );
            &&& m[1].applicable <==> pads.len() > 0 && b.copper_layers.len() > 2 && planes.len() > 0
            &&& m[1].applicable && all > 0 ==> m[1].raw == Some(
                Amount::Ratio(
                    total(
                        upto(pads.len()),
                        |x: int|
                            count(
                                upto(b.vias.len()),
                                |k: int|
                                    cools(b, pads[x], inside[x], k) && reaches_plane(b, planes, k),
                            ),
                    ) as u128,
                    all as u128,
                ),
            )
            &&& m[1].applicable && all == 0 ==> m[1].raw == Some(Amount::Count(0))
        }),
{
    let b = ctx.deep_view().board;
    let planes = planes_of(b, ctx.deep_view().net_classes);
    let pads = exposed_pads(b, reals.areas@);
    cooling_totals(b, planes, pads, reals.inside.deep_view(), pads.len() as int);
}

/// The layers are next to each other in the order of the copper layers.
pub open spec fn are_next(copper: Seq<Seq<char>>, a: Seq<char>, c: Seq<char>) -> bool {
    exists|i: int|
        0 <= i < copper.len() - 1 && ((#[trigger] copper[i] == a && copper[i + 1] == c) || (copper[i]
            == c && copper[i + 1] == a))
}

proof fn last_place(list: Seq<Seq<char>>, s: Seq<char>)
    ensures
        match layer_place(list, s) {
            Some(k) => 0 <= k < list.len() && list[k] == s,
            None => !list.contains(s),
        },
    decreases list.len(),
{
    if list.len() > 0 && list.last() != s {
        let front = list.drop_last();
        last_place(front, s);
        if layer_place(front, s) is None && list.contains(s) {
            let i = choose|i: int| 0 <= i < list.len() && list[i] == s;
            assert(front[i] == s);
        }
    }
}

proof fn stacked_are_next(copper: Seq<Seq<char>>, a: Seq<char>, c: Seq<char>)
    requires
        copper.no_duplicates(),
    ensures
        stacked(copper, a, c) <==> are_next(copper, a, c),
{
    last_place(copper, a);
    last_place(copper, c);
    if stacked(copper, a, c) {
        let i = layer_place(copper, a)->0;
        let j = layer_place(copper, c)->0;
        if i == j + 1 {
            assert(copper[j] == c && copper[j + 1] == a);
        } else {
            assert(copper[i] == a && copper[i + 1] == c);
        }
    }
    if are_next(copper, a, c) {
        let i = choose|i: int|
            0 <= i < copper.len() - 1 && ((#[trigger] copper[i] == a && copper[i + 1] == c) || (
            copper[i] == c && copper[i + 1] == a));
        assert(copper.contains(copper[i]) && copper.contains(copper[i + 1]));
    }
}

/// Track `i` disturbs track `j` across layers: another net, one that injects noise and one that
/// suffers from it, on neighbouring copper layers, and neither of these a plane.
pub open spec fn disturbs_across(
    b: BoardModelV,
    classes: Classes,
    planes: Seq<Seq<char>>,
    i: int,
    j: int,
) -> bool {
    &&& b.tracks[i].net != b.tracks[j].net
    &&& net_is(b, classes, b.tracks[i].net, Trait::Aggressor)
    &&& net_is(b, classes, b.tracks[j].net, Trait::Victim)
    &&& are_next(b.copper_layers, b.tracks[i].layer, b.tracks[j].layer)
    &&& !planes.contains(b.tracks[i].layer)
    &&& !planes.contains(b.tracks[j].layer)
}

/// Two tracks couple across layers where one disturbs the other, and count once.
pub proof fn tracks_couple_across_layers_once(
    b: BoardModelV,
    classes: Classes,
    planes: Seq<Seq<char>>,
    i: int,
    j: int,
)
    requires
        0 <= i < b.tracks.len(),
        0 <= j < b.tracks.len(),
        b.copper_layers.no_duplicates(),
    ensures
        ({
            let pairs = broadside_pairs(b, classes, planes, b.tracks.len() as int);
            &&& (pairs.contains((i, j)) || pairs.contains((j, i))) <==> (disturbs_across(
                b,
                classes,
                planes,
                i,
                j,
            ) || disturbs_across(b, classes, planes, j, i))
            &&& !(pairs.contains((i, j)) && pairs.contains((j, i)))
        }),
{
    every_broadside_pair_counts_once(b, classes, planes, i, j);
    stacked_are_next(b.copper_layers, b.tracks[i].layer, b.tracks[j].layer);
    stacked_are_next(b.copper_layers, b.tracks[j].layer, b.tracks[i].layer);
}

/// The net declares the group.
pub open spec fn is_in_group(classes: Classes, x: (i64, Seq<char>), g: Seq<char>) -> bool {
    map_find(classes, x.1) is Some && map_find(classes, x.1)->0.matched_group == Some(g)
}

proof fn groups_hold_members(b: BoardModelV, classes: Classes, n: int, g: Seq<char>)
    requires
        0 <= n <= b.nets.len() <= usize::MAX,
    ensures
        ({
            let found = map_find(groups_of(b, classes, n), g);
            let at = places(b.nets.take(n), |x: (i64, Seq<char>)| is_in_group(classes, x, g));
            match found {
                Some(members) => {
                    &&& members.len() == at.len()
                    &&& members.len() > 0
                    &&& forall|i: int| 0 <= i < at.len() ==> #[trigger] members[i] == at[i]
                },
                None => at.len() == 0,
            }
        }),
    decreases n,
{
    if n > 0 {
        groups_hold_members(b, classes, n - 1, g);
        let front = groups_of(b, classes, n - 1);
        assert(b.nets.take(n).drop_last() =~= b.nets.take(n - 1));
        assert(b.nets.take(n).last() == b.nets[n - 1]);
        if let Some(own) = group_of(classes, b.nets[n - 1].1) {
            let more = (match map_find(front, own) {
                Some(members) => members,
                None => Seq::empty(),
            }).push((n - 1) as usize);
            map_put_is_found::<String, Vec<usize>>(front, own, more, g);
        }
    }
}

/// A net of the group is routed.
pub open spec fn is_routed_in(c: ScoreContextV, x: (i64, Seq<char>), g: Seq<char>) -> bool {
    is_in_group(c.net_classes->0, x, g) && below(
        Real { bits: 0x3e11_2e0b_e826_d695 },
        routed_of(c.net_stats, x.0),
    )
}

/// How many nets of the group are routed.
pub open spec fn routed_in_group(c: ScoreContextV, g: Seq<char>) -> nat {
    count(c.board.nets, |x: (i64, Seq<char>)| is_routed_in(c, x, g))
}

proof fn routed_counted(c: ScoreContextV, members: Seq<usize>, n: int)
    requires
        0 <= n <= members.len(),
    ensures
        routed_members(c.board, c.net_stats, members, n) == count(
            members.take(n),
            |k: usize|
                below(
                    Real { bits: 0x3e11_2e0b_e826_d695 },
                    routed_of(c.net_stats, c.board.nets[k as int].0),
                ),
        ),
    decreases n,
{
    if n > 0 {
        routed_counted(c, members, n - 1);
        assert(members.take(n).drop_last() =~= members.take(n - 1));
    }
}

proof fn picked_counted(
    items: Seq<(i64, Seq<char>)>,
    f: spec_fn((i64, Seq<char>)) -> bool,
    h: spec_fn((i64, Seq<char>)) -> bool,
    members: Seq<usize>,
    test: spec_fn(usize) -> bool,
)
    requires
        members.len() == places(items, f).len(),
        forall|i: int| 0 <= i < members.len() ==> #[trigger] members[i] == places(items, f)[i],
        forall|k: usize| k < items.len() ==> #[trigger] test(k) == h(items[k as int]),
    ensures
        count(members, test) == count(items, |x: (i64, Seq<char>)| f(x) && h(x)),
    decreases items.len(),
{
    if items.len() > 0 {
        let front = items.drop_last();
        let all = places(items, f);
        let some = places(front, f);
        places_are_exact(items, f);
        if f(items.last()) {
            let rest = members.drop_last();
            assert forall|i: int| 0 <= i < rest.len() implies #[trigger] rest[i] == some[i] by {
                assert(members[i] == all[i]);
            }
            picked_counted(front, f, h, rest, test);
            assert(members[members.len() - 1] == all[all.len() - 1]);
            assert(members.last() == items.len() - 1);
            assert(test(members.last()) == h(items.last()));
        } else {
            picked_counted(front, f, h, members, test);
        }
    }
}

proof fn groups_rise(b: BoardModelV, classes: Classes, n: int)
    requires
        0 <= n <= b.nets.len(),
    ensures
        keys_rise::<String, Vec<usize>>(groups_of(b, classes, n)),
    decreases n,
{
    if n > 0 {
        groups_rise(b, classes, n - 1);
        let front = groups_of(b, classes, n - 1);
        if let Some(own) = group_of(classes, b.nets[n - 1].1) {
            let more = (match map_find(front, own) {
                Some(members) => members,
                None => Seq::empty(),
            }).push((n - 1) as usize);
            map_put_keeps_order::<String, Vec<usize>>(front, own, more);
        }
    }
}

proof fn two_keys_differ<K: Keyed, V: DeepView>(entries: Seq<(K::V, V::V)>, a: int, b: int)
    requires
        keys_rise::<K, V>(entries),
        0 <= a < b < entries.len(),
    ensures
        entries[a].0 != entries[b].0,
{
}

proof fn entry_is_found(entries: Seq<(Seq<char>, Seq<usize>)>, i: int)
    requires
        0 <= i < entries.len(),
        forall|a: int, b: int|
            0 <= a < b < entries.len() ==> (#[trigger] entries[a]).0 != (#[trigger] entries[b]).0,
    ensures
        map_find(entries, entries[i].0) == Some(entries[i].1),
    decreases entries.len(),
{
    if i > 0 {
        let rest = entries.drop_first();
        assert(entries[0].0 != entries[i].0);
        assert forall|a: int, b: int| 0 <= a < b < rest.len() implies (#[trigger] rest[a]).0 != (
        #[trigger] rest[b]).0 by {
            assert(entries[a + 1].0 != entries[b + 1].0);
        }
        entry_is_found(rest, i - 1);
        assert(rest[i - 1] == entries[i]);
    }
}

proof fn found_is_entry(entries: Seq<(Seq<char>, Seq<usize>)>, g: Seq<char>) -> (i: int)
    requires
        map_find(entries, g) is Some,
    ensures
        0 <= i < entries.len(),
        entries[i] == (g, map_find(entries, g)->0),
    decreases entries.len(),
{
    if entries[0].0 == g {
        0
    } else {
        let i = found_is_entry(entries.drop_first(), g);
        assert(entries[i + 1] == entries.drop_first()[i]);
        i + 1
    }
}

proof fn some_measurable(c: ScoreContextV, groups: Seq<(Seq<char>, Seq<usize>)>)
    ensures
        measurable(c.board, c.net_stats, groups).len() > 0 <==> exists|i: int|
            0 <= i < groups.len() && is_measurable(c.board, c.net_stats, #[trigger] groups[i]),
    decreases groups.len(),
{
    if groups.len() > 0 {
        let front = groups.drop_last();
        some_measurable(c, front);
        let end = groups.len() - 1;
        assert(groups[end] == groups.last());
        if exists|i: int|
            0 <= i < front.len() && is_measurable(c.board, c.net_stats, #[trigger] front[i]) {
            let i = choose|i: int|
                0 <= i < front.len() && is_measurable(c.board, c.net_stats, #[trigger] front[i]);
            assert(groups[i] == front[i]);
        }
        if exists|i: int|
            0 <= i < groups.len() && is_measurable(c.board, c.net_stats, #[trigger] groups[i]) {
            let i = choose|i: int|
                0 <= i < groups.len() && is_measurable(c.board, c.net_stats, #[trigger] groups[i]);
            if i < end {
                assert(front[i] == groups[i]);
            }
        }
    }
}

proof fn group_is_measurable(c: ScoreContextV, g: Seq<char>, m: Seq<usize>)
    requires
        c.board.nets.len() <= usize::MAX,
        map_find(groups_of(c.board, c.net_classes->0, c.board.nets.len() as int), g) == Some(m),
    ensures
        is_measurable(c.board, c.net_stats, (g, m)) <==> routed_in_group(c, g) >= 2,
{
    let b = c.board;
    let classes = c.net_classes->0;
    let n = b.nets.len() as int;
    groups_hold_members(b, classes, n, g);
    assert(b.nets.take(n) =~= b.nets);
    routed_counted(c, m, m.len() as int);
    assert(m.take(m.len() as int) =~= m);
    let f = |x: (i64, Seq<char>)| is_in_group(classes, x, g);
    let h = |x: (i64, Seq<char>)|
        below(Real { bits: 0x3e11_2e0b_e826_d695 }, routed_of(c.net_stats, x.0));
    let test = |k: usize|
        below(
            Real { bits: 0x3e11_2e0b_e826_d695 },
            routed_of(c.net_stats, c.board.nets[k as int].0),
        );
    picked_counted(b.nets, f, h, m, test);
    let both = |x: (i64, Seq<char>)| f(x) && h(x);
    let own = |x: (i64, Seq<char>)| is_routed_in(c, x, g);
    assert(both =~= own);
    places_are_exact(m, test);
}

/// Lengths are matched where two nets or more of one declared group are routed.
pub proof fn lengths_are_matched_in_groups(
    pass: SiPass,
    ctx: ScoreContext,
    reals: SiReals,
    r: CategoryResult,
)
    requires
        SiPass::run.ensures((&pass, &ctx, &reals), r),
        ctx.net_classes is Some,
    ensures
        r.metrics.deep_view()[8].applicable <==> exists|g: Seq<char>| #[trigger]
            routed_in_group(ctx.deep_view(), g) >= 2,
{
    let c = ctx.deep_view();
    let b = c.board;
    let classes = c.net_classes->0;
    let n = b.nets.len() as int;
    assert(b.nets.len() == ctx.board.nets.len());
    let groups = groups_of(b, classes, n);
    some_measurable(c, groups);
    groups_rise(b, classes, n);
    assert(r.metrics.deep_view() == si_metrics(c, classes, reals));
    if exists|i: int| 0 <= i < groups.len() && is_measurable(b, c.net_stats, #[trigger] groups[i]) {
        let i = choose|i: int|
            0 <= i < groups.len() && is_measurable(b, c.net_stats, #[trigger] groups[i]);
        assert forall|x: int, y: int| 0 <= x < y < groups.len() implies (#[trigger] groups[x]).0 != (
        #[trigger] groups[y]).0 by {
            two_keys_differ::<String, Vec<usize>>(groups, x, y);
        }
        entry_is_found(groups, i);
        group_is_measurable(c, groups[i].0, groups[i].1);
        let g = groups[i].0;
        assert(routed_in_group(c, g) >= 2);
        assert(is_group(groups[i]));
        assert(any_group(groups));
    }
    if exists|g: Seq<char>| #[trigger] routed_in_group(c, g) >= 2 {
        let g = choose|g: Seq<char>| #[trigger] routed_in_group(c, g) >= 2;
        let own = |x: (i64, Seq<char>)| is_routed_in(c, x, g);
        some_count(b.nets, own);
        let k = choose|k: int| 0 <= k < b.nets.len() && own(#[trigger] b.nets[k]);
        matched_groups_need_two_nets(b, classes, g);
        assert(is_in_group(classes, b.nets[k], g));
        let i = found_is_entry(groups, g);
        group_is_measurable(c, g, groups[i].1);
        assert(is_measurable(b, c.net_stats, groups[i]));
    }
}

/// Two nets that declare one group make it a group; one alone makes none.
pub proof fn matched_groups_need_two_nets(
    b: BoardModelV,
    classes: Classes,
    g: Seq<char>,
)
    requires
        b.nets.len() <= usize::MAX,
    ensures
        ({
            let groups = groups_of(b, classes, b.nets.len() as int);
            let members = count(b.nets, |x: (i64, Seq<char>)| is_in_group(classes, x, g));
            map_find(groups, g) matches Some(m) ==> (is_group((g, m)) <==> members >= 2)
        }),
        map_find(groups_of(b, classes, b.nets.len() as int), g) is Some <==> exists|i: int|
            0 <= i < b.nets.len() && is_in_group(classes, #[trigger] b.nets[i], g),
{
    groups_hold_members(b, classes, b.nets.len() as int, g);
    assert(b.nets.take(b.nets.len() as int) =~= b.nets);
    let f = |x: (i64, Seq<char>)| is_in_group(classes, x, g);
    some_count(b.nets, f);
    if count(b.nets, f) > 0 {
        let i = choose|i: int| 0 <= i < b.nets.len() && f(#[trigger] b.nets[i]);
        assert(is_in_group(classes, b.nets[i], g));
    }
    if exists|i: int| 0 <= i < b.nets.len() && is_in_group(classes, #[trigger] b.nets[i], g) {
        let i = choose|i: int| 0 <= i < b.nets.len() && is_in_group(classes, #[trigger] b.nets[i], g);
        assert(f(b.nets[i]));
    }
}

/// Some net is what the trait says.
pub open spec fn any_listed(c: ScoreContextV, t: Trait) -> bool {
    exists|i: int| #[trigger] is_listed(c, i, t)
}

/// A filled zone is on a net that is what the trait says.
pub open spec fn any_zone(c: ScoreContextV, t: Trait) -> bool {
    exists|z: int|
        0 <= z < c.board.zones.len() && (#[trigger] c.board.zones[z]).filled_polygons.len() > 0
            && net_is(c.board, c.net_classes->0, c.board.zones[z].net, t)
}

/// The stackup has copper.
pub open spec fn has_copper_depths(c: ScoreContextV) -> bool {
    exists|i: int| 0 <= i < c.board.stackup.len() && (#[trigger] c.board.stackup[i]).kind == "copper"@
}

proof fn listed_found(c: ScoreContextV, t: Trait)
    ensures
        nets_that(c.board, c.net_classes->0, t).len() > 0
            <==> any_listed(c, t),
{
    let f = |x: (i64, Seq<char>)| name_is(c.net_classes->0, x.1, t);
    some_count(c.board.nets, f);
    if places(c.board.nets, f).len() > 0 {
        let i = choose|i: int| 0 <= i < c.board.nets.len() && f(#[trigger] c.board.nets[i]);
        assert(is_listed(c, i, t));
    }
    if any_listed(c, t) {
        let i = choose|i: int| #[trigger] is_listed(c, i, t);
        assert(f(c.board.nets[i]));
    }
}

proof fn zones_found(c: ScoreContextV, t: Trait)
    ensures
        zones_that(c.board, c.net_classes->0, t).len() > 0
            <==> any_zone(c, t),
{
    let f = |x: ZoneV|
        net_is(c.board, c.net_classes->0, x.net, t) && x.filled_polygons.len() > 0;
    some_count(c.board.zones, f);
    if places(c.board.zones, f).len() > 0 {
        let z = choose|z: int| 0 <= z < c.board.zones.len() && f(#[trigger] c.board.zones[z]);
        assert(c.board.zones[z].filled_polygons.len() > 0);
    }
    if any_zone(c, t) {
        let z = choose|z: int|
            0 <= z < c.board.zones.len() && (#[trigger] c.board.zones[z]).filled_polygons.len() > 0
                && net_is(c.board, c.net_classes->0, c.board.zones[z].net, t);
        assert(f(c.board.zones[z]));
    }
}

/// When the metrics on radiated noise apply: loops where there are fast nets and known depths, slots
/// where there are fast nets and a filled plane, exposure where fast nets run on a board of more than
/// two layers.
pub proof fn emi_applies(pass: EmiPass, ctx: ScoreContext, reals: EmiReals, r: CategoryResult)
    requires
        EmiPass::run.ensures((&pass, &ctx, &reals), r),
        ctx.net_classes is Some,
    ensures
        ({
            let m = r.metrics.deep_view();
            let c = ctx.deep_view();
            let fast = any_listed(c, Trait::HighSpeed);
            &&& m[0].applicable <==> fast && has_copper_depths(c)
            &&& m[2].applicable <==> c.board.outline.len() > 0 && planes_of(
                c.board,
                c.net_classes,
            ).len() > 0
            &&& m[4].applicable <==> fast && any_zone(c, Trait::Reference)
            &&& m[5].applicable <==> fast && c.board.copper_layers.len() > 2 && below(
                Real { bits: 0x3e11_2e0b_e826_d695 },
                reals.fast_length,
            )
            &&& m[6].applicable ==> c.roles is Some
        }),
{
    let c = ctx.deep_view();
    listed_found(c, Trait::HighSpeed);
    zones_found(c, Trait::Reference);
}

/// When the metrics on signal integrity apply: impedance where a target is declared, the stackup
/// tells the permittivity, a plane is there and something was measured; continuity of the planes
/// where there are fast nets, a filled plane, and tracks to judge; stubs of vias where fast nets have
/// vias all the way through a board of more than two layers whose thickness is known.
pub proof fn si_applies(pass: SiPass, ctx: ScoreContext, reals: SiReals, r: CategoryResult)
    requires
        SiPass::run.ensures((&pass, &ctx, &reals), r),
        ctx.net_classes is Some,
    ensures
        ({
            let m = r.metrics.deep_view();
            let c = ctx.deep_view();
            let fast = any_listed(c, Trait::HighSpeed);
            &&& m[0].applicable ==> any_listed(c, Trait::ImpedanceTarget) && has_copper_depths(c)
                && planes_of(c.board, c.net_classes).len() > 0
            &&& m[0].applicable ==> exists|i: int|
                0 <= i < reals.target_errors@.len() && (#[trigger] reals.target_errors@[i]) is Some
            &&& m[4].applicable <==> fast
            &&& m[5].applicable <==> fast && c.board.copper_layers.len() > 2
                && reals.thickness_known && exists|k: int|
                0 <= k < c.board.vias.len() && (#[trigger] c.board.vias[k]).kind == "via"@
                    && map_find(c.board.nets, c.board.vias[k].net) is Some && name_is(
                    c.net_classes->0,
                    map_find(c.board.nets, c.board.vias[k].net)->0,
                    Trait::HighSpeed,
                )
            &&& m[6].applicable <==> fast && any_zone(c, Trait::Reference) && reals.coverage is Some
            &&& m[9].applicable <==> fast
        }),
{
    let c = ctx.deep_view();
    let b = c.board;
    let classes = c.net_classes->0;
    listed_found(c, Trait::HighSpeed);
    listed_found(c, Trait::ImpedanceTarget);
    zones_found(c, Trait::Reference);
    let f = |v: ViaV|
        v.kind == "via"@ && listed_is(
            b,
            classes,
            v.net,
            Trait::HighSpeed,
        );
    some_count(b.vias, f);
    if places(b.vias, f).len() > 0 {
        let k = choose|k: int| 0 <= k < b.vias.len() && f(#[trigger] b.vias[k]);
        assert(b.vias[k].kind == "via"@);
    }
    if exists|k: int|
        0 <= k < b.vias.len() && (#[trigger] b.vias[k]).kind == "via"@ && map_find(
            b.nets,
            b.vias[k].net,
        ) is Some && name_is(classes, map_find(b.nets, b.vias[k].net)->0, Trait::HighSpeed) {
        let k = choose|k: int|
            0 <= k < b.vias.len() && (#[trigger] b.vias[k]).kind == "via"@ && map_find(
                b.nets,
                b.vias[k].net,
            ) is Some && name_is(classes, map_find(b.nets, b.vias[k].net)->0, Trait::HighSpeed);
        assert(f(b.vias[k]));
    }
    assert(r.metrics.deep_view() == si_metrics(c, classes, reals));
}

/// Coupling across layers is judged where coupling is judged at all, the depths are known and the
/// board has two layers; isolation where some net is declared analog or radio.
pub proof fn crosstalk_applies(
    pass: CrosstalkPass,
    ctx: ScoreContext,
    reals: CrosstalkReals,
    r: CategoryResult,
)
    requires
        CrosstalkPass::run.ensures((&pass, &ctx, &reals), r),
        ctx.net_classes is Some,
    ensures
        ({
            let m = r.metrics.deep_view();
            let c = ctx.deep_view();
            let open = any_listed(c, Trait::Aggressor) && any_listed(c, Trait::Victim);
            &&& m[1].applicable <==> open
            &&& m[2].applicable <==> open && has_copper_depths(c) && c.board.copper_layers.len() >= 2
            &&& m[3].applicable ==> open
            &&& open && any_listed(c, Trait::Sensitive) ==> m[3].applicable
            &&& m[0].applicable
        }),
{
    let c = ctx.deep_view();
    listed_found(c, Trait::Aggressor);
    listed_found(c, Trait::Victim);
    listed_found(c, Trait::Sensitive);
}

/// How near connectors are to the edge is judged where an outline and a connector are there.
pub proof fn placement_applies(
    pass: PlacementPass,
    ctx: ScoreContext,
    reals: PlacementReals,
    r: CategoryResult,
)
    requires
        PlacementPass::run.ensures((&pass, &ctx, &reals), r),
    ensures
        ({
            let m = r.metrics.deep_view();
            let c = ctx.deep_view();
            &&& m[1].applicable <==> c.roles is Some && c.board.outline.len() > 0 && exists|f: int|
                0 <= f < c.board.footprints.len() && map_find(
                    c.roles->0,
                    (#[trigger] c.board.footprints[f]).reference,
                ) == Some(Role::Connector)
            &&& m[2].applicable ==> c.board.footprints.len() > 0
        }),
{
    let c = ctx.deep_view();
    if c.roles is Some {
        let f = |x: FootprintV|
            role_is(c.roles->0, x.reference, Role::Connector);
        some_count(c.board.footprints, f);
        if places(c.board.footprints, f).len() > 0 {
            let i = choose|i: int|
                0 <= i < c.board.footprints.len() && f(#[trigger] c.board.footprints[i]);
            assert(map_find(c.roles->0, c.board.footprints[i].reference) == Some(Role::Connector));
        }
        if exists|i: int|
            0 <= i < c.board.footprints.len() && map_find(
                c.roles->0,
                (#[trigger] c.board.footprints[i]).reference,
            ) == Some(Role::Connector) {
            let i = choose|i: int|
                0 <= i < c.board.footprints.len() && map_find(
                    c.roles->0,
                    (#[trigger] c.board.footprints[i]).reference,
                ) == Some(Role::Connector);
            assert(f(c.board.footprints[i]));
        }
    }
}

/// A power net wants as many vias as its declared current takes, and at least two.
pub proof fn power_wants_two_vias(classes: Classes, name: Seq<char>, share: u64)
    ensures
        wanted_vias(classes, name, share) >= 2,
        map_find(classes, name) is Some && map_find(classes, name)->0.sink_total_amps is Some && share
            >= 2 ==> wanted_vias(classes, name, share) == share,
        !(map_find(classes, name) is Some && map_find(classes, name)->0.sink_total_amps is Some)
            ==> wanted_vias(classes, name, share) == 2,
{
}

} // verus!
