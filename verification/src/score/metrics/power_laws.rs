//! When the metrics on power apply, and what the pairing of planes asks for.
use vstd::prelude::*;

use crate::number::{below, zero};
use crate::score::board::FootprintV;
use crate::score::metrics::context::{name_is, net_is, stats_at, ScoreContext, ScoreContextV, Trait};
use crate::score::metrics::count_laws::some_count;
use crate::score::metrics::power::{PowerPass, PowerReals};
use crate::score::metrics::power_select::{
    budgeted, crosses_layers, decouples, fills_layer, has_tracks, layer_carries, pad_is, pair_at,
    planes_paired, some_pad_is, track_fed,
};
use crate::score::model::{Amount, CategoryResult};
use crate::score::net_stats::NetStatsV;
use crate::score::roles::Role;
use crate::sorted_map::map_find;

verus! {

/// The statistics of the net.
pub open spec fn are_stats_of(stats: Seq<NetStatsV>, net: i64, s: NetStatsV) -> bool {
    exists|i: int|
        0 <= i < stats.len() && #[trigger] stats[i] == s && s.net == net && forall|j: int|
            0 <= j < i ==> (#[trigger] stats[j]).net != net
}

/// The statistics of a net are the first of its number.
pub proof fn found_stats(stats: Seq<NetStatsV>, net: i64, s: NetStatsV)
    ensures
        stats_at(stats, net) == Some(s) <==> are_stats_of(
            stats,
            net,
            s,
        ),
    decreases stats.len(),
{
    if stats.len() > 0 {
        let rest = stats.drop_first();
        found_stats(rest, net, s);
        if stats[0].net == net {
            if stats[0] == s {
                assert(stats[0] == s);
            }
            if are_stats_of(stats, net, s) {
                let i = choose|i: int|
                    0 <= i < stats.len() && #[trigger] stats[i] == s && s.net == net && forall|j: int|
                        0 <= j < i ==> (#[trigger] stats[j]).net != net;
                assert(i == 0) by {
                    if i > 0 {
                        assert(stats[0].net != net);
                    }
                }
            }
        } else {
            if are_stats_of(rest, net, s) {
                let i = choose|i: int|
                    0 <= i < rest.len() && #[trigger] rest[i] == s && s.net == net && forall|j: int|
                        0 <= j < i ==> (#[trigger] rest[j]).net != net;
                assert(stats[i + 1] == s);
                assert forall|j: int| 0 <= j < i + 1 implies (#[trigger] stats[j]).net != net by {
                    if j > 0 {
                        assert(rest[j - 1] == stats[j]);
                    }
                }
            }
            if are_stats_of(stats, net, s) {
                let i = choose|i: int|
                    0 <= i < stats.len() && #[trigger] stats[i] == s && s.net == net && forall|j: int|
                        0 <= j < i ==> (#[trigger] stats[j]).net != net;
                assert(rest[i - 1] == s);
                assert forall|j: int| 0 <= j < i - 1 implies (#[trigger] rest[j]).net != net by {
                    assert(stats[j + 1] == rest[j]);
                }
            }
        }
    }
}

/// Net `i` of the board is what the trait says.
pub open spec fn is_listed(c: ScoreContextV, i: int, t: Trait) -> bool {
    0 <= i < c.board.nets.len() && name_is(c.net_classes->0, c.board.nets[i].1, t)
}

/// A track of net `i` is on the board.
pub open spec fn is_tracked(c: ScoreContextV, i: int) -> bool {
    exists|k: int|
        0 <= k < c.board.tracks.len() && (#[trigger] c.board.tracks[k]).net == c.board.nets[i].0
}

/// The statistics say that a zone feeds net `i`.
pub open spec fn is_zoned(c: ScoreContextV, i: int) -> bool {
    exists|s: NetStatsV| #[trigger] are_stats_of(c.net_stats, c.board.nets[i].0, s) && s.has_zone
}

/// The statistics say that net `i` is on two layers or more, or that a zone feeds it.
pub open spec fn is_spread(c: ScoreContextV, i: int) -> bool {
    exists|s: NetStatsV| #[trigger]
        are_stats_of(c.net_stats, c.board.nets[i].0, s) && (s.layers_used.len() >= 2 || s.has_zone)
}

/// Net `i` declares a current that it sinks, above zero, and one that it sources.
pub open spec fn is_budgeted(c: ScoreContextV, i: int) -> bool {
    &&& 0 <= i < c.board.nets.len()
    &&& map_find(c.net_classes->0, c.board.nets[i].1) is Some
    &&& map_find(c.net_classes->0, c.board.nets[i].1)->0.source_total_amps is Some
    &&& map_find(c.net_classes->0, c.board.nets[i].1)->0.sink_total_amps is Some
    &&& below(zero(), map_find(c.net_classes->0, c.board.nets[i].1)->0.sink_total_amps->0)
}

/// A pad of footprint `f` is on a net that is what the trait says.
pub open spec fn has_pad_on(c: ScoreContextV, f: int, t: Trait) -> bool {
    exists|k: int|
        0 <= k < c.board.footprints[f].pads.len() && (
        #[trigger] c.board.footprints[f].pads[k]).net_name is Some && name_is(
            c.net_classes->0,
            c.board.footprints[f].pads[k].net_name->0,
            t,
        )
}

/// A pad is found by what its net is.
pub proof fn pads_found(c: ScoreContextV, f: int, t: Trait)
    ensures
        some_pad_is(c.net_classes->0, c.board.footprints[f].pads, t) <==> has_pad_on(c, f, t),
{
    let pads = c.board.footprints[f].pads;
    if some_pad_is(c.net_classes->0, pads, t) {
        let k = choose|k: int| 0 <= k < pads.len() && pad_is(c.net_classes->0, #[trigger] pads[k], t);
        assert(c.board.footprints[f].pads[k].net_name is Some);
    }
    if has_pad_on(c, f, t) {
        let k = choose|k: int|
            0 <= k < c.board.footprints[f].pads.len() && (
            #[trigger] c.board.footprints[f].pads[k]).net_name is Some && name_is(
                c.net_classes->0,
                c.board.footprints[f].pads[k].net_name->0,
                t,
            );
        assert(pad_is(c.net_classes->0, pads[k], t));
    }
}

/// A zone of a net that is what the trait says is filled on the layer.
pub open spec fn fills_on(c: ScoreContextV, layer: Seq<char>, t: Trait) -> bool {
    exists|z: int, k: int|
        0 <= z < c.board.zones.len() && 0 <= k < c.board.zones[z].filled_polygons.len() && (
        #[trigger] c.board.zones[z].filled_polygons[k]).layer == layer && net_is(
            c.board,
            c.net_classes->0,
            c.board.zones[z].net,
            t,
        )
}

proof fn fills_found(c: ScoreContextV, layer: Seq<char>, t: Trait)
    ensures
        layer_carries(c.board, c.net_classes->0, layer, t) <==> fills_on(c, layer, t),
{
    let b = c.board;
    if layer_carries(b, c.net_classes->0, layer, t) {
        let z = choose|z: int|
            0 <= z < b.zones.len() && net_is(b, c.net_classes->0, (#[trigger] b.zones[z]).net, t)
                && fills_layer(b.zones[z].filled_polygons, layer);
        let polys = b.zones[z].filled_polygons;
        let k = choose|k: int| 0 <= k < polys.len() && (#[trigger] polys[k]).layer == layer;
        assert(b.zones[z].filled_polygons[k].layer == layer);
    }
    if fills_on(c, layer, t) {
        let (z, k) = choose|z: int, k: int|
            0 <= z < c.board.zones.len() && 0 <= k < c.board.zones[z].filled_polygons.len() && (
            #[trigger] c.board.zones[z].filled_polygons[k]).layer == layer && net_is(
                c.board,
                c.net_classes->0,
                c.board.zones[z].net,
                t,
            );
        assert(fills_layer(b.zones[z].filled_polygons, layer));
    }
}

/// Layers `i` and `i + 1` carry a ground plane and a power plane, either way round.
pub open spec fn is_pair(c: ScoreContextV, i: int) -> bool {
    let a = c.board.copper_layers[i];
    let d = c.board.copper_layers[i + 1];
    ||| fills_on(c, a, Trait::Ground) && fills_on(c, d, Trait::Power)
    ||| fills_on(c, a, Trait::Power) && fills_on(c, d, Trait::Ground)
}

/// The metrics on power apply to: nets with a declared current that run on tracks and have no zone;
/// nets that declare both what they source and what they sink; power nets on tracks; capacitors
/// between power and ground; power nets on several layers. The planes are paired where some copper
/// layer and the next one carry a power and a ground plane.
pub proof fn power_goes_by_declarations(
    pass: PowerPass,
    ctx: ScoreContext,
    reals: PowerReals,
    r: CategoryResult,
)
    requires
        PowerPass::run.ensures((&pass, &ctx, &reals), r),
        ctx.net_classes is Some,
    ensures
        ({
            let m = r.metrics.deep_view();
            let c = ctx.deep_view();
            &&& m[0].applicable <==> exists|i: int| #[trigger]
                is_listed(c, i, Trait::Current) && is_tracked(c, i) && !is_zoned(c, i)
            &&& m[1].applicable <==> exists|i: int| #[trigger] is_budgeted(c, i)
            &&& m[2].applicable <==> exists|i: int| #[trigger]
                is_listed(c, i, Trait::Power) && is_tracked(c, i)
            &&& m[3].applicable <==> c.roles is Some && exists|f: int|
                0 <= f < c.board.footprints.len() && map_find(
                    c.roles->0,
                    (#[trigger] c.board.footprints[f]).reference,
                ) == Some(Role::Capacitor) && has_pad_on(c, f, Trait::Power) && has_pad_on(
                    c,
                    f,
                    Trait::Ground,
                )
            &&& m[5].applicable <==> exists|i: int| #[trigger]
                is_listed(c, i, Trait::Power) && is_spread(c, i)
            &&& m[6].applicable ==> c.board.copper_layers.len() > 2
            &&& m[6].applicable ==> m[6].raw == Some(
                Amount::Count(
                    if exists|i: int|
                        0 <= i < c.board.copper_layers.len() - 1 && #[trigger] is_pair(c, i) {
                        1
                    } else {
                        0
                    },
                ),
            )
        }),
{
    let c = ctx.deep_view();
    let b = c.board;
    let classes = c.net_classes->0;
    let stats = c.net_stats;
    let t0 = |x: (i64, Seq<char>)| track_fed(b, stats, classes, x);
    let t1 = |x: (i64, Seq<char>)| budgeted(classes, x.1);
    let t2 = |x: (i64, Seq<char>)| name_is(classes, x.1, Trait::Power) && has_tracks(b, x.0);
    let t5 = |x: (i64, Seq<char>)| crosses_layers(stats, classes, x);
    let tc = |x: (i64, Seq<char>)| name_is(classes, x.1, Trait::Current);
    some_count(b.nets, t0);
    some_count(b.nets, t1);
    some_count(b.nets, t2);
    some_count(b.nets, t5);
    some_count(b.nets, tc);
    assert forall|i: int| 0 <= i < b.nets.len() implies {
        &&& t0(#[trigger] b.nets[i]) == (is_listed(c, i, Trait::Current) && is_tracked(c, i)
            && !is_zoned(c, i))
        &&& t1(b.nets[i]) == is_budgeted(c, i)
        &&& t2(b.nets[i]) == (is_listed(c, i, Trait::Power) && is_tracked(c, i))
        &&& t5(b.nets[i]) == (is_listed(c, i, Trait::Power) && is_spread(c, i))
    } by {
        let net = b.nets[i].0;
        assert forall|s: NetStatsV| #[trigger]
            are_stats_of(stats, net, s) <==> stats_at(stats, net)
                == Some(s) by {
            found_stats(stats, net, s);
        }
        if let Some(s) = stats_at(stats, net) {
            assert(are_stats_of(stats, net, s));
        }
    }
    if some_holds(b.nets, t0) {
        let i = choose|i: int| 0 <= i < b.nets.len() && t0(#[trigger] b.nets[i]);
        assert(is_listed(c, i, Trait::Current));
        assert(tc(b.nets[i]));
    }
    if some_holds(b.nets, t1) {
        let i = choose|i: int| 0 <= i < b.nets.len() && t1(#[trigger] b.nets[i]);
        assert(is_budgeted(c, i));
    }
    if some_holds(b.nets, t2) {
        let i = choose|i: int| 0 <= i < b.nets.len() && t2(#[trigger] b.nets[i]);
        assert(is_listed(c, i, Trait::Power));
    }
    if some_holds(b.nets, t5) {
        let i = choose|i: int| 0 <= i < b.nets.len() && t5(#[trigger] b.nets[i]);
        assert(is_listed(c, i, Trait::Power));
    }
    if exists|i: int| #[trigger]
        is_listed(c, i, Trait::Current) && is_tracked(c, i) && !is_zoned(c, i) {
        let i = choose|i: int| #[trigger]
            is_listed(c, i, Trait::Current) && is_tracked(c, i) && !is_zoned(c, i);
        assert(t0(b.nets[i]));
        assert(tc(b.nets[i]));
    }
    if exists|i: int| #[trigger] is_budgeted(c, i) {
        let i = choose|i: int| #[trigger] is_budgeted(c, i);
        assert(t1(b.nets[i]));
    }
    if exists|i: int| #[trigger] is_listed(c, i, Trait::Power) && is_tracked(c, i) {
        let i = choose|i: int| #[trigger] is_listed(c, i, Trait::Power) && is_tracked(c, i);
        assert(t2(b.nets[i]));
    }
    if exists|i: int| #[trigger] is_listed(c, i, Trait::Power) && is_spread(c, i) {
        let i = choose|i: int| #[trigger] is_listed(c, i, Trait::Power) && is_spread(c, i);
        assert(t5(b.nets[i]));
    }
    if c.roles is Some {
        let t3 = |f: FootprintV| decouples(c.roles->0, classes, f);
        some_count(b.footprints, t3);
        assert forall|f: int| 0 <= f < b.footprints.len() implies t3(#[trigger] b.footprints[f]) == (
        map_find(c.roles->0, b.footprints[f].reference) == Some(Role::Capacitor) && has_pad_on(
            c,
            f,
            Trait::Power,
        ) && has_pad_on(c, f, Trait::Ground)) by {
            pads_found(c, f, Trait::Power);
            pads_found(c, f, Trait::Ground);
        }
    }
    assert forall|i: int| 0 <= i < b.copper_layers.len() - 1 implies #[trigger] is_pair(c, i)
        == pair_at(b, classes, i) by {
        fills_found(c, b.copper_layers[i], Trait::Ground);
        fills_found(c, b.copper_layers[i], Trait::Power);
        fills_found(c, b.copper_layers[i + 1], Trait::Ground);
        fills_found(c, b.copper_layers[i + 1], Trait::Power);
    }
    if planes_paired(b, classes) {
        let i = choose|i: int| 0 <= i < b.copper_layers.len() - 1 && #[trigger] pair_at(b, classes, i);
        assert(is_pair(c, i));
    }
    if exists|i: int| 0 <= i < b.copper_layers.len() - 1 && #[trigger] is_pair(c, i) {
        let i = choose|i: int| 0 <= i < b.copper_layers.len() - 1 && #[trigger] is_pair(c, i);
        assert(pair_at(b, classes, i));
    }
}

/// Some item passes the test.
spec fn some_holds<A>(items: Seq<A>, test: spec_fn(A) -> bool) -> bool {
    exists|i: int| 0 <= i < items.len() && test(#[trigger] items[i])
}

} // verus!
