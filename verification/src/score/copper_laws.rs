//! Which nets are in use, which pieces of copper share a layer, and what is counted of a net.
use vstd::prelude::*;

use crate::order::sorting_keeps_items;
use crate::score::board::{
    net_in_use, pad_on, pads_hold, used_of, ArcTrackV, BoardModel, BoardModelV, FootprintV, PadV,
    TrackV, Via, ViaV, ZoneV,
};
use crate::score::classify::{NetInfo, NetInfoV};
use crate::score::metrics::context::{net_is, Trait};
use crate::score::net_graph::{
    arc_elements, footprint_elements, layer_place, may_touch, pad_elements, spans, track_elements,
    via_elements, via_spans_layer, wires_of, zone_elements, Element, ElementV,
};
use crate::score::net_stats::{net_stats, wire_layers, NetFacts, NetStats};
use crate::score::stackup::{fill_layers, plane_layers, reference_fills};
use crate::select::places;
use crate::sorted_map::map_find;
use crate::steps::{distinct, distinct_holds};

verus! {

/// Something on the board belongs to the net: a track, an arc, a via, a filled zone or a pad.
pub open spec fn has_copper(b: BoardModelV, net: i64) -> bool {
    ||| exists|i: int| 0 <= i < b.tracks.len() && (#[trigger] b.tracks[i]).net == net
    ||| exists|i: int| 0 <= i < b.arcs.len() && (#[trigger] b.arcs[i]).net == net
    ||| exists|i: int| 0 <= i < b.vias.len() && (#[trigger] b.vias[i]).net == net
    ||| exists|i: int|
        0 <= i < b.zones.len() && (#[trigger] b.zones[i]).net == net
            && b.zones[i].filled_polygons.len() > 0
    ||| exists|i: int, k: int|
        0 <= i < b.footprints.len() && 0 <= k < b.footprints[i].pads.len() && (
        #[trigger] b.footprints[i].pads[k]).net == Some(net)
}

/// The board lists the net under a name.
pub open spec fn is_named(b: BoardModelV, net: i64) -> bool {
    exists|i: int|
        0 <= i < b.nets.len() && (#[trigger] b.nets[i]).0 == net && b.nets[i].1.len() > 0
}

proof fn used_up_to(b: BoardModelV, n: int, net: i64)
    requires
        0 <= n <= b.nets.len(),
    ensures
        used_of(b, n).contains(net) <==> net != 0 && net_in_use(b, net) && exists|i: int|
            0 <= i < n && (#[trigger] b.nets[i]).0 == net && b.nets[i].1.len() > 0,
    decreases n,
{
    if n > 0 {
        used_up_to(b, n - 1, net);
        let r = used_of(b, n);
        let f = used_of(b, n - 1);
        if f.contains(net) {
            let k = choose|k: int| 0 <= k < f.len() && f[k] == net;
            assert(r[k] == net);
        }
        if r.contains(net) {
            let k = choose|k: int| 0 <= k < r.len() && r[k] == net;
            if k < f.len() {
                assert(f[k] == net);
            } else {
                assert(b.nets[n - 1].0 == net);
            }
        }
        if net != 0 && net_in_use(b, net) && b.nets[n - 1].0 == net && b.nets[n - 1].1.len() > 0 {
            assert(r[r.len() - 1] == net);
        }
    }
}

/// The nets in use are those that the board lists under a name and that something on it belongs to,
/// but for net 0.
pub proof fn nets_in_use_have_copper(board: BoardModel, r: Vec<i64>, net: i64)
    requires
        BoardModel::used_net_ids.ensures((&board,), r),
    ensures
        r@.contains(net) <==> net != 0 && is_named(board.deep_view(), net) && has_copper(
            board.deep_view(),
            net,
        ),
{
    let b = board.deep_view();
    used_up_to(b, b.nets.len() as int, net);
    if exists|i: int| 0 <= i < b.footprints.len() && pads_hold((#[trigger] b.footprints[i]).pads, net) {
        let i = choose|i: int|
            0 <= i < b.footprints.len() && pads_hold((#[trigger] b.footprints[i]).pads, net);
        let k = choose|k: int|
            0 <= k < b.footprints[i].pads.len() && (#[trigger] b.footprints[i].pads[k]).net == Some(
                net,
            );
        assert(b.footprints[i].pads[k].net == Some(net));
    }
    if exists|i: int, k: int|
        0 <= i < b.footprints.len() && 0 <= k < b.footprints[i].pads.len() && (
        #[trigger] b.footprints[i].pads[k]).net == Some(net) {
        let (i, k) = choose|i: int, k: int|
            0 <= i < b.footprints.len() && 0 <= k < b.footprints[i].pads.len() && (
            #[trigger] b.footprints[i].pads[k]).net == Some(net);
        assert(pads_hold(b.footprints[i].pads, net));
    }
}

proof fn placed_layer(list: Seq<Seq<char>>, s: Seq<char>)
    ensures
        match layer_place(list, s) {
            Some(k) => 0 <= k < list.len() && list[k] == s,
            None => !list.contains(s),
        },
    decreases list.len(),
{
    if list.len() > 0 && list[0] != s {
        let rest = list.drop_first();
        placed_layer(rest, s);
        match layer_place(rest, s) {
            Some(k) => {
                assert(list[k + 1] == rest[k]);
            },
            None => {
                if list.contains(s) {
                    let i = choose|i: int| 0 <= i < list.len() && list[i] == s;
                    assert(rest[i - 1] == s);
                }
            },
        }
    }
}

/// The layer lies between the two others, or is one of them, in the order of the copper layers.
pub open spec fn lies_between(
    copper: Seq<Seq<char>>,
    first: Seq<char>,
    layer: Seq<char>,
    last: Seq<char>,
) -> bool {
    exists|i: int, k: int, j: int|
        0 <= i < copper.len() && 0 <= k < copper.len() && 0 <= j < copper.len()
            && #[trigger] copper[i] == first && #[trigger] copper[k] == layer
            && #[trigger] copper[j] == last && ((i <= k <= j) || (j <= k <= i))
}

/// A via spans what lies between its layers.
pub proof fn spans_between(layers: Seq<Seq<char>>, layer: Seq<char>, copper: Seq<Seq<char>>)
    requires
        copper.no_duplicates(),
    ensures
        spans(layers, layer, copper) <==> layers.contains(layer) || (layers.len() > 0
            && lies_between(copper, layers[0], layer, layers.last())),
{
    if layers.len() > 0 {
        placed_layer(copper, layers[0]);
        placed_layer(copper, layers.last());
        placed_layer(copper, layer);
        if lies_between(copper, layers[0], layer, layers.last()) {
            let (i, k, j) = choose|i: int, k: int, j: int|
                0 <= i < copper.len() && 0 <= k < copper.len() && 0 <= j < copper.len()
                    && #[trigger] copper[i] == layers[0] && #[trigger] copper[k] == layer
                    && #[trigger] copper[j] == layers.last() && ((i <= k <= j) || (j <= k <= i));
            assert(copper.contains(layers[0]) && copper.contains(layer) && copper.contains(
                layers.last(),
            ));
        }
    }
}

/// A via spans the layers that it names and all copper layers between its first and its last.
pub proof fn vias_span_what_lies_between(via: Via, layer: &str, copper: Vec<String>, r: bool)
    requires
        via_spans_layer.ensures((&via, layer, &copper), r),
        copper.deep_view().no_duplicates(),
    ensures
        r <==> via.layers.deep_view().contains(layer@) || (via.layers@.len() > 0 && lies_between(
            copper.deep_view(),
            via.layers.deep_view()[0],
            layer@,
            via.layers.deep_view().last(),
        )),
{
    spans_between(via.layers.deep_view(), layer@, copper.deep_view());
}

/// The piece of copper is on the layer. A pad on `*.Cu` is on every copper layer.
pub open spec fn is_on_layer(e: ElementV, layer: Seq<char>, copper: Seq<Seq<char>>) -> bool {
    match e {
        ElementV::Wire(l) => l == layer,
        ElementV::Fill(l) => l == layer,
        ElementV::Via(v) => v.contains(layer) || (v.len() > 0 && lies_between(
            copper,
            v[0],
            layer,
            v.last(),
        )),
        ElementV::Pad(p) => p.contains(layer) || (p.contains("*.Cu"@) && copper.contains(layer)),
    }
}

/// The layers let two pieces of a net touch exactly where one layer has them both. Vias meet
/// each other anyway, pads never do by themselves, and a pad meets a via on a layer that the via
/// names.
pub proof fn pieces_meet_on_a_shared_layer(a: Element, b: Element, copper: Vec<String>, r: bool)
    requires
        may_touch.ensures((&a, &b, &copper), r),
        copper.deep_view().no_duplicates(),
    ensures
        ({
            let x = a.deep_view();
            let y = b.deep_view();
            let c = copper.deep_view();
            match (x, y) {
                (ElementV::Via(_), ElementV::Via(_)) => r,
                (ElementV::Pad(_), ElementV::Pad(_)) => !r,
                (ElementV::Via(v), ElementV::Pad(_)) => r <==> exists|i: int|
                    0 <= i < v.len() && is_on_layer(y, #[trigger] v[i], c),
                (ElementV::Pad(_), ElementV::Via(v)) => r <==> exists|i: int|
                    0 <= i < v.len() && is_on_layer(x, #[trigger] v[i], c),
                _ => r <==> exists|layer: Seq<char>| #[trigger]
                    is_on_layer(x, layer, c) && is_on_layer(y, layer, c),
            }
        }),
{
    let x = a.deep_view();
    let y = b.deep_view();
    let c = copper.deep_view();
    match (x, y) {
        (ElementV::Wire(l), ElementV::Via(v)) => {
            spans_between(v, l, c);
            assert(is_on_layer(x, l, c));
        },
        (ElementV::Via(v), ElementV::Wire(l)) => {
            spans_between(v, l, c);
            if r {
                assert(is_on_layer(x, l, c));
            }
        },
        (ElementV::Fill(l), ElementV::Via(v)) => {
            spans_between(v, l, c);
            assert(is_on_layer(x, l, c));
        },
        (ElementV::Via(v), ElementV::Fill(l)) => {
            spans_between(v, l, c);
            if r {
                assert(is_on_layer(x, l, c));
            }
        },
        (ElementV::Wire(l), _) => {
            assert(is_on_layer(x, l, c));
        },
        (ElementV::Fill(l), _) => {
            assert(is_on_layer(x, l, c));
        },
        (ElementV::Pad(p), ElementV::Wire(l)) => {
            if r {
                assert(is_on_layer(x, l, c));
            }
        },
        (ElementV::Pad(p), ElementV::Fill(l)) => {
            if r {
                assert(is_on_layer(x, l, c));
            }
        },
        (ElementV::Via(v), ElementV::Pad(p)) => {
            if r {
                let i = choose|i: int| 0 <= i < v.len() && pad_on(p, c, #[trigger] v[i]);
                assert(is_on_layer(y, v[i], c));
            }
            if exists|i: int| 0 <= i < v.len() && is_on_layer(y, #[trigger] v[i], c) {
                let i = choose|i: int| 0 <= i < v.len() && is_on_layer(y, #[trigger] v[i], c);
                assert(pad_on(p, c, v[i]));
            }
        },
        (ElementV::Pad(p), ElementV::Via(v)) => {
            if r {
                let i = choose|i: int| 0 <= i < v.len() && pad_on(p, c, #[trigger] v[i]);
                assert(is_on_layer(x, v[i], c));
            }
            if exists|i: int| 0 <= i < v.len() && is_on_layer(x, #[trigger] v[i], c) {
                let i = choose|i: int| 0 <= i < v.len() && is_on_layer(x, #[trigger] v[i], c);
                assert(pad_on(p, c, v[i]));
            }
        },
        _ => {},
    }
}

proof fn tracks_counted(items: Seq<TrackV>, net: i64)
    ensures
        track_elements(items, net).len() == places(items, |t: TrackV| t.net == net).len(),
        forall|l: Seq<char>| #[trigger]
            wire_layers(track_elements(items, net)).contains(l) <==> exists|i: int|
                0 <= i < items.len() && (#[trigger] items[i]).net == net && items[i].layer == l,
        forall|k: int|
            0 <= k < track_elements(items, net).len() ==> (#[trigger] track_elements(items, net)[k])
                is Wire,
    decreases items.len(),
{
    if items.len() > 0 {
        let front = items.drop_last();
        tracks_counted(front, net);
        let a = wire_layers(track_elements(front, net));
        let b = wire_layers(track_elements(items, net));
        let end = items.len() - 1;
        assert(items[end] == items.last());
        assert forall|l: Seq<char>| #[trigger] b.contains(l) <==> exists|i: int|
            0 <= i < items.len() && (#[trigger] items[i]).net == net && items[i].layer == l by {
            if items.last().net == net {
                assert(b =~= a.push(items.last().layer));
                if a.contains(l) {
                    let k = choose|k: int| 0 <= k < a.len() && a[k] == l;
                    assert(b[k] == l);
                }
                if items.last().layer == l {
                    assert(b[b.len() - 1] == l);
                }
                if b.contains(l) && items.last().layer != l {
                    let k = choose|k: int| 0 <= k < b.len() && b[k] == l;
                    assert(a[k] == l);
                }
            }
            assert(a.contains(l) <==> exists|i: int|
                0 <= i < front.len() && (#[trigger] front[i]).net == net && front[i].layer == l);
            if a.contains(l) {
                let i = choose|i: int|
                    0 <= i < front.len() && (#[trigger] front[i]).net == net && front[i].layer == l;
                assert(items[i].net == net && items[i].layer == l);
            }
            if exists|i: int|
                0 <= i < items.len() && (#[trigger] items[i]).net == net && items[i].layer == l {
                let i = choose|i: int|
                    0 <= i < items.len() && (#[trigger] items[i]).net == net && items[i].layer == l;
                if i < end {
                    assert(front[i].net == net && front[i].layer == l);
                }
            }
        }
    }
}

proof fn arcs_counted(items: Seq<ArcTrackV>, net: i64)
    ensures
        arc_elements(items, net).len() == places(items, |t: ArcTrackV| t.net == net).len(),
        forall|l: Seq<char>| #[trigger]
            wire_layers(arc_elements(items, net)).contains(l) <==> exists|i: int|
                0 <= i < items.len() && (#[trigger] items[i]).net == net && items[i].layer == l,
    decreases items.len(),
{
    if items.len() > 0 {
        let front = items.drop_last();
        arcs_counted(front, net);
        let a = wire_layers(arc_elements(front, net));
        let b = wire_layers(arc_elements(items, net));
        let end = items.len() - 1;
        assert(items[end] == items.last());
        assert forall|l: Seq<char>| #[trigger] b.contains(l) <==> exists|i: int|
            0 <= i < items.len() && (#[trigger] items[i]).net == net && items[i].layer == l by {
            if items.last().net == net {
                assert(b =~= a.push(items.last().layer));
                if a.contains(l) {
                    let k = choose|k: int| 0 <= k < a.len() && a[k] == l;
                    assert(b[k] == l);
                }
                if items.last().layer == l {
                    assert(b[b.len() - 1] == l);
                }
                if b.contains(l) && items.last().layer != l {
                    let k = choose|k: int| 0 <= k < b.len() && b[k] == l;
                    assert(a[k] == l);
                }
            }
            assert(a.contains(l) <==> exists|i: int|
                0 <= i < front.len() && (#[trigger] front[i]).net == net && front[i].layer == l);
            if a.contains(l) {
                let i = choose|i: int|
                    0 <= i < front.len() && (#[trigger] front[i]).net == net && front[i].layer == l;
                assert(items[i].net == net && items[i].layer == l);
            }
            if exists|i: int|
                0 <= i < items.len() && (#[trigger] items[i]).net == net && items[i].layer == l {
                let i = choose|i: int|
                    0 <= i < items.len() && (#[trigger] items[i]).net == net && items[i].layer == l;
                if i < end {
                    assert(front[i].net == net && front[i].layer == l);
                }
            }
        }
    }
}

proof fn vias_counted(items: Seq<ViaV>, net: i64)
    ensures
        via_elements(items, net).len() == places(items, |t: ViaV| t.net == net).len(),
    decreases items.len(),
{
    if items.len() > 0 {
        vias_counted(items.drop_last(), net);
    }
}

proof fn pads_counted(items: Seq<PadV>, net: i64)
    ensures
        pad_elements(items, net).len() == places(items, |t: PadV| t.net == Some(net)).len(),
    decreases items.len(),
{
    if items.len() > 0 {
        pads_counted(items.drop_last(), net);
    }
}

/// How many pads of the footprints are on the net.
pub open spec fn pads_on(items: Seq<FootprintV>, net: i64) -> nat
    decreases items.len(),
{
    if items.len() == 0 {
        0
    } else {
        pads_on(items.drop_last(), net) + places(
            items.last().pads,
            |t: PadV| t.net == Some(net),
        ).len()
    }
}

proof fn footprint_pads_counted(items: Seq<FootprintV>, net: i64)
    ensures
        footprint_elements(items, net).len() == pads_on(items, net),
    decreases items.len(),
{
    if items.len() > 0 {
        footprint_pads_counted(items.drop_last(), net);
        pads_counted(items.last().pads, net);
    }
}

proof fn zones_found(items: Seq<ZoneV>, net: i64)
    ensures
        zone_elements(items, net).len() > 0 <==> exists|i: int|
            0 <= i < items.len() && (#[trigger] items[i]).net == net
                && items[i].filled_polygons.len() > 0,
    decreases items.len(),
{
    if items.len() > 0 {
        let front = items.drop_last();
        zones_found(front, net);
        let end = items.len() - 1;
        assert(items[end] == items.last());
        if exists|i: int|
            0 <= i < front.len() && (#[trigger] front[i]).net == net
                && front[i].filled_polygons.len() > 0 {
            let i = choose|i: int|
                0 <= i < front.len() && (#[trigger] front[i]).net == net
                    && front[i].filled_polygons.len() > 0;
            assert(items[i].net == net);
        }
        if exists|i: int|
            0 <= i < items.len() && (#[trigger] items[i]).net == net
                && items[i].filled_polygons.len() > 0 {
            let i = choose|i: int|
                0 <= i < items.len() && (#[trigger] items[i]).net == net
                    && items[i].filled_polygons.len() > 0;
            if i < end {
                assert(front[i].net == net);
            }
        }
    }
}

/// A track or an arc of the net is on the layer.
pub open spec fn runs_on(b: BoardModelV, net: i64, layer: Seq<char>) -> bool {
    ||| exists|i: int|
        0 <= i < b.tracks.len() && (#[trigger] b.tracks[i]).net == net && b.tracks[i].layer == layer
    ||| exists|i: int|
        0 <= i < b.arcs.len() && (#[trigger] b.arcs[i]).net == net && b.arcs[i].layer == layer
}

/// The statistics of a net count what is on it: its vias, its pads, its tracks and arcs, the layers
/// that these run on, and whether a filled zone is on it.
pub proof fn statistics_count_what_is_there(
    board: BoardModel,
    net: i64,
    facts: NetFacts,
    r: NetStats,
)
    requires
        net_stats.ensures((&board, net, &facts), r),
    ensures
        ({
            let b = board.deep_view();
            &&& r.net == net
            &&& r.via_count == places(b.vias, |v: ViaV| v.net == net).len() as usize
            &&& r.pad_count == pads_on(b.footprints, net) as usize
            &&& r.segment_count == (places(b.tracks, |t: TrackV| t.net == net).len() + places(
                b.arcs,
                |t: ArcTrackV| t.net == net,
            ).len()) as usize
            &&& r.has_zone <==> exists|i: int|
                0 <= i < b.zones.len() && (#[trigger] b.zones[i]).net == net
                    && b.zones[i].filled_polygons.len() > 0
            &&& forall|l: Seq<char>| #[trigger]
                r.layers_used.deep_view().contains(l) <==> runs_on(b, net, l)
            &&& r.routed_length == facts.routed_length
            &&& r.mst_length == facts.mst_length
            &&& r.stub_length == facts.stub_length
        }),
{
    let b = board.deep_view();
    tracks_counted(b.tracks, net);
    arcs_counted(b.arcs, net);
    vias_counted(b.vias, net);
    footprint_pads_counted(b.footprints, net);
    zones_found(b.zones, net);
    let t = track_elements(b.tracks, net);
    let a = arc_elements(b.arcs, net);
    let w = wire_layers(wires_of(b, net));
    assert(w =~= wire_layers(t) + wire_layers(a));
    assert(r.deep_view().layers_used == r.layers_used.deep_view());
    assert forall|l: Seq<char>| #[trigger] r.layers_used.deep_view().contains(l) <==> runs_on(
        b,
        net,
        l,
    ) by {
        sorting_keeps_items::<String>(distinct(w), l);
        distinct_holds(w, l);
        let x = wire_layers(t);
        let y = wire_layers(a);
        assert(x.contains(l) <==> exists|i: int|
            0 <= i < b.tracks.len() && (#[trigger] b.tracks[i]).net == net && b.tracks[i].layer
                == l);
        assert(y.contains(l) <==> exists|i: int|
            0 <= i < b.arcs.len() && (#[trigger] b.arcs[i]).net == net && b.arcs[i].layer == l);
        if x.contains(l) {
            let k = choose|k: int| 0 <= k < x.len() && x[k] == l;
            assert(w[k] == l);
        }
        if y.contains(l) {
            let k = choose|k: int| 0 <= k < y.len() && y[k] == l;
            assert(w[x.len() + k] == l);
        }
        if w.contains(l) {
            let k = choose|k: int| 0 <= k < w.len() && w[k] == l;
            if k < x.len() {
                assert(x[k] == l);
            } else {
                assert(y[k - x.len()] == l);
            }
        }
    }
}

/// What is known of the nets says that the net of the given number supplies power or is the ground.
pub open spec fn is_supply(
    b: BoardModelV,
    classes: Seq<(Seq<char>, NetInfoV)>,
    net: i64,
) -> bool {
    map_find(b.nets, net) is Some && map_find(classes, map_find(b.nets, net)->0) is Some && (
    map_find(classes, map_find(b.nets, net)->0)->0.is_power || map_find(
        classes,
        map_find(b.nets, net)->0,
    )->0.is_ground)
}

proof fn fills_found(
    b: BoardModelV,
    classes: Seq<(Seq<char>, NetInfoV)>,
    zones: Seq<ZoneV>,
    l: Seq<char>,
)
    ensures
        reference_fills(b, classes, zones).contains(l) <==> exists|i: int, k: int|
            0 <= i < zones.len() && 0 <= k < zones[i].filled_polygons.len() && (
            #[trigger] zones[i].filled_polygons[k]).layer == l && net_is(
                b,
                classes,
                zones[i].net,
                Trait::Reference,
            ),
    decreases zones.len(),
{
    if zones.len() > 0 {
        let front = zones.drop_last();
        let last = zones.last();
        let end = zones.len() - 1;
        assert(zones[end] == last);
        fills_found(b, classes, front, l);
        let f = reference_fills(b, classes, front);
        let g = fill_layers(last.filled_polygons);
        let r = reference_fills(b, classes, zones);
        if f.contains(l) {
            let x = choose|x: int| 0 <= x < f.len() && f[x] == l;
            assert(r[x] == l);
            let (i, k) = choose|i: int, k: int|
                0 <= i < front.len() && 0 <= k < front[i].filled_polygons.len() && (
                #[trigger] front[i].filled_polygons[k]).layer == l && net_is(
                    b,
                    classes,
                    front[i].net,
                    Trait::Reference,
                );
            assert(zones[i].filled_polygons[k].layer == l);
        }
        if r.contains(l) && !f.contains(l) {
            let x = choose|x: int| 0 <= x < r.len() && r[x] == l;
            if x < f.len() {
                assert(f[x] == l);
            }
            assert(g[x - f.len()] == l);
            assert(zones[end].filled_polygons[x - f.len()].layer == l);
        }
        if exists|i: int, k: int|
            0 <= i < zones.len() && 0 <= k < zones[i].filled_polygons.len() && (
            #[trigger] zones[i].filled_polygons[k]).layer == l && net_is(
                b,
                classes,
                zones[i].net,
                Trait::Reference,
            ) {
            let (i, k) = choose|i: int, k: int|
                0 <= i < zones.len() && 0 <= k < zones[i].filled_polygons.len() && (
                #[trigger] zones[i].filled_polygons[k]).layer == l && net_is(
                    b,
                    classes,
                    zones[i].net,
                    Trait::Reference,
                );
            if i < end {
                assert(front[i].filled_polygons[k].layer == l);
            } else {
                assert(g[k] == l);
                assert(r[f.len() + k] == l);
            }
        }
    }
}

/// The reference planes of a board are the layers on which a zone of a power or ground net is
/// filled, as far as a netlist says which nets these are.
pub proof fn planes_are_filled_supplies(
    board: BoardModel,
    classes: Option<Vec<(String, NetInfo)>>,
    r: Vec<String>,
    l: Seq<char>,
)
    requires
        plane_layers.ensures((&board, &classes), r),
        forall|cv: Seq<(Seq<char>, NetInfoV)>|
            classes.deep_view() == Some(cv) ==> map_find(cv, Seq::<char>::empty()) is None,
    ensures
        r.deep_view().contains(l) <==> classes is Some && exists|i: int, k: int|
            0 <= i < board.deep_view().zones.len() && 0 <= k
                < board.deep_view().zones[i].filled_polygons.len() && (
            #[trigger] board.deep_view().zones[i].filled_polygons[k]).layer == l && is_supply(
                board.deep_view(),
                classes.deep_view()->0,
                board.deep_view().zones[i].net,
            ),
{
    let b = board.deep_view();
    if let Some(c) = classes {
        let cv = c.deep_view();
        assert(classes.deep_view() == Some(cv));
        let f = reference_fills(b, cv, b.zones);
        sorting_keeps_items::<String>(distinct(f), l);
        distinct_holds(f, l);
        fills_found(b, cv, b.zones, l);
        assert(map_find(cv, Seq::<char>::empty()) is None);
        assert forall|n: i64| #[trigger] net_is(b, cv, n, Trait::Reference) <==> is_supply(b, cv, n) by {}
    }
}

} // verus!
