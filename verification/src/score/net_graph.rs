//! How the copper of a net hangs together, and what follows for its routing.
use vstd::prelude::*;

use crate::duplicate::Duplicate;
use crate::score::board::{
    pad_on, ArcTrackV, BoardModel, BoardModelV, FootprintV, PadV, TrackV, Via, ViaV, ZonePolygonV,
    ZoneV,
};
use crate::text::{holds, same};

verus! {

/// Where the layer first stands in the list.
pub open spec fn layer_place(list: Seq<Seq<char>>, s: Seq<char>) -> Option<int>
    decreases list.len(),
{
    if list.len() == 0 {
        None
    } else if list[0] == s {
        Some(0)
    } else {
        match layer_place(list.drop_first(), s) {
            Some(k) => Some(k + 1),
            None => None,
        }
    }
}

/// The via spans the layer: it lists it, or the layer lies between its first and its last layer.
pub open spec fn spans(layers: Seq<Seq<char>>, layer: Seq<char>, copper: Seq<Seq<char>>) -> bool {
    layers.contains(layer) || (layers.len() > 0 && match (
        layer_place(copper, layers[0]),
        layer_place(copper, layers.last()),
        layer_place(copper, layer),
    ) {
        (Some(first), Some(last), Some(at)) => (first <= at <= last) || (last <= at <= first),
        _ => false,
    })
}

fn find_layer(list: &Vec<String>, s: &str) -> (r: Option<usize>)
    ensures
        match r {
            Some(k) => layer_place(list.deep_view(), s@) == Some(k as int),
            None => layer_place(list.deep_view(), s@) is None,
        },
{
    let ghost all = list.deep_view();
    let n: usize = list.len();
    let mut i: usize = 0;
    assert(all.skip(0) =~= all);
    while i < n
        invariant
            n == list@.len(),
            all == list.deep_view(),
            i <= n,
            layer_place(all, s@) == match layer_place(all.skip(i as int), s@) {
                Some(k) => Some(k + i),
                None => None,
            },
        decreases n - i,
    {
        assert(all.skip(i as int).drop_first() =~= all.skip(i + 1));
        assert(all.skip(i as int)[0] == list@[i as int]@);
        if same(list[i].as_str(), s) {
            return Some(i);
        }
        i += 1;
    }
    None
}

fn layers_span(layers: &Vec<String>, layer: &str, copper_layers: &Vec<String>) -> (r: bool)
    ensures
        r == spans(layers.deep_view(), layer@, copper_layers.deep_view()),
{
    if holds(layers, layer) {
        return true;
    }
    let n: usize = layers.len();
    if n == 0 {
        return false;
    }
    assert(layers.deep_view()[0] == layers@[0]@);
    assert(layers.deep_view().last() == layers@[n - 1]@);
    match (
        find_layer(copper_layers, layers[0].as_str()),
        find_layer(copper_layers, layers[n - 1].as_str()),
        find_layer(copper_layers, layer),
    ) {
        (Some(first), Some(last), Some(at)) => (first <= at && at <= last) || (last <= at && at
            <= first),
        _ => false,
    }
}

/// Whether the via spans the layer: the layer sits between its start and end copper layers.
pub fn via_spans_layer(via: &Via, layer: &str, copper_layers: &Vec<String>) -> (r: bool)
    ensures
        r == spans(via.deep_view().layers, layer@, copper_layers.deep_view()),
{
    layers_span(&via.layers, layer, copper_layers)
}

/// A piece of copper, by the layers that it is on.
pub enum Element {
    /// A track or an arc.
    Wire(String),
    Via(Vec<String>),
    Pad(Vec<String>),
    /// A filled area of a zone.
    Fill(String),
}

/// The value of an `Element`.
pub enum ElementV {
    Wire(Seq<char>),
    Via(Seq<Seq<char>>),
    Pad(Seq<Seq<char>>),
    Fill(Seq<char>),
}

impl DeepView for Element {
    type V = ElementV;

    open spec fn deep_view(&self) -> ElementV {
        match self {
            Element::Wire(l) => ElementV::Wire(l@),
            Element::Via(l) => ElementV::Via(l.deep_view()),
            Element::Pad(l) => ElementV::Pad(l.deep_view()),
            Element::Fill(l) => ElementV::Fill(l@),
        }
    }
}

/// Some layer of the via is one of the pad.
pub open spec fn via_on_pad(via: Seq<Seq<char>>, pad: Seq<Seq<char>>, copper: Seq<Seq<char>>) -> bool {
    exists|i: int| 0 <= i < via.len() && pad_on(pad, copper, #[trigger] via[i])
}

/// The layers let the two pieces touch. Two pads never do: copper has to join them.
pub open spec fn layers_meet(a: ElementV, b: ElementV, copper: Seq<Seq<char>>) -> bool {
    match (a, b) {
        (ElementV::Wire(l), ElementV::Wire(m)) => l == m,
        (ElementV::Wire(l), ElementV::Via(v)) => spans(v, l, copper),
        (ElementV::Via(v), ElementV::Wire(l)) => spans(v, l, copper),
        (ElementV::Wire(l), ElementV::Pad(p)) => pad_on(p, copper, l),
        (ElementV::Pad(p), ElementV::Wire(l)) => pad_on(p, copper, l),
        (ElementV::Via(v), ElementV::Pad(p)) => via_on_pad(v, p, copper),
        (ElementV::Pad(p), ElementV::Via(v)) => via_on_pad(v, p, copper),
        (ElementV::Via(_), ElementV::Via(_)) => true,
        (ElementV::Pad(_), ElementV::Pad(_)) => false,
        (ElementV::Fill(l), ElementV::Wire(m)) => l == m,
        (ElementV::Wire(m), ElementV::Fill(l)) => l == m,
        (ElementV::Fill(l), ElementV::Via(v)) => spans(v, l, copper),
        (ElementV::Via(v), ElementV::Fill(l)) => spans(v, l, copper),
        (ElementV::Fill(l), ElementV::Pad(p)) => pad_on(p, copper, l),
        (ElementV::Pad(p), ElementV::Fill(l)) => pad_on(p, copper, l),
        (ElementV::Fill(l), ElementV::Fill(m)) => l == m,
    }
}

/// Whether the layers let two pieces touch does not depend on their order.
pub proof fn layers_meet_both_ways(a: ElementV, b: ElementV, copper: Seq<Seq<char>>)
    ensures
        layers_meet(a, b, copper) == layers_meet(b, a, copper),
{
}

fn pad_has(pad: &Vec<String>, copper: &Vec<String>, layer: &str) -> (r: bool)
    ensures
        r == pad_on(pad.deep_view(), copper.deep_view(), layer@),
{
    let listed: bool = holds(pad, layer);
    let all: bool = holds(pad, "*.Cu");
    listed || (all && holds(copper, layer))
}

fn via_meets_pad(via: &Vec<String>, pad: &Vec<String>, copper: &Vec<String>) -> (r: bool)
    ensures
        r == via_on_pad(via.deep_view(), pad.deep_view(), copper.deep_view()),
{
    let ghost vv = via.deep_view();
    let n: usize = via.len();
    let mut i: usize = 0;
    while i < n
        invariant
            n == via@.len(),
            i <= n,
            vv == via.deep_view(),
            forall|j: int|
                0 <= j < i ==> !pad_on(pad.deep_view(), copper.deep_view(), #[trigger] vv[j]),
        decreases n - i,
    {
        assert(vv[i as int] == via@[i as int]@);
        if pad_has(pad, copper, via[i].as_str()) {
            assert(pad_on(pad.deep_view(), copper.deep_view(), vv[i as int]));
            return true;
        }
        i += 1;
    }
    false
}

/// Whether the layers let the two pieces touch.
pub fn may_touch(a: &Element, b: &Element, copper: &Vec<String>) -> (r: bool)
    ensures
        r == layers_meet(a.deep_view(), b.deep_view(), copper.deep_view()),
{
    match (a, b) {
        (Element::Wire(l), Element::Wire(m)) => same(l.as_str(), m.as_str()),
        (Element::Wire(l), Element::Via(v)) => layers_span(v, l.as_str(), copper),
        (Element::Via(v), Element::Wire(l)) => layers_span(v, l.as_str(), copper),
        (Element::Wire(l), Element::Pad(p)) => pad_has(p, copper, l.as_str()),
        (Element::Pad(p), Element::Wire(l)) => pad_has(p, copper, l.as_str()),
        (Element::Via(v), Element::Pad(p)) => via_meets_pad(v, p, copper),
        (Element::Pad(p), Element::Via(v)) => via_meets_pad(v, p, copper),
        (Element::Via(_), Element::Via(_)) => true,
        (Element::Pad(_), Element::Pad(_)) => false,
        (Element::Fill(l), Element::Wire(m)) => same(l.as_str(), m.as_str()),
        (Element::Wire(m), Element::Fill(l)) => same(l.as_str(), m.as_str()),
        (Element::Fill(l), Element::Via(v)) => layers_span(v, l.as_str(), copper),
        (Element::Via(v), Element::Fill(l)) => layers_span(v, l.as_str(), copper),
        (Element::Fill(l), Element::Pad(p)) => pad_has(p, copper, l.as_str()),
        (Element::Pad(p), Element::Fill(l)) => pad_has(p, copper, l.as_str()),
        (Element::Fill(l), Element::Fill(m)) => same(l.as_str(), m.as_str()),
    }
}

/// The tracks of a net.
pub open spec fn track_elements(items: Seq<TrackV>, net: i64) -> Seq<ElementV>
    decreases items.len(),
{
    if items.len() == 0 {
        Seq::empty()
    } else if items.last().net == net {
        track_elements(items.drop_last(), net).push(ElementV::Wire(items.last().layer))
    } else {
        track_elements(items.drop_last(), net)
    }
}

/// The arcs of a net.
pub open spec fn arc_elements(items: Seq<ArcTrackV>, net: i64) -> Seq<ElementV>
    decreases items.len(),
{
    if items.len() == 0 {
        Seq::empty()
    } else if items.last().net == net {
        arc_elements(items.drop_last(), net).push(ElementV::Wire(items.last().layer))
    } else {
        arc_elements(items.drop_last(), net)
    }
}

/// The vias of a net.
pub open spec fn via_elements(items: Seq<ViaV>, net: i64) -> Seq<ElementV>
    decreases items.len(),
{
    if items.len() == 0 {
        Seq::empty()
    } else if items.last().net == net {
        via_elements(items.drop_last(), net).push(ElementV::Via(items.last().layers))
    } else {
        via_elements(items.drop_last(), net)
    }
}

/// The pads of a net among those of a footprint.
pub open spec fn pad_elements(items: Seq<PadV>, net: i64) -> Seq<ElementV>
    decreases items.len(),
{
    if items.len() == 0 {
        Seq::empty()
    } else if items.last().net == Some(net) {
        pad_elements(items.drop_last(), net).push(ElementV::Pad(items.last().layers))
    } else {
        pad_elements(items.drop_last(), net)
    }
}

/// The pads of a net.
pub open spec fn footprint_elements(items: Seq<FootprintV>, net: i64) -> Seq<ElementV>
    decreases items.len(),
{
    if items.len() == 0 {
        Seq::empty()
    } else {
        footprint_elements(items.drop_last(), net) + pad_elements(items.last().pads, net)
    }
}

/// Filled areas.
pub open spec fn fill_elements(items: Seq<ZonePolygonV>) -> Seq<ElementV> {
    Seq::new(items.len(), |i: int| ElementV::Fill(items[i].layer))
}

/// The filled areas of a net.
pub open spec fn zone_elements(items: Seq<ZoneV>, net: i64) -> Seq<ElementV>
    decreases items.len(),
{
    if items.len() == 0 {
        Seq::empty()
    } else if items.last().net == net {
        zone_elements(items.drop_last(), net) + fill_elements(items.last().filled_polygons)
    } else {
        zone_elements(items.drop_last(), net)
    }
}

/// The tracks and arcs of a net.
pub open spec fn wires_of(b: BoardModelV, net: i64) -> Seq<ElementV> {
    track_elements(b.tracks, net) + arc_elements(b.arcs, net)
}

/// The copper of a net: tracks, arcs, vias, pads, filled areas.
pub open spec fn elements_of(b: BoardModelV, net: i64) -> Seq<ElementV> {
    wires_of(b, net) + via_elements(b.vias, net) + footprint_elements(b.footprints, net)
        + zone_elements(b.zones, net)
}

fn add_tracks(board: &BoardModel, net: i64, out: &mut Vec<Element>)
    ensures
        final(out).deep_view() == old(out).deep_view() + track_elements(board.deep_view().tracks, net),
{
    let ghost base = out.deep_view();
    let ghost all = board.deep_view().tracks;
    let n: usize = board.tracks.len();
    let mut i: usize = 0;
    assert(base + track_elements(all.take(0), net) =~= base);
    while i < n
        invariant
            n == board.tracks@.len(),
            i <= n,
            all == board.deep_view().tracks,
            out.deep_view() == base + track_elements(all.take(i as int), net),
        decreases n - i,
    {
        let ghost before = out.deep_view();
        assert(all.take(i + 1).drop_last() =~= all.take(i as int));
        assert(all[i as int] == board.tracks@[i as int].deep_view());
        if board.tracks[i].net == net {
            out.push(Element::Wire(board.tracks[i].layer.clone()));
            assert(out.deep_view() =~= before.push(ElementV::Wire(all[i as int].layer)));
            assert(out.deep_view() =~= base + track_elements(all.take(i + 1), net));
        }
        i += 1;
    }
    assert(all.take(n as int) =~= all);
}

fn add_arcs(board: &BoardModel, net: i64, out: &mut Vec<Element>)
    ensures
        final(out).deep_view() == old(out).deep_view() + arc_elements(board.deep_view().arcs, net),
{
    let ghost base = out.deep_view();
    let ghost all = board.deep_view().arcs;
    let n: usize = board.arcs.len();
    let mut i: usize = 0;
    assert(base + arc_elements(all.take(0), net) =~= base);
    while i < n
        invariant
            n == board.arcs@.len(),
            i <= n,
            all == board.deep_view().arcs,
            out.deep_view() == base + arc_elements(all.take(i as int), net),
        decreases n - i,
    {
        let ghost before = out.deep_view();
        assert(all.take(i + 1).drop_last() =~= all.take(i as int));
        assert(all[i as int] == board.arcs@[i as int].deep_view());
        if board.arcs[i].net == net {
            out.push(Element::Wire(board.arcs[i].layer.clone()));
            assert(out.deep_view() =~= before.push(ElementV::Wire(all[i as int].layer)));
            assert(out.deep_view() =~= base + arc_elements(all.take(i + 1), net));
        }
        i += 1;
    }
    assert(all.take(n as int) =~= all);
}

fn add_vias(board: &BoardModel, net: i64, out: &mut Vec<Element>)
    ensures
        final(out).deep_view() == old(out).deep_view() + via_elements(board.deep_view().vias, net),
{
    let ghost base = out.deep_view();
    let ghost all = board.deep_view().vias;
    let n: usize = board.vias.len();
    let mut i: usize = 0;
    assert(base + via_elements(all.take(0), net) =~= base);
    while i < n
        invariant
            n == board.vias@.len(),
            i <= n,
            all == board.deep_view().vias,
            out.deep_view() == base + via_elements(all.take(i as int), net),
        decreases n - i,
    {
        let ghost before = out.deep_view();
        assert(all.take(i + 1).drop_last() =~= all.take(i as int));
        assert(all[i as int] == board.vias@[i as int].deep_view());
        if board.vias[i].net == net {
            out.push(Element::Via(board.vias[i].layers.duplicate()));
            assert(out.deep_view() =~= before.push(ElementV::Via(all[i as int].layers)));
            assert(out.deep_view() =~= base + via_elements(all.take(i + 1), net));
        }
        i += 1;
    }
    assert(all.take(n as int) =~= all);
}

fn add_pads(board: &BoardModel, net: i64, out: &mut Vec<Element>)
    ensures
        final(out).deep_view() == old(out).deep_view() + footprint_elements(
            board.deep_view().footprints,
            net,
        ),
{
    let ghost base = out.deep_view();
    let ghost all = board.deep_view().footprints;
    let n: usize = board.footprints.len();
    let mut i: usize = 0;
    assert(base + footprint_elements(all.take(0), net) =~= base);
    while i < n
        invariant
            n == board.footprints@.len(),
            i <= n,
            all == board.deep_view().footprints,
            out.deep_view() == base + footprint_elements(all.take(i as int), net),
        decreases n - i,
    {
        let ghost start = out.deep_view();
        assert(all.take(i + 1).drop_last() =~= all.take(i as int));
        assert(all[i as int] == board.footprints@[i as int].deep_view());
        let pads = &board.footprints[i].pads;
        let ghost pv = pads.deep_view();
        let m: usize = pads.len();
        let mut k: usize = 0;
        assert(start + pad_elements(pv.take(0), net) =~= start);
        while k < m
            invariant
                m == pads@.len(),
                k <= m,
                pv == pads.deep_view(),
                out.deep_view() == start + pad_elements(pv.take(k as int), net),
            decreases m - k,
        {
            let ghost before = out.deep_view();
            assert(pv.take(k + 1).drop_last() =~= pv.take(k as int));
            assert(pv[k as int] == pads@[k as int].deep_view());
            let on: bool = match pads[k].net {
                Some(id) => id == net,
                None => false,
            };
            if on {
                out.push(Element::Pad(pads[k].layers.duplicate()));
                assert(out.deep_view() =~= before.push(ElementV::Pad(pv[k as int].layers)));
                assert(out.deep_view() =~= start + pad_elements(pv.take(k + 1), net));
            }
            k += 1;
        }
        assert(pv.take(m as int) =~= pv);
        assert(out.deep_view() =~= base + footprint_elements(all.take(i + 1), net));
        i += 1;
    }
    assert(all.take(n as int) =~= all);
}

fn add_zones(board: &BoardModel, net: i64, out: &mut Vec<Element>)
    ensures
        final(out).deep_view() == old(out).deep_view() + zone_elements(
            board.deep_view().zones,
            net,
        ),
{
    let ghost base = out.deep_view();
    let ghost all = board.deep_view().zones;
    let n: usize = board.zones.len();
    let mut i: usize = 0;
    assert(base + zone_elements(all.take(0), net) =~= base);
    while i < n
        invariant
            n == board.zones@.len(),
            i <= n,
            all == board.deep_view().zones,
            out.deep_view() == base + zone_elements(all.take(i as int), net),
        decreases n - i,
    {
        let ghost start = out.deep_view();
        assert(all.take(i + 1).drop_last() =~= all.take(i as int));
        assert(all[i as int] == board.zones@[i as int].deep_view());
        if board.zones[i].net == net {
            let polys = &board.zones[i].filled_polygons;
            let ghost fv = fill_elements(all[i as int].filled_polygons);
            let m: usize = polys.len();
            let mut k: usize = 0;
            assert(start + fv.take(0) =~= start);
            while k < m
                invariant
                    m == polys@.len(),
                    k <= m,
                    fv == fill_elements(polys.deep_view()),
                    out.deep_view() == start + fv.take(k as int),
                decreases m - k,
            {
                let ghost before = out.deep_view();
                assert(polys.deep_view()[k as int] == polys@[k as int].deep_view());
                out.push(Element::Fill(polys[k].layer.clone()));
                assert(out.deep_view() =~= before.push(fv[k as int]));
                assert(out.deep_view() =~= start + fv.take(k + 1));
                k += 1;
            }
            assert(fv.take(m as int) =~= fv);
        }
        assert(out.deep_view() =~= base + zone_elements(all.take(i + 1), net));
        i += 1;
    }
    assert(all.take(n as int) =~= all);
}

/// The copper of a net, and how many tracks, wires, vias and pads it has: tracks, arcs, vias,
/// pads, filled areas, in this order.
pub struct NetCopper {
    pub elements: Vec<Element>,
    pub tracks: usize,
    pub wires: usize,
    pub vias: usize,
    pub pads: usize,
}

impl NetCopper {
    /// The numbers are those of the board's net.
    pub open spec fn is_of(&self, b: BoardModelV, net: i64) -> bool {
        &&& self.elements.deep_view() == elements_of(b, net)
        &&& self.tracks == track_elements(b.tracks, net).len()
        &&& self.wires == wires_of(b, net).len()
        &&& self.vias == via_elements(b.vias, net).len()
        &&& self.pads == footprint_elements(b.footprints, net).len()
    }
}

/// Gathers the copper of a net.
pub fn net_copper(board: &BoardModel, net: i64) -> (r: NetCopper)
    ensures
        r.is_of(board.deep_view(), net),
{
    let ghost bv = board.deep_view();
    let mut elements: Vec<Element> = Vec::new();
    assert(elements.deep_view() =~= Seq::empty());
    add_tracks(board, net, &mut elements);
    assert(elements.deep_view() =~= track_elements(bv.tracks, net));
    let tracks: usize = elements.len();
    assert(elements.deep_view().len() == tracks);
    add_arcs(board, net, &mut elements);
    let wires: usize = elements.len();
    assert(elements.deep_view().len() == wires);
    add_vias(board, net, &mut elements);
    let with_vias: usize = elements.len();
    assert(elements.deep_view().len() == with_vias);
    add_pads(board, net, &mut elements);
    let with_pads: usize = elements.len();
    assert(elements.deep_view().len() == with_pads);
    add_zones(board, net, &mut elements);
    NetCopper { elements, tracks, wires, vias: with_vias - wires, pads: with_pads - with_vias }
}

} // verus!
