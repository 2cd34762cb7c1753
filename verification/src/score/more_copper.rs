//! What more copper does to the statistics of the nets.
use vstd::prelude::*;

use crate::number::Real;
use crate::score::board::{
    net_in_use, pads_hold, used_nets, used_of, ArcTrackV, BoardModelV, FootprintV, PadV, TrackV,
    ViaV, ZonePolygonV, ZoneV,
};
use crate::score::net_graph::{
    arc_elements, elements_of, footprint_elements, layers_meet, pad_elements, track_elements,
    via_elements, wires_of, zone_elements, ElementV,
};
use crate::score::net_stats::{
    all_stats, joining, joining_is_within, pad_parts, stats_of, NetFacts,
};
use crate::steps::{distinct, distinct_holds, only};
use crate::union_find::{paired, sets_are_connected_parts, walks_carry_over};

verus! {

/// Copper that is added to a board.
pub enum Addition {
    Track(TrackV),
    Arc(ArcTrackV),
    Via(ViaV),
    Zone(ZoneV),
}

/// The net of the copper.
pub open spec fn net_of(c: Addition) -> i64 {
    match c {
        Addition::Track(t) => t.net,
        Addition::Arc(t) => t.net,
        Addition::Via(t) => t.net,
        Addition::Zone(t) => t.net,
    }
}

/// The board with the copper, after all that it holds of its form.
pub open spec fn with_copper(b: BoardModelV, c: Addition) -> BoardModelV {
    match c {
        Addition::Track(t) => BoardModelV { tracks: b.tracks.push(t), ..b },
        Addition::Arc(t) => BoardModelV { arcs: b.arcs.push(t), ..b },
        Addition::Via(t) => BoardModelV { vias: b.vias.push(t), ..b },
        Addition::Zone(t) => BoardModelV { zones: b.zones.push(t), ..b },
    }
}

/// Where the copper comes to stand among the pieces of its net.
pub open spec fn place_of(b: BoardModelV, c: Addition) -> int {
    match c {
        Addition::Track(t) => track_elements(b.tracks, t.net).len() as int,
        Addition::Arc(t) => wires_of(b, t.net).len() as int,
        Addition::Via(t) => (wires_of(b, t.net).len() + via_elements(b.vias, t.net).len()) as int,
        Addition::Zone(t) => elements_of(b, t.net).len() as int,
    }
}

/// Where piece `i` of the net stands once the copper is there.
pub open spec fn moved(at: int, i: int) -> int {
    if i < at {
        i
    } else {
        i + 1
    }
}

/// What was measured of a net still holds once the copper is there: the pieces that lay on each
/// other do, and the shortest tree over the pads is as long as it was.
pub open spec fn still_holds(pieces: nat, at: int, f: NetFacts, g: NetFacts) -> bool {
    &&& g.mst_length == f.mst_length
    &&& forall|k: int|
        0 <= k < f.touching@.len() && (#[trigger] f.touching@[k]).0 < pieces && f.touching@[k].1
            < pieces ==> touch_at(
            g.touching@,
            moved(at, f.touching@[k].0 as int),
            moved(at, f.touching@[k].1 as int),
        )
}

/// The pair is listed.
pub open spec fn touch_at(touching: Seq<(usize, usize)>, i: int, j: int) -> bool {
    exists|k: int|
        0 <= k < touching.len() && (#[trigger] touching[k]).0 == i && touching[k].1 == j
}

proof fn elements_elsewhere(b: BoardModelV, c: Addition, net: i64)
    requires
        net != net_of(c),
    ensures
        track_elements(with_copper(b, c).tracks, net) == track_elements(b.tracks, net),
        arc_elements(with_copper(b, c).arcs, net) == arc_elements(b.arcs, net),
        via_elements(with_copper(b, c).vias, net) == via_elements(b.vias, net),
        zone_elements(with_copper(b, c).zones, net) == zone_elements(b.zones, net),
{
    match c {
        Addition::Track(t) => {
            assert(b.tracks.push(t).drop_last() =~= b.tracks);
        },
        Addition::Arc(t) => {
            assert(b.arcs.push(t).drop_last() =~= b.arcs);
        },
        Addition::Via(t) => {
            assert(b.vias.push(t).drop_last() =~= b.vias);
        },
        Addition::Zone(t) => {
            assert(b.zones.push(t).drop_last() =~= b.zones);
        },
    }
}

proof fn elements_move(b: BoardModelV, c: Addition, i: int)
    requires
        0 <= i < elements_of(b, net_of(c)).len(),
    ensures
        moved(place_of(b, c), i) < elements_of(with_copper(b, c), net_of(c)).len(),
        elements_of(with_copper(b, c), net_of(c))[moved(place_of(b, c), i)] == elements_of(
            b,
            net_of(c),
        )[i],
{
    match c {
        Addition::Track(t) => {
            assert(b.tracks.push(t).drop_last() =~= b.tracks);
        },
        Addition::Arc(t) => {
            assert(b.arcs.push(t).drop_last() =~= b.arcs);
        },
        Addition::Via(t) => {
            assert(b.vias.push(t).drop_last() =~= b.vias);
        },
        Addition::Zone(t) => {
            assert(b.zones.push(t).drop_last() =~= b.zones);
        },
    }
}

proof fn pads_move(b: BoardModelV, c: Addition, x: int)
    requires
        0 <= x < footprint_elements(b.footprints, net_of(c)).len(),
    ensures
        moved(
            place_of(b, c),
            wires_of(b, net_of(c)).len() + via_elements(b.vias, net_of(c)).len() + x,
        ) == wires_of(with_copper(b, c), net_of(c)).len() + via_elements(
            with_copper(b, c).vias,
            net_of(c),
        ).len() + x,
{
    match c {
        Addition::Track(t) => {
            assert(b.tracks.push(t).drop_last() =~= b.tracks);
        },
        Addition::Arc(t) => {
            assert(b.arcs.push(t).drop_last() =~= b.arcs);
        },
        Addition::Via(t) => {
            assert(b.vias.push(t).drop_last() =~= b.vias);
        },
        Addition::Zone(_) => {},
    }
}

proof fn joined_stays_listed(
    elements: Seq<ElementV>,
    copper: Seq<Seq<char>>,
    touching: Seq<(usize, usize)>,
    p: (int, int),
)
    ensures
        joining(elements, copper, touching).contains(p) <==> exists|k: int|
            0 <= k < touching.len() && joins_at(elements, copper, #[trigger] touching[k], p),
    decreases touching.len(),
{
    if touching.len() > 0 {
        let front = touching.drop_last();
        joined_stays_listed(elements, copper, front, p);
        let f = joining(elements, copper, front);
        let all = joining(elements, copper, touching);
        if all.contains(p) {
            let i = choose|i: int| 0 <= i < all.len() && all[i] == p;
            if i < f.len() {
                assert(f[i] == p);
                let k = choose|k: int|
                    0 <= k < front.len() && joins_at(elements, copper, #[trigger] front[k], p);
                assert(joins_at(elements, copper, touching[k], p));
            } else {
                assert(joins_at(elements, copper, touching[touching.len() - 1], p));
            }
        }
        if exists|k: int|
            0 <= k < touching.len() && joins_at(elements, copper, #[trigger] touching[k], p) {
            let k = choose|k: int|
                0 <= k < touching.len() && joins_at(elements, copper, #[trigger] touching[k], p);
            if k < front.len() {
                assert(joins_at(elements, copper, front[k], p));
                let i = choose|i: int| 0 <= i < f.len() && f[i] == p;
                assert(all[i] == p);
            } else {
                assert(all[f.len() as int] == p);
            }
        }
    }
}

/// The listed pair is `p`, lies within the copper, and its layers meet.
spec fn joins_at(
    elements: Seq<ElementV>,
    copper: Seq<Seq<char>>,
    pair: (usize, usize),
    p: (int, int),
) -> bool {
    &&& p == (pair.0 as int, pair.1 as int)
    &&& p.0 < elements.len()
    &&& p.1 < elements.len()
    &&& layers_meet(elements[p.0], elements[p.1], copper)
}

proof fn pads_stay_joined(b: BoardModelV, c: Addition, f: NetFacts, g: NetFacts, x: int, y: int)
    requires
        still_holds(elements_of(b, net_of(c)).len(), place_of(b, c), f, g),
        0 <= x < footprint_elements(b.footprints, net_of(c)).len(),
        0 <= y < footprint_elements(b.footprints, net_of(c)).len(),
        pad_parts(b, net_of(c), f.touching@)[x] == pad_parts(b, net_of(c), f.touching@)[y],
    ensures
        pad_parts(with_copper(b, c), net_of(c), g.touching@)[x] == pad_parts(
            with_copper(b, c),
            net_of(c),
            g.touching@,
        )[y],
{
    let net = net_of(c);
    let b2 = with_copper(b, c);
    let at = place_of(b, c);
    let e1 = elements_of(b, net);
    let e2 = elements_of(b2, net);
    let cu = b.copper_layers;
    let p1 = joining(e1, cu, f.touching@);
    let p2 = joining(e2, cu, g.touching@);
    let from1 = wires_of(b, net).len() + via_elements(b.vias, net).len();
    let from2 = wires_of(b2, net).len() + via_elements(b2.vias, net).len();
    joining_is_within(e1, cu, f.touching@);
    joining_is_within(e2, cu, g.touching@);
    sets_are_connected_parts(e1.len(), p1, from1 + x, from1 + y);
    let to = |i: int| moved(at, i);
    assert forall|k: int| 0 <= k < p1.len() implies paired(
        p2,
        to((#[trigger] p1[k]).0),
        to(p1[k].1),
    ) by {
        let p = p1[k];
        assert(p1.contains(p));
        joined_stays_listed(e1, cu, f.touching@, p);
        let q = choose|q: int|
            0 <= q < f.touching@.len() && joins_at(e1, cu, #[trigger] f.touching@[q], p);
        assert(touch_at(g.touching@, moved(at, p.0), moved(at, p.1)));
        let r = choose|r: int|
            0 <= r < g.touching@.len() && (#[trigger] g.touching@[r]).0 == moved(at, p.0)
                && g.touching@[r].1 == moved(at, p.1);
        elements_move(b, c, p.0);
        elements_move(b, c, p.1);
        let m = (moved(at, p.0), moved(at, p.1));
        assert(joins_at(e2, cu, g.touching@[r], m));
        joined_stays_listed(e2, cu, g.touching@, m);
        let i = choose|i: int| 0 <= i < p2.len() && p2[i] == m;
        assert(p2[i] == m);
    }
    walks_carry_over(p1, p2, to, from1 + x, from1 + y);
    pads_move(b, c, x);
    pads_move(b, c, y);
    assert(e2.len() == from2 + footprint_elements(b2.footprints, net).len() + zone_elements(
        b2.zones,
        net,
    ).len());
    sets_are_connected_parts(e2.len(), p2, from2 + x, from2 + y);
}

proof fn coarser_has_fewer(a: Seq<int>, b: Seq<int>)
    requires
        a.len() == b.len(),
        forall|x: int, y: int|
            0 <= x < a.len() && 0 <= y < a.len() && (#[trigger] a[x]) == (#[trigger] a[y]) ==> b[x]
                == b[y],
    ensures
        distinct(b).len() <= distinct(a).len() <= a.len(),
    decreases a.len(),
{
    if a.len() > 0 {
        let fa = a.drop_last();
        let fb = b.drop_last();
        let last = a.len() - 1;
        assert forall|x: int, y: int|
            0 <= x < fa.len() && 0 <= y < fa.len() && (#[trigger] fa[x]) == (
            #[trigger] fa[y]) implies fb[x] == fb[y] by {
            assert(a[x] == a[y]);
        }
        coarser_has_fewer(fa, fb);
        distinct_holds(fa, a[last]);
        distinct_holds(fb, b[last]);
        if fa.contains(a[last]) {
            let k = choose|k: int| 0 <= k < fa.len() && fa[k] == a[last];
            assert(a[k] == a[last]);
            assert(fb[k] == b[last]);
        }
    }
}

proof fn nets_stay_used(b: BoardModelV, c: Addition, net: i64)
    requires
        net_in_use(b, net_of(c)),
    ensures
        net_in_use(with_copper(b, c), net) == net_in_use(b, net),
{
    let b2 = with_copper(b, c);
    assert(forall|i: int| 0 <= i < b.tracks.len() ==> b2.tracks[i] == b.tracks[i]);
    assert(forall|i: int| 0 <= i < b.arcs.len() ==> b2.arcs[i] == b.arcs[i]);
    assert(forall|i: int| 0 <= i < b.vias.len() ==> b2.vias[i] == b.vias[i]);
    assert(forall|i: int| 0 <= i < b.zones.len() ==> b2.zones[i] == b.zones[i]);
    assert(net_in_use(b, net) ==> net_in_use(b2, net)) by {
        if net_in_use(b, net) {
            if exists|i: int| 0 <= i < b.tracks.len() && (#[trigger] b.tracks[i]).net == net {
                let i = choose|i: int| 0 <= i < b.tracks.len() && (#[trigger] b.tracks[i]).net == net;
                assert(b2.tracks[i].net == net);
            } else if exists|i: int| 0 <= i < b.arcs.len() && (#[trigger] b.arcs[i]).net == net {
                let i = choose|i: int| 0 <= i < b.arcs.len() && (#[trigger] b.arcs[i]).net == net;
                assert(b2.arcs[i].net == net);
            } else if exists|i: int| 0 <= i < b.vias.len() && (#[trigger] b.vias[i]).net == net {
                let i = choose|i: int| 0 <= i < b.vias.len() && (#[trigger] b.vias[i]).net == net;
                assert(b2.vias[i].net == net);
            } else if exists|i: int|
                0 <= i < b.zones.len() && (#[trigger] b.zones[i]).net == net
                    && b.zones[i].filled_polygons.len() > 0 {
                let i = choose|i: int|
                    0 <= i < b.zones.len() && (#[trigger] b.zones[i]).net == net
                        && b.zones[i].filled_polygons.len() > 0;
                assert(b2.zones[i] == b.zones[i]);
                assert(b2.zones[i].net == net && b2.zones[i].filled_polygons.len() > 0);
            } else {
                let i = choose|i: int|
                    0 <= i < b.footprints.len() && pads_hold((#[trigger] b.footprints[i]).pads, net);
                assert(b2.footprints == b.footprints);
                assert(pads_hold(b2.footprints[i].pads, net));
            }
        }
    }
}

proof fn used_stays(b: BoardModelV, c: Addition, n: int)
    requires
        net_in_use(b, net_of(c)),
        n <= b.nets.len(),
    ensures
        used_of(with_copper(b, c), n) == used_of(b, n),
    decreases n,
{
    if n > 0 {
        used_stays(b, c, n - 1);
        nets_stay_used(b, c, b.nets[n - 1].0);
    }
}

proof fn used_are_in_use(b: BoardModelV, n: int, i: int)
    requires
        n <= b.nets.len(),
        0 <= i < used_of(b, n).len(),
    ensures
        net_in_use(b, used_of(b, n)[i]),
    decreases n,
{
    if n > 0 && i < used_of(b, n - 1).len() {
        used_are_in_use(b, n - 1, i);
    }
}

/// More copper on a net never splits it: its pads belong to no more parts than before, and stay
/// connected where they were; its pads and the shortest tree over them stay as they are.
pub proof fn more_copper_never_splits(b: BoardModelV, c: Addition, f: NetFacts, g: NetFacts)
    requires
        still_holds(elements_of(b, net_of(c)).len(), place_of(b, c), f, g),
        footprint_elements(b.footprints, net_of(c)).len() <= usize::MAX,
    ensures
        ({
            let before = stats_of(b, net_of(c), f);
            let after = stats_of(with_copper(b, c), net_of(c), g);
            &&& after.pad_components <= before.pad_components
            &&& before.connected ==> after.connected
            &&& after.pad_count == before.pad_count
            &&& after.mst_length == before.mst_length
        }),
{
    let net = net_of(c);
    let b2 = with_copper(b, c);
    let parts1 = pad_parts(b, net, f.touching@);
    let parts2 = pad_parts(b2, net, g.touching@);
    assert forall|x: int, y: int|
        0 <= x < parts1.len() && 0 <= y < parts1.len() && (#[trigger] parts1[x]) == (
        #[trigger] parts1[y]) implies parts2[x] == parts2[y] by {
        pads_stay_joined(b, c, f, g, x, y);
    }
    coarser_has_fewer(parts1, parts2);
}

/// Copper on one net leaves the statistics of every other net alone.
pub proof fn other_nets_stay(b: BoardModelV, c: Addition, net: i64, f: NetFacts)
    requires
        net != net_of(c),
    ensures
        stats_of(with_copper(b, c), net, f) == stats_of(b, net, f),
{
    let b2 = with_copper(b, c);
    elements_elsewhere(b, c, net);
    assert(wires_of(b2, net) =~= wires_of(b, net));
    assert(elements_of(b2, net) =~= elements_of(b, net));
    assert(pad_parts(b2, net, f.touching@) =~= pad_parts(b, net, f.touching@));
}

/// Copper on a net that is in use: the same nets have statistics, those of every other net are as
/// they were, and those of its own net do not get worse in what its pads are joined to.
pub proof fn more_copper_keeps_statistics(
    b: BoardModelV,
    c: Addition,
    f: Seq<NetFacts>,
    g: Seq<NetFacts>,
    i: int,
)
    requires
        used_nets(b).contains(net_of(c)),
        f.len() == used_nets(b).len(),
        g.len() == used_nets(b).len(),
        0 <= i < f.len(),
        used_nets(b)[i] != net_of(c) ==> g[i] == f[i],
        used_nets(b)[i] == net_of(c) ==> still_holds(
            elements_of(b, net_of(c)).len(),
            place_of(b, c),
            f[i],
            g[i],
        ),
        footprint_elements(b.footprints, net_of(c)).len() <= usize::MAX,
    ensures
        ({
            let before = all_stats(b, f)[i];
            let after = all_stats(with_copper(b, c), g)[i];
            &&& used_nets(with_copper(b, c)) == used_nets(b)
            &&& used_nets(b)[i] != net_of(c) ==> after == before
            &&& after.pad_components <= before.pad_components
            &&& before.connected ==> after.connected
            &&& after.pad_count == before.pad_count
            &&& after.mst_length == before.mst_length
        }),
{
    let n = b.nets.len() as int;
    let k = choose|k: int| 0 <= k < used_nets(b).len() && used_nets(b)[k] == net_of(c);
    used_are_in_use(b, n, k);
    used_stays(b, c, n);
    if used_nets(b)[i] == net_of(c) {
        more_copper_never_splits(b, c, f[i], g[i]);
    } else {
        other_nets_stay(b, c, used_nets(b)[i], f[i]);
    }
}

/// A piece of copper with its geometry; a pad with the footprint that places it.
pub enum Shape {
    Track(TrackV),
    Arc(ArcTrackV),
    Via(ViaV),
    Pad(FootprintV, PadV),
    Fill(ZonePolygonV),
}

/// The tracks of a net.
pub open spec fn track_shapes(items: Seq<TrackV>, net: i64) -> Seq<Shape>
    decreases items.len(),
{
    if items.len() == 0 {
        Seq::empty()
    } else if items.last().net == net {
        track_shapes(items.drop_last(), net).push(Shape::Track(items.last()))
    } else {
        track_shapes(items.drop_last(), net)
    }
}

/// The arcs of a net.
pub open spec fn arc_shapes(items: Seq<ArcTrackV>, net: i64) -> Seq<Shape>
    decreases items.len(),
{
    if items.len() == 0 {
        Seq::empty()
    } else if items.last().net == net {
        arc_shapes(items.drop_last(), net).push(Shape::Arc(items.last()))
    } else {
        arc_shapes(items.drop_last(), net)
    }
}

/// The vias of a net.
pub open spec fn via_shapes(items: Seq<ViaV>, net: i64) -> Seq<Shape>
    decreases items.len(),
{
    if items.len() == 0 {
        Seq::empty()
    } else if items.last().net == net {
        via_shapes(items.drop_last(), net).push(Shape::Via(items.last()))
    } else {
        via_shapes(items.drop_last(), net)
    }
}

/// The pads of a net among those of a footprint.
pub open spec fn pad_shapes(f: FootprintV, items: Seq<PadV>, net: i64) -> Seq<Shape>
    decreases items.len(),
{
    if items.len() == 0 {
        Seq::empty()
    } else if items.last().net == Some(net) {
        pad_shapes(f, items.drop_last(), net).push(Shape::Pad(f, items.last()))
    } else {
        pad_shapes(f, items.drop_last(), net)
    }
}

/// The pads of a net.
pub open spec fn footprint_shapes(items: Seq<FootprintV>, net: i64) -> Seq<Shape>
    decreases items.len(),
{
    if items.len() == 0 {
        Seq::empty()
    } else {
        footprint_shapes(items.drop_last(), net) + pad_shapes(items.last(), items.last().pads, net)
    }
}

/// Filled areas.
pub open spec fn fill_shapes(items: Seq<ZonePolygonV>) -> Seq<Shape> {
    Seq::new(items.len(), |i: int| Shape::Fill(items[i]))
}

/// The filled areas of a net.
pub open spec fn zone_shapes(items: Seq<ZoneV>, net: i64) -> Seq<Shape>
    decreases items.len(),
{
    if items.len() == 0 {
        Seq::empty()
    } else if items.last().net == net {
        zone_shapes(items.drop_last(), net) + fill_shapes(items.last().filled_polygons)
    } else {
        zone_shapes(items.drop_last(), net)
    }
}

/// The copper of a net with its geometry, in the order of its pieces.
pub open spec fn shapes_of(b: BoardModelV, net: i64) -> Seq<Shape> {
    track_shapes(b.tracks, net) + arc_shapes(b.arcs, net) + via_shapes(b.vias, net)
        + footprint_shapes(b.footprints, net) + zone_shapes(b.zones, net)
}

/// The shapes of the copper that is added.
pub open spec fn added_shapes(c: Addition) -> Seq<Shape> {
    match c {
        Addition::Track(t) => seq![Shape::Track(t)],
        Addition::Arc(t) => seq![Shape::Arc(t)],
        Addition::Via(t) => seq![Shape::Via(t)],
        Addition::Zone(t) => fill_shapes(t.filled_polygons),
    }
}

/// The shape is a pad.
pub open spec fn is_pad() -> spec_fn(Shape) -> bool {
    |s: Shape| s is Pad
}

/// What is measured of the copper goes by its shapes: which pieces lie on each other depends on the
/// two pieces, and how long the shortest tree is on the pads.
pub open spec fn goes_by_shapes(
    f: NetFacts,
    s: Seq<Shape>,
    touch: spec_fn(Shape, Shape) -> bool,
    tree: spec_fn(Seq<Shape>) -> Real,
) -> bool {
    &&& f.mst_length == tree(only(s, is_pad()))
    &&& forall|k: int|
        0 <= k < f.touching@.len() ==> (#[trigger] f.touching@[k]).0 < f.touching@[k].1 < s.len()
    &&& forall|i: int, j: int|
        0 <= i < j < s.len() ==> (#[trigger] touch_at(f.touching@, i, j) <==> touch(s[i], s[j]))
}

/// What is measured of the used nets of a board.
pub open spec fn measured_nets(
    b: BoardModelV,
    measure: spec_fn(Seq<Shape>) -> NetFacts,
) -> Seq<NetFacts> {
    Seq::new(used_nets(b).len(), |i: int| measure(shapes_of(b, used_nets(b)[i])))
}

proof fn track_counts(items: Seq<TrackV>, net: i64)
    ensures
        track_shapes(items, net).len() == track_elements(items, net).len(),
    decreases items.len(),
{
    if items.len() > 0 {
        track_counts(items.drop_last(), net);
    }
}

proof fn arc_counts(items: Seq<ArcTrackV>, net: i64)
    ensures
        arc_shapes(items, net).len() == arc_elements(items, net).len(),
    decreases items.len(),
{
    if items.len() > 0 {
        arc_counts(items.drop_last(), net);
    }
}

proof fn via_counts(items: Seq<ViaV>, net: i64)
    ensures
        via_shapes(items, net).len() == via_elements(items, net).len(),
    decreases items.len(),
{
    if items.len() > 0 {
        via_counts(items.drop_last(), net);
    }
}

proof fn pad_counts(f: FootprintV, items: Seq<PadV>, net: i64)
    ensures
        pad_shapes(f, items, net).len() == pad_elements(items, net).len(),
    decreases items.len(),
{
    if items.len() > 0 {
        pad_counts(f, items.drop_last(), net);
    }
}

proof fn footprint_counts(items: Seq<FootprintV>, net: i64)
    ensures
        footprint_shapes(items, net).len() == footprint_elements(items, net).len(),
    decreases items.len(),
{
    if items.len() > 0 {
        footprint_counts(items.drop_last(), net);
        pad_counts(items.last(), items.last().pads, net);
    }
}

proof fn zone_counts(items: Seq<ZoneV>, net: i64)
    ensures
        zone_shapes(items, net).len() == zone_elements(items, net).len(),
    decreases items.len(),
{
    if items.len() > 0 {
        zone_counts(items.drop_last(), net);
    }
}

/// The copper of a net has as many shapes as pieces.
pub proof fn shapes_are_pieces(b: BoardModelV, net: i64)
    ensures
        track_shapes(b.tracks, net).len() == track_elements(b.tracks, net).len(),
        arc_shapes(b.arcs, net).len() == arc_elements(b.arcs, net).len(),
        via_shapes(b.vias, net).len() == via_elements(b.vias, net).len(),
        footprint_shapes(b.footprints, net).len() == footprint_elements(b.footprints, net).len(),
        zone_shapes(b.zones, net).len() == zone_elements(b.zones, net).len(),
        shapes_of(b, net).len() == elements_of(b, net).len(),
{
    track_counts(b.tracks, net);
    arc_counts(b.arcs, net);
    via_counts(b.vias, net);
    footprint_counts(b.footprints, net);
    zone_counts(b.zones, net);
}

proof fn shapes_elsewhere(b: BoardModelV, c: Addition, net: i64)
    requires
        net != net_of(c),
    ensures
        shapes_of(with_copper(b, c), net) == shapes_of(b, net),
{
    match c {
        Addition::Track(t) => {
            assert(b.tracks.push(t).drop_last() =~= b.tracks);
        },
        Addition::Arc(t) => {
            assert(b.arcs.push(t).drop_last() =~= b.arcs);
        },
        Addition::Via(t) => {
            assert(b.vias.push(t).drop_last() =~= b.vias);
        },
        Addition::Zone(t) => {
            assert(b.zones.push(t).drop_last() =~= b.zones);
        },
    }
}

proof fn shapes_make_room(b: BoardModelV, c: Addition)
    ensures
        0 <= place_of(b, c) <= shapes_of(b, net_of(c)).len(),
        shapes_of(with_copper(b, c), net_of(c)) == shapes_of(b, net_of(c)).take(place_of(b, c))
            + added_shapes(c) + shapes_of(b, net_of(c)).skip(place_of(b, c)),
{
    let net = net_of(c);
    shapes_are_pieces(b, net);
    let s = shapes_of(b, net);
    let at = place_of(b, c);
    let more = s.take(at) + added_shapes(c) + s.skip(at);
    let t = track_shapes(b.tracks, net);
    let a = arc_shapes(b.arcs, net);
    let v = via_shapes(b.vias, net);
    let p = footprint_shapes(b.footprints, net);
    let z = zone_shapes(b.zones, net);
    match c {
        Addition::Track(x) => {
            assert(b.tracks.push(x).drop_last() =~= b.tracks);
            assert(t.push(Shape::Track(x)) + a + v + p + z =~= more);
        },
        Addition::Arc(x) => {
            assert(b.arcs.push(x).drop_last() =~= b.arcs);
            assert(t + a.push(Shape::Arc(x)) + v + p + z =~= more);
        },
        Addition::Via(x) => {
            assert(b.vias.push(x).drop_last() =~= b.vias);
            assert(t + a + v.push(Shape::Via(x)) + p + z =~= more);
        },
        Addition::Zone(x) => {
            assert(b.zones.push(x).drop_last() =~= b.zones);
            assert(t + a + v + p + (z + fill_shapes(x.filled_polygons)) =~= more);
        },
    }
}

proof fn only_joins(x: Seq<Shape>, y: Seq<Shape>)
    ensures
        only(x + y, is_pad()) == only(x, is_pad()) + only(y, is_pad()),
    decreases y.len(),
{
    if y.len() == 0 {
        assert(x + y =~= x);
        assert(only(x, is_pad()) + only(y, is_pad()) =~= only(x, is_pad()));
    } else {
        only_joins(x, y.drop_last());
        assert((x + y).drop_last() =~= x + y.drop_last());
        assert(only(x + y, is_pad()) =~= only(x, is_pad()) + only(y, is_pad()));
    }
}

proof fn no_pads(s: Seq<Shape>)
    requires
        forall|i: int| 0 <= i < s.len() ==> !((#[trigger] s[i]) is Pad),
    ensures
        only(s, is_pad()) == Seq::<Shape>::empty(),
    decreases s.len(),
{
    if s.len() > 0 {
        no_pads(s.drop_last());
        assert(!(s[s.len() - 1] is Pad));
    }
}

proof fn what_was_measured_holds(
    b: BoardModelV,
    c: Addition,
    measure: spec_fn(Seq<Shape>) -> NetFacts,
    touch: spec_fn(Shape, Shape) -> bool,
    tree: spec_fn(Seq<Shape>) -> Real,
)
    requires
        goes_by_shapes(
            measure(shapes_of(b, net_of(c))),
            shapes_of(b, net_of(c)),
            touch,
            tree,
        ),
        goes_by_shapes(
            measure(shapes_of(with_copper(b, c), net_of(c))),
            shapes_of(with_copper(b, c), net_of(c)),
            touch,
            tree,
        ),
    ensures
        still_holds(
            elements_of(b, net_of(c)).len(),
            place_of(b, c),
            measure(shapes_of(b, net_of(c))),
            measure(shapes_of(with_copper(b, c), net_of(c))),
        ),
{
    let net = net_of(c);
    let at = place_of(b, c);
    let s = shapes_of(b, net);
    let r = shapes_of(with_copper(b, c), net);
    let new = added_shapes(c);
    let f = measure(s);
    let g = measure(r);
    shapes_are_pieces(b, net);
    shapes_make_room(b, c);
    only_joins(s.take(at) + new, s.skip(at));
    only_joins(s.take(at), new);
    only_joins(s.take(at), s.skip(at));
    assert(s.take(at) + s.skip(at) =~= s);
    no_pads(new);
    assert(only(s.take(at), is_pad()) + Seq::<Shape>::empty() =~= only(s.take(at), is_pad()));
    assert(g.mst_length == f.mst_length);
    assert forall|k: int|
        0 <= k < f.touching@.len() && (#[trigger] f.touching@[k]).0 < s.len() && f.touching@[k].1
            < s.len() implies touch_at(
        g.touching@,
        moved(at, f.touching@[k].0 as int),
        moved(at, f.touching@[k].1 as int),
    ) by {
        let i = f.touching@[k].0 as int;
        let j = f.touching@[k].1 as int;
        assert(i < j);
        assert(touch_at(f.touching@, i, j));
        assert(touch(s[i], s[j]));
        let x = moved(at, i);
        let y = moved(at, j);
        assert(r[x] == s[i]) by {
            if i >= at {
                assert(new.len() == 1);
                assert(r[x] == s.skip(at)[i - at]);
            }
        }
        assert(r[y] == s[j]) by {
            if j >= at {
                assert(new.len() == 1);
                assert(r[y] == s.skip(at)[j - at]);
            }
        }
        assert(0 <= x < y < r.len());
        assert(touch_at(g.touching@, x, y));
    }
}

/// More copper on a net of a board, whatever the geometry, as long as what is measured of a net goes
/// by its shapes alone: the same nets have statistics, those of every other net are as they were, and on its
/// own net the pads belong to no more parts, stay connected where they were, and are as many and
/// as far apart.
pub proof fn more_copper_on_a_board(
    b: BoardModelV,
    c: Addition,
    measure: spec_fn(Seq<Shape>) -> NetFacts,
    touch: spec_fn(Shape, Shape) -> bool,
    tree: spec_fn(Seq<Shape>) -> Real,
    i: int,
)
    requires
        goes_by_shapes(
            measure(shapes_of(b, net_of(c))),
            shapes_of(b, net_of(c)),
            touch,
            tree,
        ),
        goes_by_shapes(
            measure(shapes_of(with_copper(b, c), net_of(c))),
            shapes_of(with_copper(b, c), net_of(c)),
            touch,
            tree,
        ),
        used_nets(b).contains(net_of(c)),
        0 <= i < used_nets(b).len(),
        footprint_elements(b.footprints, net_of(c)).len() <= usize::MAX,
    ensures
        ({
            let b2 = with_copper(b, c);
            let before = all_stats(b, measured_nets(b, measure))[i];
            let after = all_stats(b2, measured_nets(b2, measure))[i];
            &&& used_nets(b2) == used_nets(b)
            &&& used_nets(b)[i] != net_of(c) ==> after == before
            &&& after.pad_components <= before.pad_components
            &&& before.connected ==> after.connected
            &&& after.pad_count == before.pad_count
            &&& after.mst_length == before.mst_length
        }),
{
    let b2 = with_copper(b, c);
    let n = b.nets.len() as int;
    let k = choose|k: int| 0 <= k < used_nets(b).len() && used_nets(b)[k] == net_of(c);
    used_are_in_use(b, n, k);
    used_stays(b, c, n);
    let net = used_nets(b)[i];
    if net == net_of(c) {
        what_was_measured_holds(b, c, measure, touch, tree);
    } else {
        shapes_elsewhere(b, c, net);
    }
    more_copper_keeps_statistics(b, c, measured_nets(b, measure), measured_nets(b2, measure), i);
}

} // verus!
