//! The copper of a net as a network of nodes and links, through which declared currents flow.
use vstd::prelude::*;

use crate::number::{below, no_number, place, Real};
use crate::order::as_ints;
use crate::score::airwires::{find_net_pads, net_pads};
use crate::score::board::{BoardModel, BoardModelV, PadV, Track, TrackV, Via, ViaV};
use crate::score::metrics::crosstalk_select::{find_layer_place, layer_place};
use crate::score::metrics::esd_select::{on_board, pad_at, PadAt};
use crate::score::net_graph::{spans, via_spans_layer};
use crate::select::{asks, find_places, places, Test};
use crate::text::same;

verus! {

/// The largest number of nodes that are solved for.
pub const MAX_NODES: usize = 1500;

/// One millimetre: the farthest that a current may be off the node where it enters or leaves.
pub const SNAP: u64 = 0x3ff0_0000_0000_0000;

/// A node: a grid point on a copper layer, by the place of the layer.
#[derive(Clone, Copy, Debug, PartialEq, Eq, Structural)]
pub struct NodeKey {
    pub x: i64,
    pub y: i64,
    pub layer: usize,
}

/// A link between two nodes: a track of the net by its place among them, else a bridge.
#[derive(Clone, Copy, Debug, PartialEq, Eq, Structural)]
pub struct Link {
    pub a: usize,
    pub b: usize,
    pub track: Option<usize>,
}

/// A network of copper.
pub struct FlowGraph {
    pub nodes: Vec<NodeKey>,
    pub links: Vec<Link>,
    /// The nodes of pads, each with the place of the pad among those of the net.
    pub pads: Vec<(usize, usize)>,
}

/// The value of a `FlowGraph`.
#[verifier::ext_equal]
pub struct GraphV {
    pub nodes: Seq<NodeKey>,
    pub links: Seq<Link>,
    pub pads: Seq<(usize, usize)>,
}

impl DeepView for FlowGraph {
    type V = GraphV;

    open spec fn deep_view(&self) -> GraphV {
        GraphV { nodes: self.nodes@, links: self.links@, pads: self.pads@ }
    }
}

/// The grid points of the copper of a net.
pub struct FlowKeys {
    /// For each track of the net its two ends.
    pub tracks: Vec<((i64, i64), (i64, i64))>,
    /// For each via of the net.
    pub vias: Vec<(i64, i64)>,
    /// For each pad of the net.
    pub pads: Vec<(i64, i64)>,
}

/// The network without copper.
pub open spec fn empty_graph() -> GraphV {
    GraphV { nodes: Seq::empty(), links: Seq::empty(), pads: Seq::empty() }
}

/// The place of a node, which is the number of nodes where it is not among them.
pub open spec fn node_place(nodes: Seq<NodeKey>, key: NodeKey) -> int
    decreases nodes.len(),
{
    if nodes.len() == 0 {
        0
    } else if nodes.drop_last().contains(key) {
        node_place(nodes.drop_last(), key)
    } else if nodes.last() == key {
        nodes.len() - 1
    } else {
        nodes.len() as int
    }
}

/// The nodes with the given one among them.
pub open spec fn with_node(nodes: Seq<NodeKey>, key: NodeKey) -> Seq<NodeKey> {
    if nodes.contains(key) {
        nodes
    } else {
        nodes.push(key)
    }
}

/// The network with a link between two nodes.
pub open spec fn with_link(g: GraphV, a: NodeKey, b: NodeKey, track: Option<usize>) -> GraphV {
    let first = with_node(g.nodes, a);
    let both = with_node(first, b);
    GraphV {
        nodes: both,
        links: g.links.push(
            Link {
                a: node_place(first, a) as usize,
                b: node_place(both, b) as usize,
                track,
            },
        ),
        pads: g.pads,
    }
}

proof fn node_is_there(nodes: Seq<NodeKey>, key: NodeKey)
    ensures
        0 <= node_place(nodes, key) <= nodes.len(),
        nodes.contains(key) ==> node_place(nodes, key) < nodes.len() && nodes[node_place(
            nodes,
            key,
        )] == key,
        !nodes.contains(key) ==> node_place(nodes, key) == nodes.len(),
    decreases nodes.len(),
{
    if nodes.len() > 0 {
        let front = nodes.drop_last();
        node_is_there(front, key);
        if front.contains(key) {
            let i = choose|i: int| 0 <= i < front.len() && front[i] == key;
            assert(nodes[i] == key);
        } else if nodes.contains(key) {
            let i = choose|i: int| 0 <= i < nodes.len() && nodes[i] == key;
            if i < front.len() {
                assert(front[i] == key);
            }
        } else if nodes.last() == key {
            assert(nodes[nodes.len() - 1] == key);
        }
    }
}

proof fn place_is_unique(nodes: Seq<NodeKey>, key: NodeKey, i: int)
    requires
        0 <= i < nodes.len(),
        nodes[i] == key,
        nodes.no_duplicates(),
    ensures
        node_place(nodes, key) == i,
{
    node_is_there(nodes, key);
    assert(nodes.contains(key));
}

/// Nodes are different from each other, and links and pads are at nodes.
pub open spec fn is_sound(g: GraphV) -> bool {
    &&& g.nodes.no_duplicates()
    &&& forall|i: int|
        0 <= i < g.links.len() ==> (#[trigger] g.links[i]).a < g.nodes.len() && g.links[i].b
            < g.nodes.len()
    &&& forall|i: int| 0 <= i < g.pads.len() ==> (#[trigger] g.pads[i]).0 < g.nodes.len()
}

impl FlowGraph {
    fn node(&mut self, key: NodeKey) -> (r: usize)
        requires
            is_sound(old(self).deep_view()),
        ensures
            final(self).deep_view() == (GraphV {
                nodes: with_node(old(self).deep_view().nodes, key),
                ..old(self).deep_view()
            }),
            r == node_place(with_node(old(self).deep_view().nodes, key), key),
            r < final(self).nodes@.len(),
            is_sound(final(self).deep_view()),
    {
        let ghost before = self.nodes@;
        let n: usize = self.nodes.len();
        let mut i: usize = 0;
        while i < n
            invariant
                *self == *old(self),
                n == self.nodes@.len(),
                i <= n,
                before == self.nodes@,
                is_sound(self.deep_view()),
                forall|j: int| 0 <= j < i ==> before[j] != key,
            decreases n - i,
        {
            if self.nodes[i] == key {
                proof {
                    assert(before.contains(key));
                    place_is_unique(before, key, i as int);
                }
                return i;
            }
            i += 1;
        }
        assert(!before.contains(key));
        self.nodes.push(key);
        proof {
            let after = before.push(key);
            assert(after[n as int] == key);
            place_is_unique(after, key, n as int);
        }
        n
    }

    fn link(&mut self, a: NodeKey, b: NodeKey, track: Option<usize>)
        requires
            is_sound(old(self).deep_view()),
        ensures
            final(self).deep_view() == with_link(old(self).deep_view(), a, b, track),
            is_sound(final(self).deep_view()),
    {
        let ghost before = self.deep_view();
        let i: usize = self.node(a);
        let j: usize = self.node(b);
        let link = Link { a: i, b: j, track };
        self.links.push(link);
        assert(self.deep_view() =~= with_link(before, a, b, track));
    }
}

/// A link keeps a network sound.
pub proof fn links_keep_soundness(g: GraphV, a: NodeKey, b: NodeKey, track: Option<usize>)
    requires
        is_sound(g),
        g.nodes.len() + 2 <= usize::MAX,
    ensures
        is_sound(with_link(g, a, b, track)),
{
    let first = with_node(g.nodes, a);
    let both = with_node(first, b);
    node_is_there(first, a);
    node_is_there(both, b);
    assert(first.contains(a)) by {
        if !g.nodes.contains(a) {
            assert(first[first.len() - 1] == a);
        }
    }
    assert(both.contains(b)) by {
        if !first.contains(b) {
            assert(both[both.len() - 1] == b);
        }
    }
}

/// The tracks of a net.
pub open spec fn net_tracks(b: BoardModelV, net: i64) -> Seq<int> {
    places(b.tracks, |t: TrackV| t.net == net)
}

/// The vias of a net.
pub open spec fn net_vias(b: BoardModelV, net: i64) -> Seq<int> {
    places(b.vias, |v: ViaV| v.net == net)
}

struct OfNet {
    net: i64,
}

impl Test<Track> for OfNet {
    closed spec fn passes(&self, x: TrackV) -> bool {
        x.net == self.net
    }

    fn check(&self, x: &Track) -> (r: bool) {
        x.net == self.net
    }
}

impl Test<Via> for OfNet {
    closed spec fn passes(&self, x: ViaV) -> bool {
        x.net == self.net
    }

    fn check(&self, x: &Via) -> (r: bool) {
        x.net == self.net
    }
}

/// The tracks of a net.
pub fn find_net_tracks(board: &BoardModel, net: i64) -> (r: Vec<usize>)
    ensures
        as_ints(r@) == net_tracks(board.deep_view(), net),
        forall|i: int| 0 <= i < r@.len() ==> (#[trigger] r@[i]) < board.tracks@.len(),
{
    let test = OfNet { net };
    let r = find_places(&board.tracks, &test);
    assert(asks::<Track, OfNet>(test) =~= |t: TrackV| t.net == net);
    r
}

/// The vias of a net.
pub fn find_net_vias(board: &BoardModel, net: i64) -> (r: Vec<usize>)
    ensures
        as_ints(r@) == net_vias(board.deep_view(), net),
        forall|i: int| 0 <= i < r@.len() ==> (#[trigger] r@[i]) < board.vias@.len(),
{
    let test = OfNet { net };
    let r = find_places(&board.vias, &test);
    assert(asks::<Via, OfNet>(test) =~= |v: ViaV| v.net == net);
    r
}

/// The network of the first `n` tracks; nothing where one of them is on no copper layer.
pub open spec fn track_graph(
    b: BoardModelV,
    at: Seq<int>,
    keys: Seq<((i64, i64), (i64, i64))>,
    n: int,
) -> Option<GraphV>
    decreases n,
{
    if n <= 0 {
        Some(empty_graph())
    } else {
        match (
            track_graph(b, at, keys, n - 1),
            layer_place(b.copper_layers, b.tracks[at[n - 1]].layer),
        ) {
            (Some(g), Some(l)) => {
                let k = keys[n - 1];
                Some(
                    with_link(
                        g,
                        NodeKey { x: k.0.0, y: k.0.1, layer: l as usize },
                        NodeKey { x: k.1.0, y: k.1.1, layer: l as usize },
                        Some((n - 1) as usize),
                    ),
                )
            },
            _ => None,
        }
    }
}

/// The places of the first `n` copper layers that a via spans.
pub open spec fn spanned(b: BoardModelV, via: ViaV, n: int) -> Seq<usize>
    decreases n,
{
    if n <= 0 {
        Seq::empty()
    } else {
        let front = spanned(b, via, n - 1);
        if spans(via.layers, b.copper_layers[n - 1], b.copper_layers) {
            front.push((n - 1) as usize)
        } else {
            front
        }
    }
}

/// The network with links at one point from each of the first `n` layers to the next.
pub open spec fn with_barrel(g: GraphV, key: (i64, i64), layers: Seq<usize>, n: int) -> GraphV
    decreases n,
{
    if n <= 1 {
        g
    } else {
        with_link(
            with_barrel(g, key, layers, n - 1),
            NodeKey { x: key.0, y: key.1, layer: layers[n - 2] },
            NodeKey { x: key.0, y: key.1, layer: layers[n - 1] },
            None,
        )
    }
}

/// The network with the first `n` vias.
pub open spec fn with_vias(
    g: GraphV,
    b: BoardModelV,
    at: Seq<int>,
    keys: Seq<(i64, i64)>,
    n: int,
) -> GraphV
    decreases n,
{
    if n <= 0 {
        g
    } else {
        let layers = spanned(b, b.vias[at[n - 1]], b.copper_layers.len() as int);
        with_barrel(with_vias(g, b, at, keys, n - 1), keys[n - 1], layers, layers.len() as int)
    }
}

/// The places of those of the layers that are copper layers.
pub open spec fn copper_places(copper: Seq<Seq<char>>, layers: Seq<Seq<char>>) -> Seq<usize>
    decreases layers.len(),
{
    if layers.len() == 0 {
        Seq::empty()
    } else {
        let front = copper_places(copper, layers.drop_last());
        match layer_place(copper, layers.last()) {
            Some(l) => front.push(l as usize),
            None => front,
        }
    }
}

/// The copper layers of a pad: all of them for a hole, else those that it names.
pub open spec fn pad_layers(b: BoardModelV, p: PadV) -> Seq<usize> {
    if p.kind == "thru_hole"@ {
        Seq::new(b.copper_layers.len(), |i: int| i as usize)
    } else {
        copper_places(b.copper_layers, p.layers)
    }
}

/// The network with nodes for pad `k` on the first `n` layers, each linked to the one before.
pub open spec fn with_pad(g: GraphV, key: (i64, i64), layers: Seq<usize>, k: int, n: int) -> GraphV
    decreases n,
{
    if n <= 0 {
        g
    } else {
        let front = with_pad(g, key, layers, k, n - 1);
        let own = NodeKey { x: key.0, y: key.1, layer: layers[n - 1] };
        let nodes = with_node(front.nodes, own);
        let place = node_place(nodes, own) as usize;
        GraphV {
            nodes,
            links: if n >= 2 {
                front.links.push(Link { a: front.pads.last().0, b: place, track: None })
            } else {
                front.links
            },
            pads: front.pads.push((place, k as usize)),
        }
    }
}

/// The network with the first `n` pads.
pub open spec fn with_pads(
    g: GraphV,
    b: BoardModelV,
    pads: Seq<PadAt>,
    keys: Seq<(i64, i64)>,
    n: int,
) -> GraphV
    decreases n,
{
    if n <= 0 {
        g
    } else {
        let layers = pad_layers(b, pad_at(b, pads[n - 1]));
        with_pad(
            with_pads(g, b, pads, keys, n - 1),
            keys[n - 1],
            layers,
            n - 1,
            layers.len() as int,
        )
    }
}

/// The network of a net: its tracks, then its vias, then its pads. Nothing where a track is on no
/// copper layer.
pub open spec fn net_graph_of(b: BoardModelV, net: i64, keys: FlowKeys) -> Option<GraphV> {
    let tracks = net_tracks(b, net);
    let vias = net_vias(b, net);
    let pads = net_pads(b, Some(net));
    match track_graph(b, tracks, keys.tracks@, tracks.len() as int) {
        Some(g) => Some(
            with_pads(
                with_vias(g, b, vias, keys.vias@, vias.len() as int),
                b,
                pads,
                keys.pads@,
                pads.len() as int,
            ),
        ),
        None => None,
    }
}

/// There is a grid point for each piece of copper.
pub open spec fn keys_fit(b: BoardModelV, net: i64, keys: FlowKeys) -> bool {
    keys.tracks@.len() == net_tracks(b, net).len() && keys.vias@.len() == net_vias(b, net).len()
        && keys.pads@.len() == net_pads(b, Some(net)).len()
}

proof fn missing_layer(
    b: BoardModelV,
    at: Seq<int>,
    keys: Seq<((i64, i64), (i64, i64))>,
    i: int,
    n: int,
)
    requires
        0 <= i < n,
        layer_place(b.copper_layers, b.tracks[at[i]].layer) is None,
    ensures
        track_graph(b, at, keys, n) is None,
    decreases n,
{
    if i < n - 1 {
        missing_layer(b, at, keys, i, n - 1);
    }
}

fn start_graph(board: &BoardModel, tracks: &Vec<usize>, keys: &FlowKeys) -> (r: Option<FlowGraph>)
    requires
        tracks@.len() == keys.tracks@.len(),
        forall|i: int| 0 <= i < tracks@.len() ==> (#[trigger] tracks@[i]) < board.tracks@.len(),
    ensures
        r.deep_view() == track_graph(
            board.deep_view(),
            as_ints(tracks@),
            keys.tracks@,
            tracks@.len() as int,
        ),
        r matches Some(g) ==> is_sound(g.deep_view()),
{
    let ghost bv = board.deep_view();
    let ghost tv = as_ints(tracks@);
    let ghost kv = keys.tracks@;
    let mut g = FlowGraph { nodes: Vec::new(), links: Vec::new(), pads: Vec::new() };
    let n: usize = tracks.len();
    let mut i: usize = 0;
    assert(g.deep_view() =~= empty_graph());
    while i < n
        invariant
            n == tracks@.len(),
            n == keys.tracks@.len(),
            i <= n,
            bv == board.deep_view(),
            tv == as_ints(tracks@),
            kv == keys.tracks@,
            forall|j: int| 0 <= j < tracks@.len() ==> (#[trigger] tracks@[j]) < board.tracks@.len(),
            track_graph(bv, tv, kv, i as int) == Some(g.deep_view()),
            is_sound(g.deep_view()),
        decreases n - i,
    {
        let t: usize = tracks[i];
        assert(bv.tracks[t as int] == board.tracks@[t as int].deep_view());
        match find_layer_place(&board.copper_layers, board.tracks[t].layer.as_str()) {
            Some(l) => {
                let ((ax, ay), (cx, cy)) = keys.tracks[i];
                g.link(
                    NodeKey { x: ax, y: ay, layer: l },
                    NodeKey { x: cx, y: cy, layer: l },
                    Some(i),
                );
            },
            None => {
                proof {
                    missing_layer(bv, tv, kv, i as int, n as int);
                }
                return None;
            },
        }
        i += 1;
    }
    Some(g)
}

fn add_vias(g: &mut FlowGraph, board: &BoardModel, vias: &Vec<usize>, keys: &FlowKeys)
    requires
        is_sound(old(g).deep_view()),
        vias@.len() == keys.vias@.len(),
        forall|i: int| 0 <= i < vias@.len() ==> (#[trigger] vias@[i]) < board.vias@.len(),
    ensures
        final(g).deep_view() == with_vias(
            old(g).deep_view(),
            board.deep_view(),
            as_ints(vias@),
            keys.vias@,
            vias@.len() as int,
        ),
        is_sound(final(g).deep_view()),
{
    let ghost start = g.deep_view();
    let ghost bv = board.deep_view();
    let ghost vv = as_ints(vias@);
    let ghost kv = keys.vias@;
    let n: usize = vias.len();
    let c: usize = board.copper_layers.len();
    assert(bv.copper_layers.len() == c);
    let mut i: usize = 0;
    while i < n
        invariant
            n == vias@.len(),
            n == keys.vias@.len(),
            i <= n,
            c == board.copper_layers@.len(),
            bv.copper_layers.len() == c,
            bv == board.deep_view(),
            vv == as_ints(vias@),
            kv == keys.vias@,
            forall|j: int| 0 <= j < vias@.len() ==> (#[trigger] vias@[j]) < board.vias@.len(),
            g.deep_view() == with_vias(start, bv, vv, kv, i as int),
            is_sound(g.deep_view()),
        decreases n - i,
    {
        let v: usize = vias[i];
        let ghost own = bv.vias[v as int];
        assert(own == board.vias@[v as int].deep_view());
        let mut layers: Vec<usize> = Vec::new();
        let mut k: usize = 0;
        while k < c
            invariant
                k <= c,
                c == board.copper_layers@.len(),
                v < board.vias@.len(),
                bv == board.deep_view(),
                own == board.vias@[v as int].deep_view(),
                layers@ == spanned(bv, own, k as int),
            decreases c - k,
        {
            assert(bv.copper_layers[k as int] == board.copper_layers@[k as int]@);
            if via_spans_layer(
                &board.vias[v],
                board.copper_layers[k].as_str(),
                &board.copper_layers,
            ) {
                layers.push(k);
            }
            k += 1;
        }
        let (x, y) = keys.vias[i];
        let ghost base = g.deep_view();
        let m: usize = layers.len();
        let mut k: usize = 1;
        while k < m
            invariant
                m == layers@.len(),
                1 <= k,
                k <= m || k == 1,
                g.deep_view() == with_barrel(base, (x, y), layers@, k as int),
                is_sound(g.deep_view()),
            decreases m - k,
        {
            g.link(
                NodeKey { x, y, layer: layers[k - 1] },
                NodeKey { x, y, layer: layers[k] },
                None,
            );
            k += 1;
        }
        i += 1;
    }
}

fn find_pad_layers(board: &BoardModel, p: PadAt) -> (r: Vec<usize>)
    requires
        on_board(board.deep_view(), p),
    ensures
        r@ == pad_layers(board.deep_view(), pad_at(board.deep_view(), p)),
{
    let ghost bv = board.deep_view();
    assert(bv.footprints[p.footprint as int] == board.footprints@[p.footprint as int].deep_view());
    let pad = &board.footprints[p.footprint].pads[p.pad];
    assert(pad_at(bv, p) == pad.deep_view());
    let mut out: Vec<usize> = Vec::new();
    if same(pad.kind.as_str(), "thru_hole") {
        let n: usize = board.copper_layers.len();
        let mut i: usize = 0;
        while i < n
            invariant
                i <= n,
                out@.len() == i,
                forall|j: int| 0 <= j < i ==> out@[j] == j,
            decreases n - i,
        {
            out.push(i);
            i += 1;
        }
        assert(out@ =~= pad_layers(bv, pad_at(bv, p)));
    } else {
        let ghost cv = bv.copper_layers;
        let ghost lv = pad.layers.deep_view();
        let n: usize = pad.layers.len();
        let mut i: usize = 0;
        while i < n
            invariant
                n == pad.layers@.len(),
                i <= n,
                cv == board.copper_layers.deep_view(),
                lv == pad.layers.deep_view(),
                out@ == copper_places(cv, lv.take(i as int)),
            decreases n - i,
        {
            assert(lv.take(i + 1).drop_last() =~= lv.take(i as int));
            assert(lv[i as int] == pad.layers@[i as int]@);
            match find_layer_place(&board.copper_layers, pad.layers[i].as_str()) {
                Some(l) => {
                    out.push(l);
                },
                None => {},
            }
            i += 1;
        }
        assert(lv.take(n as int) =~= lv);
    }
    out
}

fn add_pads(g: &mut FlowGraph, board: &BoardModel, pads: &Vec<PadAt>, keys: &FlowKeys)
    requires
        is_sound(old(g).deep_view()),
        pads@.len() == keys.pads@.len(),
        forall|i: int| 0 <= i < pads@.len() ==> on_board(board.deep_view(), #[trigger] pads@[i]),
    ensures
        final(g).deep_view() == with_pads(
            old(g).deep_view(),
            board.deep_view(),
            pads@,
            keys.pads@,
            pads@.len() as int,
        ),
        is_sound(final(g).deep_view()),
{
    let ghost start = g.deep_view();
    let ghost bv = board.deep_view();
    let ghost kv = keys.pads@;
    let n: usize = pads.len();
    let mut i: usize = 0;
    while i < n
        invariant
            n == pads@.len(),
            n == keys.pads@.len(),
            i <= n,
            bv == board.deep_view(),
            kv == keys.pads@,
            forall|j: int| 0 <= j < pads@.len() ==> on_board(bv, #[trigger] pads@[j]),
            g.deep_view() == with_pads(start, bv, pads@, kv, i as int),
            is_sound(g.deep_view()),
        decreases n - i,
    {
        assert(on_board(bv, pads@[i as int]));
        let layers = find_pad_layers(board, pads[i]);
        let (x, y) = keys.pads[i];
        let ghost base = g.deep_view();
        let m: usize = layers.len();
        let mut prev: usize = 0;
        let mut k: usize = 0;
        while k < m
            invariant
                m == layers@.len(),
                k <= m,
                g.deep_view() == with_pad(base, (x, y), layers@, i as int, k as int),
                is_sound(g.deep_view()),
                k > 0 ==> g.pads@.len() > 0 && prev == g.pads@.last().0,
            decreases m - k,
        {
            let ghost front = g.deep_view();
            let own = NodeKey { x, y, layer: layers[k] };
            let place: usize = g.node(own);
            let ghost grown = g.deep_view();
            if k > 0 {
                assert(prev < front.nodes.len()) by {
                    assert(front.pads[front.pads.len() - 1].0 < front.nodes.len());
                }
                g.links.push(Link { a: prev, b: place, track: None });
            }
            g.pads.push((place, i));
            assert(g.deep_view() =~= with_pad(base, (x, y), layers@, i as int, k + 1));
            prev = place;
            k += 1;
        }
        i += 1;
    }
}

/// The network of a net, from the grid points of its copper. Nothing where a track is on no
/// copper layer.
pub fn build_flow_graph(board: &BoardModel, net: i64, keys: &FlowKeys) -> (r: Option<FlowGraph>)
    requires
        keys_fit(board.deep_view(), net, *keys),
    ensures
        r.deep_view() == net_graph_of(board.deep_view(), net, *keys),
        r matches Some(g) ==> is_sound(g.deep_view()),
{
    let tracks = find_net_tracks(board, net);
    let vias = find_net_vias(board, net);
    let pads = find_net_pads(board, Some(net));
    assert(as_ints(tracks@).len() == tracks@.len());
    assert(as_ints(vias@).len() == vias@.len());
    match start_graph(board, &tracks, keys) {
        Some(start) => {
            let mut g = start;
            add_vias(&mut g, board, &vias, keys);
            add_pads(&mut g, board, &pads, keys);
            Some(g)
        },
        None => None,
    }
}

/// Node `v` is bridged to pad node `k`: another node within the reach of the pad.
pub open spec fn bridges(g: GraphV, near: Seq<Seq<bool>>, v: int, k: int) -> bool {
    v != g.pads[k].0 && near[k][v]
}

/// The bridges from node `v` to the first `n` pad nodes.
pub open spec fn bridges_at(g: GraphV, near: Seq<Seq<bool>>, v: int, n: int) -> Seq<Link>
    decreases n,
{
    if n <= 0 {
        Seq::empty()
    } else {
        let front = bridges_at(g, near, v, n - 1);
        if bridges(g, near, v, n - 1) {
            front.push(Link { a: g.pads[n - 1].0, b: v as usize, track: None })
        } else {
            front
        }
    }
}

/// The bridges from the first `n` nodes to pad nodes.
pub open spec fn bridges_of(g: GraphV, near: Seq<Seq<bool>>, n: int) -> Seq<Link>
    decreases n,
{
    if n <= 0 {
        Seq::empty()
    } else {
        bridges_of(g, near, n - 1) + bridges_at(g, near, n - 1, g.pads.len() as int)
    }
}

/// The network with its pads bridged to the nodes within their reach.
pub open spec fn bridged(g: GraphV, near: Seq<Seq<bool>>) -> GraphV {
    GraphV { links: g.links + bridges_of(g, near, g.nodes.len() as int), ..g }
}

/// For each pad node and each node it is known whether the node is within reach.
pub open spec fn near_fits(g: GraphV, near: Seq<Seq<bool>>) -> bool {
    near.len() == g.pads.len() && forall|k: int|
        0 <= k < near.len() ==> (#[trigger] near[k]).len() == g.nodes.len()
}

impl FlowGraph {
    /// Bridges the pads to the nodes within their reach.
    pub fn bridge(&mut self, near: &Vec<Vec<bool>>)
        requires
            is_sound(old(self).deep_view()),
            near_fits(old(self).deep_view(), near.deep_view()),
        ensures
            final(self).deep_view() == bridged(old(self).deep_view(), near.deep_view()),
            is_sound(final(self).deep_view()),
    {
        let ghost g = self.deep_view();
        let ghost nv = near.deep_view();
        let n: usize = self.nodes.len();
        let m: usize = self.pads.len();
        let mut v: usize = 0;
        assert(g.links + bridges_of(g, nv, 0) =~= g.links);
        while v < n
            invariant
                n == g.nodes.len(),
                m == g.pads.len(),
                v <= n,
                nv == near.deep_view(),
                near_fits(g, nv),
                is_sound(g),
                self.nodes@ == g.nodes,
                self.pads@ == g.pads,
                self.links@ == g.links + bridges_of(g, nv, v as int),
                is_sound(self.deep_view()),
            decreases n - v,
        {
            let ghost base = self.links@;
            let mut k: usize = 0;
            assert(base + bridges_at(g, nv, v as int, 0) =~= base);
            while k < m
                invariant
                    n == g.nodes.len(),
                    m == g.pads.len(),
                    v < n,
                    k <= m,
                    nv == near.deep_view(),
                    near_fits(g, nv),
                    is_sound(g),
                    self.nodes@ == g.nodes,
                    self.pads@ == g.pads,
                    self.links@ == base + bridges_at(g, nv, v as int, k as int),
                    is_sound(self.deep_view()),
                decreases m - k,
            {
                assert(nv[k as int] =~= near@[k as int]@);
                assert(nv[k as int].len() == n);
                let own: usize = self.pads[k].0;
                assert(g.pads[k as int].0 < g.nodes.len());
                if v != own && near[k][v] {
                    self.links.push(Link { a: own, b: v, track: None });
                    assert(self.links@ =~= base + bridges_at(g, nv, v as int, k + 1));
                }
                k += 1;
            }
            assert(self.links@ =~= g.links + bridges_of(g, nv, v + 1));
            v += 1;
        }
        assert(self.deep_view() =~= bridged(g, nv));
    }
}

/// The distance is at most one millimetre.
pub open spec fn snaps(d: Real) -> bool {
    !no_number(d) && place(d) <= SNAP
}

/// The first of the first `n` nodes on the layer that is nearest, and at most a millimetre away.
pub open spec fn nearest_node(nodes: Seq<NodeKey>, layer: usize, distances: Seq<Real>, n: int) -> Option<
    int,
>
    decreases n,
{
    if n <= 0 {
        None
    } else {
        let front = nearest_node(nodes, layer, distances, n - 1);
        if nodes[n - 1].layer == layer && snaps(distances[n - 1]) {
            match front {
                Some(k) => if below(distances[n - 1], distances[k]) {
                    Some(n - 1)
                } else {
                    front
                },
                None => Some(n - 1),
            }
        } else {
            front
        }
    }
}

/// The node where a current enters or leaves: the one at its grid point, else the nearest one on
/// its layer within a millimetre; none where the copper is farther away.
pub open spec fn located(nodes: Seq<NodeKey>, key: NodeKey, distances: Seq<Real>) -> Option<int> {
    if nodes.contains(key) {
        Some(node_place(nodes, key))
    } else {
        nearest_node(nodes, key.layer, distances, nodes.len() as int)
    }
}

impl FlowGraph {
    /// The node where a current enters or leaves: the one at its grid point, else the nearest one
    /// on its layer within a millimetre; none where the copper is farther away.
    pub fn locate(&self, key: NodeKey, distances: &Vec<Real>) -> (r: Option<usize>)
        requires
            is_sound(self.deep_view()),
            distances@.len() == self.nodes@.len(),
        ensures
            match r {
                Some(k) => located(self.nodes@, key, distances@) == Some(k as int) && k
                    < self.nodes@.len(),
                None => located(self.nodes@, key, distances@) is None,
            },
    {
        let n: usize = self.nodes.len();
        let mut i: usize = 0;
        while i < n
            invariant
                n == self.nodes@.len(),
                i <= n,
                is_sound(self.deep_view()),
                forall|j: int| 0 <= j < i ==> self.nodes@[j] != key,
            decreases n - i,
        {
            if self.nodes[i] == key {
                proof {
                    assert(self.nodes@.contains(key));
                    place_is_unique(self.nodes@, key, i as int);
                }
                return Some(i);
            }
            i += 1;
        }
        assert(!self.nodes@.contains(key));
        let mut best: Option<usize> = None;
        let mut i: usize = 0;
        while i < n
            invariant
                n == self.nodes@.len(),
                n == distances@.len(),
                i <= n,
                match best {
                    Some(k) => nearest_node(self.nodes@, key.layer, distances@, i as int) == Some(
                        k as int,
                    ) && k < i,
                    None => nearest_node(self.nodes@, key.layer, distances@, i as int) is None,
                },
            decreases n - i,
        {
            let d = distances[i];
            if self.nodes[i].layer == key.layer && !d.is_missing() && d.rank() <= SNAP as i64 {
                let closer: bool = match best {
                    Some(k) => d.less(&distances[k]),
                    None => true,
                };
                if closer {
                    best = Some(i);
                }
            }
            i += 1;
        }
        best
    }

    /// Whether the network is small enough to be solved.
    pub fn is_solvable(&self) -> (r: bool)
        ensures
            r == (self.nodes@.len() <= MAX_NODES),
    {
        self.nodes.len() <= MAX_NODES
    }
}

/// The first links of a network are the tracks, in their order.
pub proof fn tracks_come_first(
    b: BoardModelV,
    at: Seq<int>,
    keys: Seq<((i64, i64), (i64, i64))>,
    n: int,
    i: int,
)
    requires
        0 <= i < n <= usize::MAX,
        track_graph(b, at, keys, n) is Some,
    ensures
        track_graph(b, at, keys, n)->0.links.len() == n,
        track_graph(b, at, keys, n)->0.links[i].track == Some(i as usize),
    decreases n,
{
    if n == 1 {
        assert(track_graph(b, at, keys, 0) == Some(empty_graph()));
    } else if i < n - 1 {
        tracks_come_first(b, at, keys, n - 1, i);
    } else {
        tracks_come_first(b, at, keys, n - 1, i - 1);
    }
}

/// Vias and pads only add links.
pub proof fn copper_only_adds_links(g: GraphV, b: BoardModelV, net: i64, keys: FlowKeys, i: int)
    requires
        0 <= i < g.links.len(),
    ensures
        ({
            let vias = net_vias(b, net);
            let pads = net_pads(b, Some(net));
            let r = with_pads(
                with_vias(g, b, vias, keys.vias@, vias.len() as int),
                b,
                pads,
                keys.pads@,
                pads.len() as int,
            );
            i < r.links.len() && r.links[i] == g.links[i]
        }),
{
    let vias = net_vias(b, net);
    let pads = net_pads(b, Some(net));
    let m = with_vias(g, b, vias, keys.vias@, vias.len() as int);
    vias_keep_links(g, b, vias, keys.vias@, vias.len() as int, i);
    pads_keep_links(m, b, pads, keys.pads@, pads.len() as int, i);
}

proof fn barrel_keeps_links(g: GraphV, key: (i64, i64), layers: Seq<usize>, n: int, i: int)
    requires
        0 <= i < g.links.len(),
    ensures
        i < with_barrel(g, key, layers, n).links.len(),
        with_barrel(g, key, layers, n).links[i] == g.links[i],
    decreases n,
{
    if n > 1 {
        barrel_keeps_links(g, key, layers, n - 1, i);
    }
}

proof fn vias_keep_links(
    g: GraphV,
    b: BoardModelV,
    at: Seq<int>,
    keys: Seq<(i64, i64)>,
    n: int,
    i: int,
)
    requires
        0 <= i < g.links.len(),
    ensures
        i < with_vias(g, b, at, keys, n).links.len(),
        with_vias(g, b, at, keys, n).links[i] == g.links[i],
    decreases n,
{
    if n > 0 {
        vias_keep_links(g, b, at, keys, n - 1, i);
        let layers = spanned(b, b.vias[at[n - 1]], b.copper_layers.len() as int);
        barrel_keeps_links(
            with_vias(g, b, at, keys, n - 1),
            keys[n - 1],
            layers,
            layers.len() as int,
            i,
        );
    }
}

proof fn pad_keeps_links(g: GraphV, key: (i64, i64), layers: Seq<usize>, k: int, n: int, i: int)
    requires
        0 <= i < g.links.len(),
    ensures
        i < with_pad(g, key, layers, k, n).links.len(),
        with_pad(g, key, layers, k, n).links[i] == g.links[i],
    decreases n,
{
    if n > 0 {
        pad_keeps_links(g, key, layers, k, n - 1, i);
    }
}

proof fn pads_keep_links(
    g: GraphV,
    b: BoardModelV,
    pads: Seq<PadAt>,
    keys: Seq<(i64, i64)>,
    n: int,
    i: int,
)
    requires
        0 <= i < g.links.len(),
    ensures
        i < with_pads(g, b, pads, keys, n).links.len(),
        with_pads(g, b, pads, keys, n).links[i] == g.links[i],
    decreases n,
{
    if n > 0 {
        pads_keep_links(g, b, pads, keys, n - 1, i);
        let layers = pad_layers(b, pad_at(b, pads[n - 1]));
        pad_keeps_links(
            with_pads(g, b, pads, keys, n - 1),
            keys[n - 1],
            layers,
            n - 1,
            layers.len() as int,
            i,
        );
    }
}

} // verus!
