//! Where currents enter the network of a net.
use vstd::prelude::*;

use crate::number::{no_number, place, Real};
use crate::score::board::{BoardModelV, Pad, PadV};
use crate::score::flow::{
    copper_places, nearest_node, node_place, pad_layers, snaps, FlowGraph, NodeKey,
};
use crate::score::flow_ports::{
    attached, copper_layer, lies_in, owners_in, pad_copper_layer, segments, OwnerV,
};
use crate::score::metrics::crosstalk_select::layer_place;
use crate::text::{begins_with, ends_in};

verus! {

/// A current can enter at the node: it is on the layer, and at most a millimetre away.
pub open spec fn is_in_reach(nodes: Seq<NodeKey>, layer: usize, distances: Seq<Real>, i: int) -> bool {
    &&& 0 <= i < nodes.len()
    &&& nodes[i].layer == layer
    &&& !no_number(distances[i])
    &&& place(distances[i]) <= 0x3ff0_0000_0000_0000
}

proof fn nearest_is_in_reach(nodes: Seq<NodeKey>, layer: usize, distances: Seq<Real>, n: int)
    requires
        0 <= n <= nodes.len(),
    ensures
        match nearest_node(nodes, layer, distances, n) {
            Some(k) => {
                &&& k < n
                &&& is_in_reach(nodes, layer, distances, k)
                &&& forall|i: int|
                    i < n && #[trigger] is_in_reach(nodes, layer, distances, i) ==> place(
                        distances[k],
                    ) <= place(distances[i])
            },
            None => forall|i: int| i < n ==> !#[trigger] is_in_reach(nodes, layer, distances, i),
        },
    decreases n,
{
    if n > 0 {
        nearest_is_in_reach(nodes, layer, distances, n - 1);
        assert(is_in_reach(nodes, layer, distances, n - 1) == (nodes[n - 1].layer == layer && snaps(
            distances[n - 1],
        )));
    }
}

proof fn first_node(nodes: Seq<NodeKey>, key: NodeKey)
    requires
        nodes.contains(key),
    ensures
        0 <= node_place(nodes, key) < nodes.len(),
        nodes[node_place(nodes, key)] == key,
    decreases nodes.len(),
{
    let front = nodes.drop_last();
    if front.contains(key) {
        first_node(front, key);
        assert(nodes[node_place(front, key)] == front[node_place(front, key)]);
    } else {
        let i = choose|i: int| 0 <= i < nodes.len() && nodes[i] == key;
        if i < nodes.len() - 1 {
            assert(front[i] == key);
        }
    }
}

/// A current enters at the node of its own place and layer, where there is one; else at the nearest
/// node on its layer, as long as that is at most a millimetre away; else nowhere.
pub proof fn currents_enter_at_the_nearest_node(
    g: FlowGraph,
    key: NodeKey,
    distances: Vec<Real>,
    r: Option<usize>,
)
    requires
        FlowGraph::locate.ensures((&g, key, &distances), r),
    ensures
        g.nodes@.contains(key) ==> r is Some && g.nodes@[r->0 as int] == key,
        !g.nodes@.contains(key) && r is Some ==> {
            &&& is_in_reach(g.nodes@, key.layer, distances@, r->0 as int)
            &&& forall|i: int| #[trigger]
                is_in_reach(g.nodes@, key.layer, distances@, i) ==> place(
                    distances@[r->0 as int],
                ) <= place(distances@[i])
        },
        r is None ==> forall|i: int| !#[trigger] is_in_reach(g.nodes@, key.layer, distances@, i),
{
    nearest_is_in_reach(g.nodes@, key.layer, distances@, g.nodes@.len() as int);
    if g.nodes@.contains(key) {
        first_node(g.nodes@, key);
    }
}

/// A pad through the board is on every copper layer; another is on no layer that it does not name.
pub proof fn pads_are_on_their_layers(b: BoardModelV, p: PadV, l: usize)
    requires
        b.copper_layers.len() <= usize::MAX,
        b.copper_layers.no_duplicates(),
    ensures
        p.kind == "thru_hole"@ ==> (pad_layers(b, p).contains(l) <==> l < b.copper_layers.len()),
        p.kind != "thru_hole"@ ==> (pad_layers(b, p).contains(l) <==> l < b.copper_layers.len()
            && p.layers.contains(b.copper_layers[l as int])),
{
    if p.kind == "thru_hole"@ {
        let all = pad_layers(b, p);
        if l < b.copper_layers.len() {
            assert(all[l as int] == l);
        }
    } else {
        named_places(b.copper_layers, p.layers, l);
    }
}

proof fn last_layer(list: Seq<Seq<char>>, s: Seq<char>)
    ensures
        match layer_place(list, s) {
            Some(k) => 0 <= k < list.len() && list[k] == s,
            None => !list.contains(s),
        },
    decreases list.len(),
{
    if list.len() > 0 && list.last() != s {
        let front = list.drop_last();
        last_layer(front, s);
        if layer_place(front, s) is None && list.contains(s) {
            let i = choose|i: int| 0 <= i < list.len() && list[i] == s;
            assert(front[i] == s);
        }
    }
}

proof fn named_places(copper: Seq<Seq<char>>, layers: Seq<Seq<char>>, l: usize)
    requires
        copper.len() <= usize::MAX,
        copper.no_duplicates(),
    ensures
        copper_places(copper, layers).contains(l) <==> l < copper.len()
            && layers.contains(copper[l as int]),
    decreases layers.len(),
{
    if layers.len() > 0 {
        let front = layers.drop_last();
        named_places(copper, front, l);
        last_layer(copper, layers.last());
        let f = copper_places(copper, front);
        let r = copper_places(copper, layers);
        let end = layers.len() - 1;
        assert(layers[end] == layers.last());
        if f.contains(l) {
            let k = choose|k: int| 0 <= k < f.len() && f[k] == l;
            assert(r[k] == l);
            let j = choose|j: int| 0 <= j < front.len() && front[j] == copper[l as int];
            assert(layers[j] == copper[l as int]);
        }
        if r.contains(l) {
            let k = choose|k: int| 0 <= k < r.len() && r[k] == l;
            if k < f.len() {
                assert(f[k] == l);
            } else {
                assert(layers[end] == copper[l as int]);
            }
        }
        if l < copper.len() && layers.contains(copper[l as int]) {
            let j = choose|j: int| 0 <= j < layers.len() && layers[j] == copper[l as int];
            if j < end {
                assert(front[j] == copper[l as int]);
            } else {
                assert(copper.contains(layers.last()));
                assert(r[r.len() - 1] == l);
            }
        }
    }
}

/// A current enters a pad on the first layer of the pad that is copper, and on the front where the
/// pad names none.
pub proof fn pads_take_currents_on_copper(pad: Pad, r: String)
    requires
        pad_copper_layer.ensures((&pad,), r),
    ensures
        ({
            let layers = pad.deep_view().layers;
            ||| exists|i: int|
                0 <= i < layers.len() && #[trigger] layers[i] == r@ && ends_in(r@, ".Cu"@)
                    && forall|j: int| 0 <= j < i ==> !ends_in(#[trigger] layers[j], ".Cu"@)
            ||| r@ == "F.Cu"@ && forall|j: int|
                0 <= j < layers.len() ==> !ends_in(#[trigger] layers[j], ".Cu"@)
        }),
{
    first_copper(pad.deep_view().layers);
}

proof fn first_copper(layers: Seq<Seq<char>>)
    ensures
        (exists|i: int|
            0 <= i < layers.len() && #[trigger] layers[i] == copper_layer(layers) && ends_in(
                layers[i],
                ".Cu"@,
            ) && forall|j: int| 0 <= j < i ==> !ends_in(#[trigger] layers[j], ".Cu"@)) || (
        copper_layer(layers) == "F.Cu"@ && forall|j: int|
            0 <= j < layers.len() ==> !ends_in(#[trigger] layers[j], ".Cu"@)),
    decreases layers.len(),
{
    if layers.len() > 0 {
        if ends_in(layers[0], ".Cu"@) {
            assert(layers[0] == copper_layer(layers));
        } else {
            let rest = layers.drop_first();
            first_copper(rest);
            if forall|j: int| 0 <= j < rest.len() ==> !ends_in(#[trigger] rest[j], ".Cu"@) {
                assert forall|j: int| 0 <= j < layers.len() implies !ends_in(
                    #[trigger] layers[j],
                    ".Cu"@,
                ) by {
                    if j > 0 {
                        assert(rest[j - 1] == layers[j]);
                    }
                }
                if exists|i: int|
                    0 <= i < rest.len() && #[trigger] rest[i] == copper_layer(rest) && ends_in(
                        rest[i],
                        ".Cu"@,
                    ) && forall|j: int| 0 <= j < i ==> !ends_in(#[trigger] rest[j], ".Cu"@) {
                    let i = choose|i: int|
                        0 <= i < rest.len() && #[trigger] rest[i] == copper_layer(rest) && ends_in(
                            rest[i],
                            ".Cu"@,
                        ) && forall|j: int| 0 <= j < i ==> !ends_in(#[trigger] rest[j], ".Cu"@);
                    assert(!ends_in(rest[i], ".Cu"@));
                }
            } else {
                let i = choose|i: int|
                    0 <= i < rest.len() && #[trigger] rest[i] == copper_layer(rest) && ends_in(
                        rest[i],
                        ".Cu"@,
                    ) && forall|j: int| 0 <= j < i ==> !ends_in(#[trigger] rest[j], ".Cu"@);
                assert(layers[i + 1] == rest[i]);
                assert forall|j: int| 0 <= j < i + 1 implies !ends_in(
                    #[trigger] layers[j],
                    ".Cu"@,
                ) by {
                    if j > 0 {
                        assert(rest[j - 1] == layers[j]);
                    }
                }
            }
        }
    }
}

/// A current of a named component attaches to that component alone; another attaches to the
/// components of the module that its port stands in.
pub proof fn currents_attach_to_their_module(
    owners: Seq<OwnerV>,
    label: Seq<char>,
    refdes: Seq<char>,
)
    ensures
        attached(owners, "component:"@ + refdes) == seq![refdes],
        !begins_with(label, "component:"@) ==> (attached(owners, label).contains(refdes)
            <==> exists|i: int|
            0 <= i < owners.len() && (#[trigger] owners[i]).refdes == refdes && lies_in(
                owners[i].path,
                segments(label).drop_last(),
            )),
{
    let whole = "component:"@ + refdes;
    assert(whole.take("component:"@.len() as int) =~= "component:"@);
    assert(whole.skip("component:"@.len() as int) =~= refdes);
    owners_found(owners, segments(label).drop_last(), refdes);
}

proof fn owners_found(owners: Seq<OwnerV>, within: Seq<Seq<char>>, refdes: Seq<char>)
    ensures
        owners_in(owners, within).contains(refdes) <==> exists|i: int|
            0 <= i < owners.len() && (#[trigger] owners[i]).refdes == refdes && lies_in(
                owners[i].path,
                within,
            ),
    decreases owners.len(),
{
    if owners.len() > 0 {
        let front = owners.drop_last();
        owners_found(front, within, refdes);
        owners_found(front, within, owners.last().refdes);
        let f = owners_in(front, within);
        let r = owners_in(owners, within);
        let end = owners.len() - 1;
        assert(owners[end] == owners.last());
        if f.contains(refdes) {
            let k = choose|k: int| 0 <= k < f.len() && f[k] == refdes;
            assert(r[k] == refdes);
            let i = choose|i: int|
                0 <= i < front.len() && (#[trigger] front[i]).refdes == refdes && lies_in(
                    front[i].path,
                    within,
                );
            assert(owners[i].refdes == refdes);
        }
        if r.contains(refdes) {
            let k = choose|k: int| 0 <= k < r.len() && r[k] == refdes;
            if k < f.len() {
                assert(f[k] == refdes);
            } else {
                assert(owners[end].refdes == refdes);
            }
        }
        if exists|i: int|
            0 <= i < owners.len() && (#[trigger] owners[i]).refdes == refdes && lies_in(
                owners[i].path,
                within,
            ) {
            let i = choose|i: int|
                0 <= i < owners.len() && (#[trigger] owners[i]).refdes == refdes && lies_in(
                    owners[i].path,
                    within,
                );
            if i < end {
                assert(front[i].refdes == refdes);
            } else if !f.contains(refdes) {
                assert(r[r.len() - 1] == refdes);
            }
        }
    }
}

} // verus!
