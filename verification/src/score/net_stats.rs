//! The routing statistics of each net.
use vstd::prelude::*;

use crate::number::{below, Real};
use crate::order::{as_ints, in_order, sorted};
use crate::score::board::{
    name_of_net, pad_on, used_nets, ArcTrackV, BoardModel, BoardModelV, TrackV,
};
use crate::score::net_graph::{
    arc_elements, elements_of, footprint_elements, layers_meet, may_touch, net_copper, spans,
    track_elements, via_elements, wires_of, zone_elements, Element, ElementV, NetCopper,
};
use crate::steps::{distinct, distinct_holds};
use crate::text::{holds, same};
use crate::union_find::{
    joined_sets, joined_sets_sized, pairs_within, reaches, sets_are_connected_parts, UnionFind,
};

verus! {

/// Two tracks that meet: the first, the second, and what the angle between them is.
#[derive(Clone, Copy, Debug, PartialEq, Eq, Structural)]
pub struct Joint {
    pub track: usize,
    pub other: usize,
    /// The course doubles back.
    pub reversal: bool,
    /// The course turns by roughly a right angle.
    pub right_angle: bool,
    /// The copper meets at a sharp angle.
    pub acute: bool,
    /// The tracks lie on one line and are equally wide.
    pub mergeable: bool,
}

impl DeepView for Joint {
    type V = Joint;

    open spec fn deep_view(&self) -> Joint {
        *self
    }
}

/// What the geometry of a net's copper says, layers aside. Pieces go by their places in the
/// net's copper, tracks by their places among its tracks; the two ends of a track are told apart
/// by a truth value.
pub struct NetFacts {
    /// The pieces that lie on each other.
    pub touching: Vec<(usize, usize)>,
    /// The ends of tracks, and other tracks and arcs that they lie on.
    pub near: Vec<((usize, bool), usize)>,
    /// The ends of tracks, and pieces that they lie on.
    pub at: Vec<((usize, bool), usize)>,
    pub joints: Vec<Joint>,
    pub routed_length: Real,
    pub mst_length: Real,
    pub stub_length: Real,
}

/// The pairs of pieces that lie on each other and that the layers let touch.
pub open spec fn joining(
    elements: Seq<ElementV>,
    copper: Seq<Seq<char>>,
    touching: Seq<(usize, usize)>,
) -> Seq<(int, int)>
    decreases touching.len(),
{
    if touching.len() == 0 {
        Seq::empty()
    } else {
        let (a, b) = touching.last();
        let front = joining(elements, copper, touching.drop_last());
        if a < elements.len() && b < elements.len() && layers_meet(
            elements[a as int],
            elements[b as int],
            copper,
        ) {
            front.push((a as int, b as int))
        } else {
            front
        }
    }
}

/// The pairs that join lie within the copper.
pub proof fn joining_is_within(
    elements: Seq<ElementV>,
    copper: Seq<Seq<char>>,
    touching: Seq<(usize, usize)>,
)
    ensures
        pairs_within(elements.len(), joining(elements, copper, touching)),
    decreases touching.len(),
{
    if touching.len() > 0 {
        joining_is_within(elements, copper, touching.drop_last());
    }
}

/// The representative of each connected part of the copper.
pub open spec fn copper_parts(
    elements: Seq<ElementV>,
    copper: Seq<Seq<char>>,
    touching: Seq<(usize, usize)>,
) -> Seq<int> {
    joined_sets(elements.len(), joining(elements, copper, touching))
}

/// The parts that the pads belong to.
pub open spec fn pad_parts(
    b: BoardModelV,
    net: i64,
    touching: Seq<(usize, usize)>,
) -> Seq<int> {
    let from = wires_of(b, net).len() + via_elements(b.vias, net).len();
    Seq::new(
        footprint_elements(b.footprints, net).len(),
        |k: int| copper_parts(elements_of(b, net), b.copper_layers, touching)[from + k],
    )
}

/// Pieces `i` and `j` are two of the first `n` pieces, and alike: of tracks and arcs, two on one
/// layer.
pub open spec fn same_layer(elements: Seq<ElementV>, n: nat, i: int, j: int) -> bool {
    0 <= i < n && 0 <= j < n && i != j && elements[i] == elements[j]
}

/// A piece at the end of a track on the given layer ends it: a pad, via or filled area that has
/// copper on the layer.
pub open spec fn is_terminal(e: ElementV, layer: ElementV, copper: Seq<Seq<char>>) -> bool {
    match layer {
        ElementV::Wire(l) => match e {
            ElementV::Wire(_) => false,
            ElementV::Via(v) => spans(v, l, copper),
            ElementV::Pad(p) => pad_on(p, copper, l),
            ElementV::Fill(m) => l == m,
        },
        _ => false,
    }
}

/// The end of a track hangs free: no other track or arc on its layer and no pad, via or filled
/// area is there. The first `wires` pieces are the tracks and arcs.
pub open spec fn is_stub(
    elements: Seq<ElementV>,
    wires: nat,
    copper: Seq<Seq<char>>,
    near: Seq<((usize, bool), usize)>,
    at: Seq<((usize, bool), usize)>,
    end: (usize, bool),
) -> bool {
    &&& forall|k: int|
        0 <= k < near.len() ==> !((#[trigger] near[k]).0 == end && same_layer(
            elements,
            wires,
            end.0 as int,
            near[k].1 as int,
        ))
    &&& forall|k: int|
        0 <= k < at.len() ==> !((#[trigger] at[k]).0 == end && at[k].1 < elements.len()
            && is_terminal(elements[at[k].1 as int], elements[end.0 as int], copper))
}

/// The tracks with a free end among the first `n`, once for each free end.
pub open spec fn stubs(
    elements: Seq<ElementV>,
    wires: nat,
    copper: Seq<Seq<char>>,
    near: Seq<((usize, bool), usize)>,
    at: Seq<((usize, bool), usize)>,
    n: int,
) -> Seq<usize>
    decreases n,
{
    if n <= 0 {
        Seq::empty()
    } else {
        let i = (n - 1) as usize;
        stubs(elements, wires, copper, near, at, n - 1) + (if is_stub(
            elements,
            wires,
            copper,
            near,
            at,
            (i, false),
        ) {
            seq![i]
        } else {
            Seq::empty()
        }) + (if is_stub(elements, wires, copper, near, at, (i, true)) {
            seq![i]
        } else {
            Seq::empty()
        })
    }
}

/// The joint counts: two tracks of one layer, from the first to a later one.
pub open spec fn joint_counts(elements: Seq<ElementV>, tracks: nat, j: Joint) -> bool {
    j.track < j.other && same_layer(elements, tracks, j.track as int, j.other as int)
}

/// How many joints count that have a property.
pub open spec fn count_joints(
    elements: Seq<ElementV>,
    tracks: nat,
    joints: Seq<Joint>,
    has: spec_fn(Joint) -> bool,
) -> nat
    decreases joints.len(),
{
    if joints.len() == 0 {
        0
    } else {
        count_joints(elements, tracks, joints.drop_last(), has) + if joint_counts(
            elements,
            tracks,
            joints.last(),
        ) && has(joints.last()) {
            1nat
        } else {
            0nat
        }
    }
}

/// The course doubles back.
pub open spec fn reverses() -> spec_fn(Joint) -> bool {
    |j: Joint| j.reversal
}

/// The course turns by roughly a right angle.
pub open spec fn turns_right() -> spec_fn(Joint) -> bool {
    |j: Joint| j.right_angle
}

/// The copper meets at a sharp angle.
pub open spec fn is_acute() -> spec_fn(Joint) -> bool {
    |j: Joint| j.acute
}

/// The tracks could be one.
pub open spec fn could_merge() -> spec_fn(Joint) -> bool {
    |j: Joint| j.mergeable
}

/// The layers of wires.
pub open spec fn wire_layers(wires: Seq<ElementV>) -> Seq<Seq<char>> {
    Seq::new(
        wires.len(),
        |i: int|
            match wires[i] {
                ElementV::Wire(l) => l,
                _ => Seq::empty(),
            },
    )
}

/// The routing statistics of a net.
pub struct NetStats {
    pub net: i64,
    pub name: String,
    /// The length of the tracks and arcs.
    pub routed_length: Real,
    pub via_count: usize,
    /// The layers of the tracks and arcs.
    pub layers_used: Vec<String>,
    pub pad_count: usize,
    /// All pads are joined through copper.
    pub connected: bool,
    /// The number of connected parts that the pads belong to, at least one.
    pub pad_components: usize,
    /// The length of the shortest tree over the pads.
    pub mst_length: Real,
    /// The tracks with a free end, once for each.
    pub stub_ends: Vec<usize>,
    pub stub_length: Real,
    pub segment_count: usize,
    pub direction_reversals: usize,
    pub right_angle_corners: usize,
    pub acute_junctions: usize,
    pub mergeable_pairs: usize,
    /// The net has a filled area.
    pub has_zone: bool,
}

/// The value of a `NetStats`.
#[verifier::ext_equal]
pub struct NetStatsV {
    pub net: i64,
    pub name: Seq<char>,
    pub routed_length: Real,
    pub via_count: usize,
    pub layers_used: Seq<Seq<char>>,
    pub pad_count: usize,
    pub connected: bool,
    pub pad_components: usize,
    pub mst_length: Real,
    pub stub_ends: Seq<usize>,
    pub stub_length: Real,
    pub segment_count: usize,
    pub direction_reversals: usize,
    pub right_angle_corners: usize,
    pub acute_junctions: usize,
    pub mergeable_pairs: usize,
    pub has_zone: bool,
}

impl DeepView for NetStats {
    type V = NetStatsV;

    open spec fn deep_view(&self) -> NetStatsV {
        NetStatsV {
            net: self.net,
            name: self.name@,
            routed_length: self.routed_length,
            via_count: self.via_count,
            layers_used: self.layers_used.deep_view(),
            pad_count: self.pad_count,
            connected: self.connected,
            pad_components: self.pad_components,
            mst_length: self.mst_length,
            stub_ends: self.stub_ends.deep_view(),
            stub_length: self.stub_length,
            segment_count: self.segment_count,
            direction_reversals: self.direction_reversals,
            right_angle_corners: self.right_angle_corners,
            acute_junctions: self.acute_junctions,
            mergeable_pairs: self.mergeable_pairs,
            has_zone: self.has_zone,
        }
    }
}

/// The statistics of a net.
pub open spec fn stats_of(b: BoardModelV, net: i64, f: NetFacts) -> NetStatsV {
    let elements = elements_of(b, net);
    let tracks = track_elements(b.tracks, net).len();
    let wires = wires_of(b, net).len();
    let copper = b.copper_layers;
    let parts = distinct(pad_parts(b, net, f.touching@)).len();
    NetStatsV {
        net,
        name: name_of_net(b.nets, net),
        routed_length: f.routed_length,
        via_count: via_elements(b.vias, net).len() as usize,
        layers_used: sorted::<String>(distinct(wire_layers(wires_of(b, net)))),
        pad_count: footprint_elements(b.footprints, net).len() as usize,
        connected: parts <= 1,
        pad_components: if parts == 0 {
            1
        } else {
            parts as usize
        },
        mst_length: f.mst_length,
        stub_ends: stubs(elements, wires, copper, f.near@, f.at@, tracks as int),
        stub_length: f.stub_length,
        segment_count: wires as usize,
        direction_reversals: count_joints(elements, tracks, f.joints@, reverses()) as usize,
        right_angle_corners: count_joints(elements, tracks, f.joints@, turns_right()) as usize,
        acute_junctions: count_joints(elements, tracks, f.joints@, is_acute()) as usize,
        mergeable_pairs: count_joints(elements, tracks, f.joints@, could_merge()) as usize,
        has_zone: zone_elements(b.zones, net).len() > 0,
    }
}

/// A length that counts as none, one part in a thousand millions of a millimetre.
pub const TINY: u64 = 0x3e11_2e0b_e826_d695;

/// The net is routed and its shortest tree has a length, so that the two compare.
pub open spec fn has_detour(s: NetStatsV) -> bool {
    s.connected && s.pad_count >= 2 && below(Real { bits: TINY }, s.mst_length)
}

impl NetStats {
    /// Whether the routed length can be held against the shortest tree.
    pub fn comparable(&self) -> (r: bool)
        ensures
            r == has_detour(self.deep_view()),
    {
        let tiny = Real { bits: TINY };
        self.connected && self.pad_count >= 2 && tiny.less(&self.mst_length)
    }
}

fn same_wire(a: &Element, b: &Element) -> (r: bool)
    requires
        a.deep_view() is Wire,
        b.deep_view() is Wire,
    ensures
        r == (a.deep_view() == b.deep_view()),
{
    match (a, b) {
        (Element::Wire(l), Element::Wire(m)) => same(l.as_str(), m.as_str()),
        _ => false,
    }
}

proof fn tracks_are_wires(b: BoardModelV, net: i64, i: int)
    requires
        0 <= i < wires_of(b, net).len(),
    ensures
        elements_of(b, net)[i] == wires_of(b, net)[i],
        wires_of(b, net)[i] is Wire,
        elements_of(b, net)[i] is Wire,
{
    tracks_wire(b.tracks, net, i);
    arcs_wire(b.arcs, net, i - track_elements(b.tracks, net).len());
}

proof fn tracks_wire(items: Seq<TrackV>, net: i64, i: int)
    ensures
        0 <= i < track_elements(items, net).len() ==> track_elements(items, net)[i] is Wire,
    decreases items.len(),
{
    if items.len() > 0 {
        tracks_wire(items.drop_last(), net, i);
    }
}

proof fn arcs_wire(items: Seq<ArcTrackV>, net: i64, i: int)
    ensures
        0 <= i < arc_elements(items, net).len() ==> arc_elements(items, net)[i] is Wire,
    decreases items.len(),
{
    if items.len() > 0 {
        arcs_wire(items.drop_last(), net, i);
    }
}

fn join_copper(
    elements: &Vec<Element>,
    copper: &Vec<String>,
    touching: &Vec<(usize, usize)>,
) -> (r: UnionFind)
    ensures
        r.wf(),
        r@ == copper_parts(elements.deep_view(), copper.deep_view(), touching@),
{
    let ghost ev = elements.deep_view();
    let ghost cv = copper.deep_view();
    let n: usize = elements.len();
    let mut sets = UnionFind::new(n);
    let m: usize = touching.len();
    let mut i: usize = 0;
    assert(sets@ =~= copper_parts(ev, cv, touching@.take(0)));
    while i < m
        invariant
            m == touching@.len(),
            n == elements@.len(),
            i <= m,
            ev == elements.deep_view(),
            cv == copper.deep_view(),
            sets.wf(),
            sets@ == copper_parts(ev, cv, touching@.take(i as int)),
        decreases m - i,
    {
        let ghost front = joining(ev, cv, touching@.take(i as int));
        assert(touching@.take(i + 1).drop_last() =~= touching@.take(i as int));
        proof {
            joined_sets_sized(ev.len(), front);
        }
        let a: usize = touching[i].0;
        let b: usize = touching[i].1;
        if a < n && b < n {
            assert(ev[a as int] == elements@[a as int].deep_view());
            assert(ev[b as int] == elements@[b as int].deep_view());
            if may_touch(&elements[a], &elements[b], copper) {
                assert(front.push((a as int, b as int)).drop_last() =~= front);
                sets.union(a, b);
            }
        }
        i += 1;
    }
    assert(touching@.take(m as int) =~= touching@);
    sets
}

fn count_parts(sets: &mut UnionFind, from: usize, count: usize) -> (r: usize)
    requires
        old(sets).wf(),
        from + count <= old(sets)@.len(),
        old(sets)@.len() <= usize::MAX,
    ensures
        final(sets).wf(),
        final(sets)@ == old(sets)@,
        r == distinct(Seq::new(count as nat, |k: int| old(sets)@[from + k])).len(),
{
    let ghost roots = sets@;
    let ghost want = Seq::new(count as nat, |k: int| roots[from + k]);
    let mut seen: Vec<usize> = Vec::new();
    let mut i: usize = 0;
    assert(as_ints(seen@) =~= distinct(want.take(0)));
    while i < count
        invariant
            i <= count,
            from + count <= roots.len(),
            roots.len() <= usize::MAX,
            sets.wf(),
            sets@ == roots,
            want == Seq::new(count as nat, |k: int| roots[from + k]),
            as_ints(seen@) == distinct(want.take(i as int)),
        decreases count - i,
    {
        let ghost before = as_ints(seen@);
        assert(want.take(i + 1).drop_last() =~= want.take(i as int));
        let root: usize = sets.find(from + i);
        assert(want[i as int] == root);
        let mut known: bool = false;
        let m: usize = seen.len();
        let mut k: usize = 0;
        while k < m
            invariant
                m == seen@.len(),
                k <= m,
                known == exists|j: int| 0 <= j < k && (#[trigger] seen@[j]) == root,
            decreases m - k,
        {
            if seen[k] == root {
                known = true;
            }
            k += 1;
        }
        assert(known == before.contains(root as int)) by {
            if known {
                let j = choose|j: int| 0 <= j < m && (#[trigger] seen@[j]) == root;
                assert(before[j] == root);
            }
            if before.contains(root as int) {
                let j = choose|j: int| 0 <= j < before.len() && before[j] == root;
                assert(seen@[j] == root);
            }
        }
        if !known {
            seen.push(root);
            assert(as_ints(seen@) =~= before.push(root as int));
        }
        i += 1;
    }
    assert(want.take(count as int) =~= want);
    assert(as_ints(seen@).len() == seen@.len());
    seen.len()
}

fn terminal(e: &Element, layer: &Element, copper: &Vec<String>) -> (r: bool)
    ensures
        r == is_terminal(e.deep_view(), layer.deep_view(), copper.deep_view()),
{
    match layer {
        Element::Wire(_) => match e {
            Element::Wire(_) => false,
            _ => may_touch(e, layer, copper),
        },
        _ => false,
    }
}

fn hangs_free(
    c: &NetCopper,
    copper: &Vec<String>,
    facts: &NetFacts,
    end: (usize, bool),
) -> (r: bool)
    requires
        c.wires <= c.elements@.len(),
        end.0 < c.wires,
        forall|i: int| 0 <= i < c.wires ==> (#[trigger] c.elements.deep_view()[i]) is Wire,
    ensures
        r == is_stub(
            c.elements.deep_view(),
            c.wires as nat,
            copper.deep_view(),
            facts.near@,
            facts.at@,
            end,
        ),
{
    let ghost ev = c.elements.deep_view();
    let ghost cv = copper.deep_view();
    let i: usize = end.0;
    let far: bool = end.1;
    let n: usize = facts.near.len();
    let mut k: usize = 0;
    while k < n
        invariant
            n == facts.near@.len(),
            k <= n,
            i == end.0,
            far == end.1,
            i < c.wires,
            c.wires <= c.elements@.len(),
            ev == c.elements.deep_view(),
            forall|j: int| 0 <= j < c.wires ==> (#[trigger] ev[j]) is Wire,
            forall|j: int|
                0 <= j < k ==> !((#[trigger] facts.near@[j]).0 == end && same_layer(
                    ev,
                    c.wires as nat,
                    i as int,
                    facts.near@[j].1 as int,
                )),
        decreases n - k,
    {
        let (who, other): ((usize, bool), usize) = facts.near[k];
        if who.0 == i && who.1 == far && other < c.wires && other != i {
            assert(ev[i as int] == c.elements@[i as int].deep_view());
            assert(ev[other as int] == c.elements@[other as int].deep_view());
            if same_wire(&c.elements[i], &c.elements[other]) {
                assert(facts.near@[k as int].0 == end);
                assert(same_layer(ev, c.wires as nat, i as int, other as int));
                return false;
            }
        }
        k += 1;
    }
    let m: usize = facts.at.len();
    let mut q: usize = 0;
    while q < m
        invariant
            m == facts.at@.len(),
            q <= m,
            i == end.0,
            far == end.1,
            i < c.wires,
            c.wires <= c.elements@.len(),
            ev == c.elements.deep_view(),
            cv == copper.deep_view(),
            forall|j: int|
                0 <= j < q ==> !((#[trigger] facts.at@[j]).0 == end && facts.at@[j].1 < ev.len()
                    && is_terminal(ev[facts.at@[j].1 as int], ev[i as int], cv)),
        decreases m - q,
    {
        let (who, piece): ((usize, bool), usize) = facts.at[q];
        if who.0 == i && who.1 == far && piece < c.elements.len() {
            assert(ev[i as int] == c.elements@[i as int].deep_view());
            assert(ev[piece as int] == c.elements@[piece as int].deep_view());
            if terminal(&c.elements[piece], &c.elements[i], copper) {
                assert(facts.at@[q as int].0 == end);
                assert(is_terminal(ev[facts.at@[q as int].1 as int], ev[i as int], cv));
                return false;
            }
        }
        q += 1;
    }
    true
}

fn find_stubs(c: &NetCopper, copper: &Vec<String>, facts: &NetFacts) -> (r: Vec<usize>)
    requires
        c.tracks <= c.wires <= c.elements@.len(),
        forall|i: int| 0 <= i < c.wires ==> (#[trigger] c.elements.deep_view()[i]) is Wire,
    ensures
        r@ == stubs(
            c.elements.deep_view(),
            c.wires as nat,
            copper.deep_view(),
            facts.near@,
            facts.at@,
            c.tracks as int,
        ),
{
    let ghost ev = c.elements.deep_view();
    let ghost cv = copper.deep_view();
    let ghost near = facts.near@;
    let ghost at = facts.at@;
    let mut out: Vec<usize> = Vec::new();
    let n: usize = c.tracks;
    let mut i: usize = 0;
    assert(out@ =~= stubs(ev, c.wires as nat, cv, near, at, 0));
    while i < n
        invariant
            n == c.tracks,
            n <= c.wires <= c.elements@.len(),
            i <= n,
            ev == c.elements.deep_view(),
            cv == copper.deep_view(),
            near == facts.near@,
            at == facts.at@,
            forall|j: int| 0 <= j < c.wires ==> (#[trigger] c.elements.deep_view()[j]) is Wire,
            out@ == stubs(ev, c.wires as nat, cv, near, at, i as int),
        decreases n - i,
    {
        let ghost before = out@;
        let first: bool = hangs_free(c, copper, facts, (i, false));
        let second: bool = hangs_free(c, copper, facts, (i, true));
        if first {
            out.push(i);
        }
        if second {
            out.push(i);
        }
        assert(out@ =~= stubs(ev, c.wires as nat, cv, near, at, i + 1));
        i += 1;
    }
    out
}

/// The joints that count, by property.
struct JointTotals {
    reversals: usize,
    right_angles: usize,
    acute: usize,
    mergeable: usize,
}

fn tally_joints(c: &NetCopper, facts: &NetFacts) -> (r: JointTotals)
    requires
        c.tracks <= c.elements@.len(),
        forall|i: int| 0 <= i < c.tracks ==> (#[trigger] c.elements.deep_view()[i]) is Wire,
    ensures
        r.reversals == count_joints(c.elements.deep_view(), c.tracks as nat, facts.joints@, reverses()),
        r.right_angles == count_joints(
            c.elements.deep_view(),
            c.tracks as nat,
            facts.joints@,
            turns_right(),
        ),
        r.acute == count_joints(c.elements.deep_view(), c.tracks as nat, facts.joints@, is_acute()),
        r.mergeable == count_joints(
            c.elements.deep_view(),
            c.tracks as nat,
            facts.joints@,
            could_merge(),
        ),
{
    let ghost ev = c.elements.deep_view();
    let ghost tracks = c.tracks as nat;
    let ghost jv = facts.joints@;
    let n: usize = facts.joints.len();
    let mut t = JointTotals { reversals: 0, right_angles: 0, acute: 0, mergeable: 0 };
    let mut i: usize = 0;
    while i < n
        invariant
            n == facts.joints@.len(),
            i <= n,
            c.tracks <= c.elements@.len(),
            ev == c.elements.deep_view(),
            tracks == c.tracks,
            jv == facts.joints@,
            forall|j: int| 0 <= j < c.tracks ==> (#[trigger] ev[j]) is Wire,
            t.reversals <= i,
            t.right_angles <= i,
            t.acute <= i,
            t.mergeable <= i,
            t.reversals == count_joints(ev, tracks, jv.take(i as int), reverses()),
            t.right_angles == count_joints(ev, tracks, jv.take(i as int), turns_right()),
            t.acute == count_joints(ev, tracks, jv.take(i as int), is_acute()),
            t.mergeable == count_joints(ev, tracks, jv.take(i as int), could_merge()),
        decreases n - i,
    {
        assert(jv.take(i + 1).drop_last() =~= jv.take(i as int));
        let j = facts.joints[i];
        let mut counts: bool = false;
        if j.track < j.other && j.other < c.tracks {
            assert(ev[j.track as int] == c.elements@[j.track as int].deep_view());
            assert(ev[j.other as int] == c.elements@[j.other as int].deep_view());
            counts = same_wire(&c.elements[j.track], &c.elements[j.other]);
        }
        assert(counts == joint_counts(ev, tracks, jv[i as int]));
        if counts {
            if j.reversal {
                t.reversals = t.reversals + 1;
            }
            if j.right_angle {
                t.right_angles = t.right_angles + 1;
            }
            if j.acute {
                t.acute = t.acute + 1;
            }
            if j.mergeable {
                t.mergeable = t.mergeable + 1;
            }
        }
        i += 1;
    }
    assert(jv.take(n as int) =~= jv);
    t
}

fn used_layers(c: &NetCopper) -> (r: Vec<String>)
    requires
        c.wires <= c.elements@.len(),
        forall|i: int| 0 <= i < c.wires ==> (#[trigger] c.elements.deep_view()[i]) is Wire,
    ensures
        r.deep_view() == sorted::<String>(
            distinct(wire_layers(c.elements.deep_view().take(c.wires as int))),
        ),
{
    let ghost ev = c.elements.deep_view();
    let ghost lv = wire_layers(ev.take(c.wires as int));
    let n: usize = c.wires;
    let mut out: Vec<String> = Vec::new();
    let mut i: usize = 0;
    assert(out.deep_view() =~= distinct(lv.take(0)));
    while i < n
        invariant
            n == c.wires,
            n <= c.elements@.len(),
            i <= n,
            ev == c.elements.deep_view(),
            lv == wire_layers(ev.take(c.wires as int)),
            forall|j: int| 0 <= j < c.wires ==> (#[trigger] ev[j]) is Wire,
            out.deep_view() == distinct(lv.take(i as int)),
        decreases n - i,
    {
        let ghost before = out.deep_view();
        assert(lv.take(i + 1).drop_last() =~= lv.take(i as int));
        assert(ev[i as int] == c.elements@[i as int].deep_view());
        assert(ev[i as int] is Wire);
        match &c.elements[i] {
            Element::Wire(l) => {
                assert(lv[i as int] == l@);
                if !holds(&out, l.as_str()) {
                    out.push(l.clone());
                    assert(out.deep_view() =~= before.push(l@));
                }
            },
            _ => {},
        }
        i += 1;
    }
    assert(lv.take(n as int) =~= lv);
    in_order(&out)
}

/// The tracks of a net with a free end, once for each free end.
pub fn net_stubs(board: &BoardModel, net: i64, facts: &NetFacts) -> (r: Vec<usize>)
    ensures
        r@ == stats_of(board.deep_view(), net, *facts).stub_ends,
{
    let c = net_copper(board, net);
    assert(c.elements.deep_view().len() == c.elements@.len());
    assert forall|i: int| 0 <= i < c.wires implies (#[trigger] c.elements.deep_view()[i]) is Wire by {
        tracks_are_wires(board.deep_view(), net, i);
    }
    find_stubs(&c, &board.copper_layers, facts)
}

/// The statistics of a net.
pub fn net_stats(board: &BoardModel, net: i64, facts: &NetFacts) -> (r: NetStats)
    ensures
        r.deep_view() == stats_of(board.deep_view(), net, *facts),
{
    let ghost bv = board.deep_view();
    let c = net_copper(board, net);
    let ghost ev = c.elements.deep_view();
    let total: usize = c.elements.len();
    assert(ev.len() == total);
    assert forall|i: int| 0 <= i < c.wires implies (#[trigger] c.elements.deep_view()[i]) is Wire by {
        tracks_are_wires(bv, net, i);
    }
    assert(ev.take(c.wires as int) =~= wires_of(bv, net));
    let mut sets = join_copper(&c.elements, &board.copper_layers, &facts.touching);
    proof {
        joined_sets_sized(ev.len(), joining(ev, bv.copper_layers, facts.touching@));
    }
    let from: usize = c.wires + c.vias;
    let ghost roots = sets@;
    let parts: usize = count_parts(&mut sets, from, c.pads);
    assert(Seq::new(c.pads as nat, |k: int| roots[from + k]) =~= pad_parts(
        bv,
        net,
        facts.touching@,
    ));
    let totals = tally_joints(&c, facts);
    let stub_ends = find_stubs(&c, &board.copper_layers, facts);
    let layers_used = used_layers(&c);
    let r = NetStats {
        net,
        name: board.net_name(net),
        routed_length: facts.routed_length,
        via_count: c.vias,
        layers_used,
        pad_count: c.pads,
        connected: parts <= 1,
        pad_components: if parts == 0 {
            1
        } else {
            parts
        },
        mst_length: facts.mst_length,
        stub_ends,
        stub_length: facts.stub_length,
        segment_count: c.wires,
        direction_reversals: totals.reversals,
        right_angle_corners: totals.right_angles,
        acute_junctions: totals.acute,
        mergeable_pairs: totals.mergeable,
        has_zone: total > from + c.pads,
    };
    assert(r.stub_ends.deep_view() =~= r.stub_ends@);
    assert(r.deep_view() =~= stats_of(bv, net, *facts));
    r
}

/// The statistics of the used nets, in order.
pub open spec fn all_stats(b: BoardModelV, facts: Seq<NetFacts>) -> Seq<NetStatsV> {
    Seq::new(used_nets(b).len(), |i: int| stats_of(b, used_nets(b)[i], facts[i]))
}

/// The statistics of every net that has copper or a pad, in order. `facts` holds one entry per
/// such net.
pub fn compute_net_stats(board: &BoardModel, facts: &Vec<NetFacts>) -> (r: Vec<NetStats>)
    requires
        facts@.len() == used_nets(board.deep_view()).len(),
    ensures
        r.deep_view() == all_stats(board.deep_view(), facts@),
{
    let ghost bv = board.deep_view();
    let nets = board.used_net_ids();
    let n: usize = nets.len();
    let mut out: Vec<NetStats> = Vec::new();
    let mut i: usize = 0;
    while i < n
        invariant
            n == nets@.len(),
            n == facts@.len(),
            i <= n,
            bv == board.deep_view(),
            nets@ == used_nets(bv),
            out@.len() == i,
            forall|j: int|
                0 <= j < i ==> (#[trigger] out@[j]).deep_view() == stats_of(bv, nets@[j], facts@[j]),
        decreases n - i,
    {
        out.push(net_stats(board, nets[i], &facts[i]));
        i += 1;
    }
    assert(out.deep_view() =~= all_stats(bv, facts@));
    out
}

/// The pads of a net are connected if and only if a walk over touching copper leads from each
/// pad to each other.
pub proof fn connected_means_joined_by_copper(b: BoardModelV, net: i64, f: NetFacts)
    ensures
        stats_of(b, net, f).connected <==> forall|x: int, y: int|
            0 <= x < footprint_elements(b.footprints, net).len() && 0 <= y < footprint_elements(
                b.footprints,
                net,
            ).len() ==> #[trigger] reaches(
                joining(elements_of(b, net), b.copper_layers, f.touching@),
                wires_of(b, net).len() + via_elements(b.vias, net).len() + x,
                wires_of(b, net).len() + via_elements(b.vias, net).len() + y,
            ),
{
    let elements = elements_of(b, net);
    let pairs = joining(elements, b.copper_layers, f.touching@);
    let pads = footprint_elements(b.footprints, net).len();
    let from = (wires_of(b, net).len() + via_elements(b.vias, net).len()) as int;
    let parts = pad_parts(b, net, f.touching@);
    joining_is_within(elements, b.copper_layers, f.touching@);
    assert(elements.len() == from + pads + zone_elements(b.zones, net).len());
    distinct_at_most_one(parts);
    assert forall|x: int, y: int| 0 <= x < pads && 0 <= y < pads implies (parts[x] == parts[y]
        <==> #[trigger] reaches(pairs, from + x, from + y)) by {
        sets_are_connected_parts(elements.len(), pairs, from + x, from + y);
    }
    if stats_of(b, net, f).connected {
        assert forall|x: int, y: int| 0 <= x < pads && 0 <= y < pads implies #[trigger] reaches(
            pairs,
            from + x,
            from + y,
        ) by {
            assert(parts[x] == parts[y]);
        }
    } else {
        let (x, y) = choose|x: int, y: int|
            0 <= x < parts.len() && 0 <= y < parts.len() && (#[trigger] parts[x])
                != (#[trigger] parts[y]);
        assert(!reaches(pairs, from + x, from + y));
    }
}

proof fn distinct_at_most_one(items: Seq<int>)
    ensures
        distinct(items).len() <= 1 <==> forall|x: int, y: int|
            0 <= x < items.len() && 0 <= y < items.len() ==> (#[trigger] items[x])
                == (#[trigger] items[y]),
    decreases items.len(),
{
    if items.len() > 0 {
        let front = items.drop_last();
        let d = distinct(front);
        distinct_at_most_one(front);
        distinct_holds(front, items.last());
        if distinct(items).len() <= 1 {
            assert(d.len() <= 1);
            assert forall|x: int, y: int| 0 <= x < items.len() && 0 <= y < items.len() implies (
            #[trigger] items[x]) == (#[trigger] items[y]) by {
                if x < front.len() && y < front.len() {
                    assert(front[x] == items[x] && front[y] == items[y]);
                } else if front.len() > 0 {
                    assert(d.len() == 1) by {
                        distinct_holds(front, front[0]);
                        assert(front.contains(front[0]));
                    }
                    assert(d.contains(items.last()));
                    let k = choose|k: int| 0 <= k < front.len() && front[k] == items.last();
                    if x < front.len() {
                        assert(front[x] == front[k]);
                    }
                    if y < front.len() {
                        assert(front[y] == front[k]);
                    }
                }
            }
        }
        if forall|x: int, y: int|
            0 <= x < items.len() && 0 <= y < items.len() ==> (#[trigger] items[x])
                == (#[trigger] items[y]) {
            assert forall|x: int, y: int| 0 <= x < front.len() && 0 <= y < front.len() implies (
            #[trigger] front[x]) == (#[trigger] front[y]) by {
                assert(items[x] == items[y]);
            }
            if front.len() > 0 {
                assert(items[0] == items[items.len() - 1]);
                assert(front[0] == items.last());
                assert(front.contains(items.last()));
            }
        }
    }
}

} // verus!
