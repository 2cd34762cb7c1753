//! What counts as the outline, a courtyard, a stub or a corner, and what a stackup tells.
use vstd::prelude::*;

use crate::score::board::{BoardModel, OutlinePiece, Point, StackupLayerV};
use crate::score::board_laws::ending_means_stem;
use crate::score::board_parse::{label_of, point_of};
use crate::score::board_read::{pieces_of, read_board, stackup_layer_of};
use crate::score::copper_laws::{is_on_layer, spans_between};
use crate::score::graphics::{courtyard_pieces, drawn, polygon_pieces, polyline, Form};
use crate::score::net_graph::{elements_of, track_elements, wires_of, ElementV};
use crate::score::net_stats::{
    could_merge, count_joints, is_acute, is_stub, is_terminal, net_stats, reverses, same_layer,
    stubs, turns_right, Joint, NetFacts, NetStats,
};
use crate::score::sexpr::{sym_at, SexprV};
use crate::score::stackup::{is_dielectric, knows_depths, knows_permittivity};
use crate::select::places;

verus! {

/// Only graphics on the layer of the edge cuts are outline.
pub proof fn only_edge_cuts_are_outline(tag: Seq<char>, c: Seq<SexprV>)
    ensures
        label_of(c, "layer"@) != Some("Edge.Cuts"@) ==> pieces_of(tag, c).len() == 0,
{
}

/// Only graphics on a courtyard layer, front or back, are courtyard, and on either they are.
pub proof fn only_courtyards_are_courtyard(c: Seq<SexprV>)
    requires
        c.len() > 0,
    ensures
        label_of(c, "layer"@) != Some("F.CrtYd"@) && label_of(c, "layer"@) != Some("B.CrtYd"@)
            ==> courtyard_pieces(SexprV::List(c)).len() == 0,
        (label_of(c, "layer"@) == Some("F.CrtYd"@) || label_of(c, "layer"@) == Some("B.CrtYd"@))
            && sym_at(c, 0) == Some("fp_line"@) && point_of(c, "start"@) is Some && point_of(
            c,
            "end"@,
        ) is Some ==> courtyard_pieces(SexprV::List(c)) == seq![
            OutlinePiece::Segment(point_of(c, "start"@)->0, point_of(c, "end"@)->0),
        ],
{
}

/// The pieces join end to end.
pub open spec fn are_joined(pieces: Seq<OutlinePiece>) -> bool {
    forall|i: int|
        0 <= i < pieces.len() - 1 ==> (#[trigger] pieces[i]) is Segment && pieces[i + 1] is Segment
            && pieces[i]->Segment_1 == pieces[i + 1]->Segment_0
}

proof fn lines_join(points: Seq<Point>, n: int)
    requires
        0 <= n <= points.len(),
    ensures
        n > 0 ==> polyline(points, n).len() == n - 1,
        forall|i: int|
            0 <= i < n - 1 ==> #[trigger] polyline(points, n)[i] == OutlinePiece::Segment(
                points[i],
                points[i + 1],
            ),
    decreases n,
{
    if n > 1 {
        lines_join(points, n - 1);
        assert forall|i: int| 0 <= i < n - 1 implies #[trigger] polyline(points, n)[i]
            == OutlinePiece::Segment(points[i], points[i + 1]) by {
            if i < n - 2 {
                assert(polyline(points, n)[i] == polyline(points, n - 1)[i]);
            }
        }
    }
}

/// A polygon of three points or more is a closed line through its points: as many pieces as points,
/// joined end to end, the last one back to the first point.
pub proof fn polygons_are_closed(points: Seq<Point>)
    requires
        points.len() > 2,
    ensures
        polygon_pieces(points).len() == points.len(),
        are_joined(polygon_pieces(points)),
        polygon_pieces(points).last()->Segment_1 == points[0],
        forall|i: int|
            0 <= i < points.len() ==> (#[trigger] polygon_pieces(points)[i])->Segment_0 == points[i],
{
    let n = points.len() as int;
    lines_join(points, n);
    let r = polygon_pieces(points);
    let f = polyline(points, n);
    assert forall|i: int| 0 <= i < n implies (#[trigger] r[i]) is Segment && r[i]->Segment_0
        == points[i] && r[i]->Segment_1 == points[if i + 1 < n {
        i + 1
    } else {
        0
    }] by {
        if i < n - 1 {
            assert(r[i] == f[i]);
        }
    }
}

/// An arc is drawn through its three points, a circle around its center.
pub proof fn arcs_pass_through_their_points(c: Seq<SexprV>)
    requires
        point_of(c, "start"@) is Some,
        point_of(c, "mid"@) is Some,
        point_of(c, "end"@) is Some,
        point_of(c, "center"@) is Some,
    ensures
        drawn(Form::Arc, c).len() == 2,
        are_joined(drawn(Form::Arc, c)),
        drawn(Form::Arc, c)[0]->Segment_0 == point_of(c, "start"@)->0,
        drawn(Form::Arc, c)[0]->Segment_1 == point_of(c, "mid"@)->0,
        drawn(Form::Arc, c)[1]->Segment_1 == point_of(c, "end"@)->0,
        drawn(Form::Circle, c) == seq![
            OutlinePiece::Circle(point_of(c, "center"@)->0, point_of(c, "end"@)->0),
        ],
{
}

/// A file that is no list, or does not start as a board file does, is refused; any other is read.
pub proof fn only_board_files_are_read(root: SexprV)
    ensures
        read_board(root) is Ok <==> root is List && root->List_0.len() > 0 && root->List_0[0] is Atom
            && root->List_0[0]->Atom_0.sym == Some("kicad_pcb"@),
{
}

/// A layer of the stackup without a type is copper where its name says so.
pub proof fn copper_is_known_by_name(c: Seq<SexprV>, l: StackupLayerV)
    requires
        stackup_layer_of(SexprV::List(c)) == Some(l),
        label_of(c, "type"@) is None,
    ensures
        (exists|stem: Seq<char>| l.name == #[trigger] (stem + ".Cu"@)) ==> l.kind == "copper"@,
        (forall|stem: Seq<char>| l.name != #[trigger] (stem + ".Cu"@)) ==> l.kind.len() == 0,
{
    ending_means_stem(l.name, ".Cu"@);
}

/// The depths of a stackup are known where it has copper; how it slows signals is known where it
/// also has a layer of another type with a permittivity.
pub proof fn stackups_tell_depths(board: BoardModel, depths: bool, permittivity: bool)
    requires
        knows_depths.ensures((&board,), depths),
        knows_permittivity.ensures((&board,), permittivity),
    ensures
        ({
            let s = board.deep_view().stackup;
            &&& depths <==> exists|i: int| 0 <= i < s.len() && (#[trigger] s[i]).kind == "copper"@
            &&& permittivity <==> depths && exists|i: int|
                0 <= i < s.len() && (#[trigger] s[i]).kind != "copper"@ && s[i].epsilon_r is Some
        }),
{
    let s = board.deep_view().stackup;
    if exists|i: int| 0 <= i < s.len() && (#[trigger] s[i]).kind != "copper"@ && s[i].epsilon_r is Some {
        let i = choose|i: int|
            0 <= i < s.len() && (#[trigger] s[i]).kind != "copper"@ && s[i].epsilon_r is Some;
        assert(is_dielectric(s[i]));
    }
    if exists|i: int| 0 <= i < s.len() && is_dielectric(#[trigger] s[i]) {
        let i = choose|i: int|
            0 <= i < s.len() && is_dielectric(#[trigger] s[i]);
        assert(s[i].kind != "copper"@);
    }
}

/// Two different tracks of a net are on one layer.
pub open spec fn share_layer(elements: Seq<ElementV>, tracks: nat, j: Joint) -> bool {
    &&& j.track < tracks
    &&& j.other < tracks
    &&& j.track != j.other
    &&& elements[j.track as int] == elements[j.other as int]
}

proof fn joints_counted(
    elements: Seq<ElementV>,
    tracks: nat,
    joints: Seq<Joint>,
    has: spec_fn(Joint) -> bool,
)
    ensures
        count_joints(elements, tracks, joints, has) == places(
            joints,
            |j: Joint| j.track < j.other && share_layer(elements, tracks, j) && has(j),
        ).len(),
    decreases joints.len(),
{
    if joints.len() > 0 {
        joints_counted(elements, tracks, joints.drop_last(), has);
    }
}

/// Corners and turns of a net count once for each two tracks of it that meet on one layer.
pub proof fn corners_count_once(board: BoardModel, net: i64, facts: NetFacts, r: NetStats)
    requires
        net_stats.ensures((&board, net, &facts), r),
    ensures
        ({
            let b = board.deep_view();
            let e = elements_of(b, net);
            let t = track_elements(b.tracks, net).len();
            &&& r.direction_reversals == places(
                facts.joints@,
                |j: Joint| j.track < j.other && share_layer(e, t, j) && j.reversal,
            ).len() as usize
            &&& r.right_angle_corners == places(
                facts.joints@,
                |j: Joint| j.track < j.other && share_layer(e, t, j) && j.right_angle,
            ).len() as usize
            &&& r.acute_junctions == places(
                facts.joints@,
                |j: Joint| j.track < j.other && share_layer(e, t, j) && j.acute,
            ).len() as usize
            &&& r.mergeable_pairs == places(
                facts.joints@,
                |j: Joint| j.track < j.other && share_layer(e, t, j) && j.mergeable,
            ).len() as usize
        }),
{
    let b = board.deep_view();
    let e = elements_of(b, net);
    let t = track_elements(b.tracks, net).len();
    joints_counted(e, t, facts.joints@, reverses());
    joints_counted(e, t, facts.joints@, turns_right());
    joints_counted(e, t, facts.joints@, is_acute());
    joints_counted(e, t, facts.joints@, could_merge());
    let f1 = |j: Joint| j.track < j.other && share_layer(e, t, j) && reverses()(j);
    let g1 = |j: Joint| j.track < j.other && share_layer(e, t, j) && j.reversal;
    assert(f1 =~= g1);
    let f2 = |j: Joint| j.track < j.other && share_layer(e, t, j) && turns_right()(j);
    let g2 = |j: Joint| j.track < j.other && share_layer(e, t, j) && j.right_angle;
    assert(f2 =~= g2);
    let f3 = |j: Joint| j.track < j.other && share_layer(e, t, j) && is_acute()(j);
    let g3 = |j: Joint| j.track < j.other && share_layer(e, t, j) && j.acute;
    assert(f3 =~= g3);
    let f4 = |j: Joint| j.track < j.other && share_layer(e, t, j) && could_merge()(j);
    let g4 = |j: Joint| j.track < j.other && share_layer(e, t, j) && j.mergeable;
    assert(f4 =~= g4);
}

/// The end of the track lies on another track or arc of its layer.
pub open spec fn goes_on(e: Seq<ElementV>, wires: nat, facts: NetFacts, end: (usize, bool)) -> bool {
    exists|k: int|
        0 <= k < facts.near@.len() && (#[trigger] facts.near@[k]).0 == end && facts.near@[k].1 < wires
            && facts.near@[k].1 != end.0 && e[facts.near@[k].1 as int] == e[end.0 as int]
}

/// The end of the track lies on a via, a pad or a fill that is on its layer.
pub open spec fn arrives(
    e: Seq<ElementV>,
    copper: Seq<Seq<char>>,
    facts: NetFacts,
    end: (usize, bool),
) -> bool {
    exists|k: int|
        0 <= k < facts.at@.len() && (#[trigger] facts.at@[k]).0 == end && facts.at@[k].1 < e.len()
            && !(e[facts.at@[k].1 as int] is Wire) && e[end.0 as int] is Wire && is_on_layer(
            e[facts.at@[k].1 as int],
            e[end.0 as int]->Wire_0,
            copper,
        )
}

proof fn stub_ends_hang(
    e: Seq<ElementV>,
    wires: nat,
    copper: Seq<Seq<char>>,
    facts: NetFacts,
    end: (usize, bool),
)
    requires
        copper.no_duplicates(),
        end.0 < wires,
    ensures
        is_stub(e, wires, copper, facts.near@, facts.at@, end) <==> !goes_on(e, wires, facts, end)
            && !arrives(e, copper, facts, end),
{
    assert forall|k: int| 0 <= k < facts.at@.len() && facts.at@[k].1 < e.len() implies is_terminal(
        e[(#[trigger] facts.at@[k]).1 as int],
        e[end.0 as int],
        copper,
    ) == (!(e[facts.at@[k].1 as int] is Wire) && e[end.0 as int] is Wire && is_on_layer(
        e[facts.at@[k].1 as int],
        e[end.0 as int]->Wire_0,
        copper,
    )) by {
        match (e[end.0 as int], e[facts.at@[k].1 as int]) {
            (ElementV::Wire(l), ElementV::Via(v)) => {
                spans_between(v, l, copper);
            },
            _ => {},
        }
    }
    let near = facts.near@;
    let at = facts.at@;
    if goes_on(e, wires, facts, end) {
        let k = choose|k: int|
            0 <= k < near.len() && (#[trigger] near[k]).0 == end && near[k].1 < wires && near[k].1
                != end.0 && e[near[k].1 as int] == e[end.0 as int];
        assert(same_layer(e, wires, end.0 as int, near[k].1 as int));
    }
    if arrives(e, copper, facts, end) {
        let k = choose|k: int|
            0 <= k < at.len() && (#[trigger] at[k]).0 == end && at[k].1 < e.len()
                && !(e[at[k].1 as int] is Wire) && e[end.0 as int] is Wire && is_on_layer(
                e[at[k].1 as int],
                e[end.0 as int]->Wire_0,
                copper,
            );
        assert(is_terminal(e[at[k].1 as int], e[end.0 as int], copper));
    }
}

proof fn stubs_found(
    e: Seq<ElementV>,
    wires: nat,
    copper: Seq<Seq<char>>,
    facts: NetFacts,
    n: int,
    i: usize,
)
    requires
        0 <= n <= wires,
        n <= usize::MAX,
        copper.no_duplicates(),
    ensures
        stubs(e, wires, copper, facts.near@, facts.at@, n).contains(i) <==> i < n && exists|second: bool|
            !#[trigger] goes_on(e, wires, facts, (i, second)) && !arrives(
                e,
                copper,
                facts,
                (i, second),
            ),
    decreases n,
{
    if n > 0 {
        stubs_found(e, wires, copper, facts, n - 1, i);
        let k = (n - 1) as usize;
        stub_ends_hang(e, wires, copper, facts, (k, false));
        stub_ends_hang(e, wires, copper, facts, (k, true));
        let f = stubs(e, wires, copper, facts.near@, facts.at@, n - 1);
        let a = if is_stub(e, wires, copper, facts.near@, facts.at@, (k, false)) {
            seq![k]
        } else {
            Seq::empty()
        };
        let b = if is_stub(e, wires, copper, facts.near@, facts.at@, (k, true)) {
            seq![k]
        } else {
            Seq::empty()
        };
        let r = stubs(e, wires, copper, facts.near@, facts.at@, n);
        assert(r == f + a + b);
        if f.contains(i) {
            let x = choose|x: int| 0 <= x < f.len() && f[x] == i;
            assert(r[x] == i);
        }
        if r.contains(i) {
            let x = choose|x: int| 0 <= x < r.len() && r[x] == i;
            if x < f.len() {
                assert(f[x] == i);
            } else if x < f.len() + a.len() {
                assert(a[x - f.len()] == i);
                assert(!goes_on(e, wires, facts, (i, false)));
            } else {
                assert(b[x - f.len() - a.len()] == i);
                assert(!goes_on(e, wires, facts, (i, true)));
            }
        }
        if i == k {
            if a.len() > 0 {
                assert(r[f.len() as int] == i);
            }
            if b.len() > 0 {
                assert(r[(f.len() + a.len()) as int] == i);
            }
            if exists|second: bool|
                !#[trigger] goes_on(e, wires, facts, (i, second)) && !arrives(
                    e,
                    copper,
                    facts,
                    (i, second),
                ) {
                let second = choose|second: bool|
                    !#[trigger] goes_on(e, wires, facts, (i, second)) && !arrives(
                        e,
                        copper,
                        facts,
                        (i, second),
                    );
                assert(second || !second);
            }
        }
    }
}

/// A track is a stub where one of its ends hangs: it lies on no other track or arc of its layer, and
/// on no via, pad or fill that is on its layer.
pub proof fn stubs_are_ends_that_hang(
    board: BoardModel,
    net: i64,
    facts: NetFacts,
    r: NetStats,
    i: usize,
)
    requires
        net_stats.ensures((&board, net, &facts), r),
        board.deep_view().copper_layers.no_duplicates(),
        track_elements(board.deep_view().tracks, net).len() <= usize::MAX,
    ensures
        ({
            let b = board.deep_view();
            let e = elements_of(b, net);
            let wires = wires_of(b, net).len();
            r.stub_ends@.contains(i) <==> i < track_elements(b.tracks, net).len() && exists|second: bool|
                !#[trigger] goes_on(e, wires, facts, (i, second)) && !arrives(
                    e,
                    b.copper_layers,
                    facts,
                    (i, second),
                )
        }),
{
    let b = board.deep_view();
    let e = elements_of(b, net);
    let wires = wires_of(b, net).len();
    assert(r.stub_ends.deep_view() =~= r.stub_ends@);
    stubs_found(e, wires, b.copper_layers, facts, track_elements(b.tracks, net).len() as int, i);
}

} // verus!
