//! A whole board written out as a file, and that it is read back as it was.
use vstd::prelude::*;

use crate::score::board::{
    ArcTrackV, BoardModelV, FootprintV, OutlinePiece, StackupLayerV, TrackV, ViaV, ZoneV,
};
use crate::score::board_read::{
    board_of, copper_layer_of, copper_layers_of, empty_board, pieces_of, read_board, setup_layers,
    stackup_layer_of, stackup_layers_of, with_node, with_tagged,
};
use crate::score::graphics::{board_form, Form};
use crate::score::sexpr::SexprV;
use crate::score::written::{
    arc_fields, arcs_are_read_back, footprint_fields, footprints_are_read_back, found_child, label,
    measure, missing_child, names_differ, point, quote, segment_fields, sym, tracks_are_read_back,
    via_fields, vias_are_read_back, whole, zone_fields, zones_are_read_back,
};
use crate::sorted_map::map_put;
use crate::text::ends_in;

verus! {

/// The section of the layers.
pub open spec fn layer_fields(b: BoardModelV) -> Seq<SexprV> {
    seq![sym("layers"@)] + Seq::new(
        b.copper_layers.len(),
        |i: int| SexprV::List(seq![whole(0), quote(b.copper_layers[i]), sym("signal"@)]),
    )
}

/// A net.
pub open spec fn net_node(e: (i64, Seq<char>)) -> SexprV {
    SexprV::List(seq![sym("net"@), whole(e.0), quote(e.1)])
}

/// A piece of the outline.
pub open spec fn outline_node(p: OutlinePiece) -> SexprV {
    match p {
        OutlinePiece::Segment(a, b) => SexprV::List(
            seq![
                sym("gr_line"@),
                point("start"@, a),
                point("end"@, b),
                label("layer"@, "Edge.Cuts"@),
            ],
        ),
        OutlinePiece::Circle(a, b) => SexprV::List(
            seq![
                sym("gr_circle"@),
                point("center"@, a),
                point("end"@, b),
                label("layer"@, "Edge.Cuts"@),
            ],
        ),
    }
}

/// A layer of the stackup.
pub open spec fn stackup_node(l: StackupLayerV) -> SexprV {
    SexprV::List(
        seq![sym("layer"@), quote(l.name), label("type"@, l.kind)] + (match l.thickness_mm {
            Some(x) => seq![measure("thickness"@, x)],
            None => Seq::empty(),
        }) + (match l.epsilon_r {
            Some(x) => seq![measure("epsilon_r"@, x)],
            None => Seq::empty(),
        }),
    )
}

/// The stackup.
pub open spec fn stackup_fields(list: Seq<StackupLayerV>) -> Seq<SexprV> {
    seq![sym("stackup"@)] + Seq::new(list.len(), |i: int| stackup_node(list[i]))
}

/// The file of a board.
pub open spec fn board_items(b: BoardModelV) -> Seq<SexprV> {
    seq![sym("kicad_pcb"@), SexprV::List(layer_fields(b))] + Seq::new(
        b.nets.len(),
        |i: int| net_node(b.nets[i]),
    ) + Seq::new(b.tracks.len(), |i: int| SexprV::List(segment_fields(b.tracks[i]))) + Seq::new(
        b.arcs.len(),
        |i: int| SexprV::List(arc_fields(b.arcs[i])),
    ) + Seq::new(b.vias.len(), |i: int| SexprV::List(via_fields(b.vias[i]))) + Seq::new(
        b.zones.len(),
        |i: int| SexprV::List(zone_fields(b.zones[i])),
    ) + Seq::new(b.footprints.len(), |i: int| SexprV::List(footprint_fields(b.footprints[i])))
        + Seq::new(b.outline.len(), |i: int| outline_node(b.outline[i])) + seq![
        SexprV::List(seq![sym("setup"@), SexprV::List(stackup_fields(b.stackup))]),
    ]
}

/// The board can be written out: its copper layers are named as such, its nets stand by rising
/// number, its vias are of a known kind, pads without a net name none, and the layers of its stackup
/// have a type, unless they are not named as copper.
pub open spec fn can_be_written(b: BoardModelV) -> bool {
    &&& forall|i: int|
        0 <= i < b.copper_layers.len() ==> ends_in(#[trigger] b.copper_layers[i], ".Cu"@)
    &&& forall|i: int, j: int|
        0 <= i < j < b.nets.len() ==> (#[trigger] b.nets[i]).0 < (#[trigger] b.nets[j]).0
    &&& forall|i: int|
        0 <= i < b.vias.len() ==> (#[trigger] b.vias[i]).kind == "via"@ || b.vias[i].kind
            == "blind"@ || b.vias[i].kind == "micro"@
    &&& forall|i: int, k: int|
        0 <= i < b.footprints.len() && 0 <= k < b.footprints[i].pads.len() ==> ((
        #[trigger] b.footprints[i].pads[k]).net is None ==> b.footprints[i].pads[k].net_name
            is None)
    &&& forall|i: int|
        0 <= i < b.stackup.len() ==> (#[trigger] b.stackup[i]).kind.len() > 0 || !ends_in(
            b.stackup[i].name,
            ".Cu"@,
        )
}

proof fn tags_differ()
    ensures
        "net"@ != "layers"@,
        "segment"@ != "layers"@,
        "segment"@ != "net"@,
        "arc"@ != "layers"@,
        "arc"@ != "net"@,
        "arc"@ != "segment"@,
        "via"@ != "layers"@,
        "via"@ != "net"@,
        "via"@ != "segment"@,
        "via"@ != "arc"@,
        "zone"@ != "layers"@,
        "zone"@ != "net"@,
        "zone"@ != "segment"@,
        "zone"@ != "arc"@,
        "zone"@ != "via"@,
        "footprint"@ != "layers"@,
        "footprint"@ != "net"@,
        "footprint"@ != "segment"@,
        "footprint"@ != "arc"@,
        "footprint"@ != "via"@,
        "footprint"@ != "zone"@,
{
    reveal_strlit("net");
    reveal_strlit("layers");
    reveal_strlit("segment");
    reveal_strlit("arc");
    reveal_strlit("via");
    reveal_strlit("zone");
    reveal_strlit("footprint");
    assert("net"@[0] == 'n');
    assert("layers"@[0] == 'l');
    assert("segment"@[0] == 's');
    assert("arc"@[0] == 'a');
    assert("via"@[0] == 'v');
    assert("zone"@[0] == 'z');
    assert("footprint"@[0] == 'f');
}

proof fn drawing_tags()
    ensures
        forall|b: BoardModelV, c: Seq<SexprV>| #[trigger]
            with_tagged(b, "gr_line"@, c) == (BoardModelV {
                outline: b.outline + pieces_of("gr_line"@, c),
                ..b
            }),
        forall|b: BoardModelV, c: Seq<SexprV>| #[trigger]
            with_tagged(b, "gr_circle"@, c) == (BoardModelV {
                outline: b.outline + pieces_of("gr_circle"@, c),
                ..b
            }),
        forall|b: BoardModelV, c: Seq<SexprV>| #[trigger]
            with_tagged(b, "setup"@, c) == (BoardModelV {
                stackup: b.stackup + setup_layers(c),
                ..b
            }),
        board_form("gr_line"@) == Some(Form::Line),
        board_form("gr_circle"@) == Some(Form::Circle),
        "center"@ != "end"@,
        "center"@ != "layer"@,
        "type"@ != "thickness"@,
        "type"@ != "epsilon_r"@,
        "thickness"@ != "epsilon_r"@,
{
    reveal_strlit("gr_line");
    reveal_strlit("gr_rect");
    reveal_strlit("gr_arc");
    reveal_strlit("gr_circle");
    reveal_strlit("gr_poly");
    reveal_strlit("setup");
    reveal_strlit("net");
    reveal_strlit("layers");
    reveal_strlit("segment");
    reveal_strlit("arc");
    reveal_strlit("via");
    reveal_strlit("zone");
    reveal_strlit("footprint");
    reveal_strlit("center");
    reveal_strlit("end");
    reveal_strlit("layer");
    reveal_strlit("type");
    reveal_strlit("thickness");
    reveal_strlit("epsilon_r");
    assert("gr_line"@[0] == 'g' && "gr_line"@[3] == 'l');
    assert("gr_rect"@[0] == 'g' && "gr_rect"@[3] == 'r');
    assert("gr_arc"@[0] == 'g' && "gr_arc"@[3] == 'a');
    assert("gr_circle"@[0] == 'g' && "gr_circle"@[3] == 'c');
    assert("gr_poly"@[0] == 'g' && "gr_poly"@[3] == 'p');
    assert("setup"@[0] == 's' && "setup"@.len() == 5);
    assert("net"@[0] == 'n');
    assert("layers"@[0] == 'l');
    assert("segment"@[0] == 's' && "segment"@.len() == 7);
    assert("arc"@[0] == 'a');
    assert("via"@[0] == 'v');
    assert("zone"@[0] == 'z');
    assert("footprint"@[0] == 'f');
    assert("center"@[0] == 'c');
    assert("end"@[0] == 'e');
    assert("layer"@[0] == 'l');
    assert("type"@[0] == 't' && "type"@.len() == 4);
    assert("thickness"@[0] == 't' && "thickness"@.len() == 9);
    assert("epsilon_r"@[0] == 'e');
}

proof fn layers_are_read_back(b: BoardModelV, n: int)
    requires
        can_be_written(b),
        1 <= n <= b.copper_layers.len() + 1,
    ensures
        copper_layers_of(layer_fields(b), n) == b.copper_layers.take(n - 1),
    decreases n,
{
    let c = layer_fields(b);
    if n > 1 {
        layers_are_read_back(b, n - 1);
        let name = b.copper_layers[n - 2];
        let fields = seq![whole(0), quote(name), sym("signal"@)];
        assert(c[n - 1] == SexprV::List(fields));
        assert(ends_in(name, ".Cu"@));
        assert(copper_layer_of(c[n - 1]) == Some(name));
        assert(b.copper_layers.take(n - 1) =~= b.copper_layers.take(n - 2).push(name));
    } else {
        assert(b.copper_layers.take(0) =~= Seq::empty());
    }
}

proof fn put_at_end(entries: Seq<(i64, Seq<char>)>, key: i64, v: Seq<char>)
    requires
        forall|i: int| 0 <= i < entries.len() ==> (#[trigger] entries[i]).0 < key,
    ensures
        map_put::<i64, String>(entries, key, v) == entries.push((key, v)),
    decreases entries.len(),
{
    if entries.len() > 0 {
        let rest = entries.drop_first();
        assert(entries[0].0 < key);
        assert forall|i: int| 0 <= i < rest.len() implies (#[trigger] rest[i]).0 < key by {
            assert(rest[i] == entries[i + 1]);
        }
        put_at_end(rest, key, v);
        assert(seq![entries[0]] + rest.push((key, v)) =~= entries.push((key, v)));
    } else {
        assert(seq![(key, v)] =~= entries.push((key, v)));
    }
}


proof fn nets_are_read(items: Seq<SexprV>, at: int, list: Seq<(i64, Seq<char>)>, n: int, b: BoardModelV)
    requires
        1 <= at,
        0 <= n <= list.len(),
        board_of(items, at) == b,
        b.nets.len() == 0,
        forall|i: int, j: int| 0 <= i < j < list.len() ==> (#[trigger] list[i]).0 < (#[trigger] list[j]).0,
        forall|i: int| 0 <= i < list.len() ==> #[trigger] items[at + i] == net_node(list[i]),
    ensures
        board_of(items, at + n) == (BoardModelV { nets: list.take(n), ..b }),
    decreases n,
{
    if n > 0 {
        nets_are_read(items, at, list, n - 1, b);
        tags_differ();
        let e = list[n - 1];
        assert(items[at + (n - 1)] == net_node(e));
        let front = list.take(n - 1);
        assert forall|i: int| 0 <= i < front.len() implies (#[trigger] front[i]).0 < e.0 by {
            assert(list[i].0 < list[n - 1].0);
        }
        put_at_end(front, e.0, e.1);
        assert(list.take(n) =~= front.push(e));
        assert(board_of(items, at + n) == with_node(board_of(items, at + n - 1), items[at + n - 1]));
    } else {
        assert(list.take(0) =~= b.nets);
    }
}

proof fn tracks_are_read(items: Seq<SexprV>, at: int, list: Seq<TrackV>, n: int, b: BoardModelV)
    requires
        1 <= at,
        0 <= n <= list.len(),
        board_of(items, at) == b,
        b.tracks.len() == 0,
        forall|i: int|
            0 <= i < list.len() ==> #[trigger] items[at + i] == SexprV::List(segment_fields(list[i])),
    ensures
        board_of(items, at + n) == (BoardModelV { tracks: list.take(n), ..b }),
    decreases n,
{
    if n > 0 {
        tracks_are_read(items, at, list, n - 1, b);
        tags_differ();
        assert(items[at + (n - 1)] == SexprV::List(segment_fields(list[n - 1])));
        tracks_are_read_back(list[n - 1]);
        assert(list.take(n) =~= list.take(n - 1).push(list[n - 1]));
        assert(board_of(items, at + n) == with_node(board_of(items, at + n - 1), items[at + n - 1]));
    } else {
        assert(list.take(0) =~= b.tracks);
    }
}

proof fn arcs_are_read(items: Seq<SexprV>, at: int, list: Seq<ArcTrackV>, n: int, b: BoardModelV)
    requires
        1 <= at,
        0 <= n <= list.len(),
        board_of(items, at) == b,
        b.arcs.len() == 0,
        forall|i: int|
            0 <= i < list.len() ==> #[trigger] items[at + i] == SexprV::List(arc_fields(list[i])),
    ensures
        board_of(items, at + n) == (BoardModelV { arcs: list.take(n), ..b }),
    decreases n,
{
    if n > 0 {
        arcs_are_read(items, at, list, n - 1, b);
        tags_differ();
        assert(items[at + (n - 1)] == SexprV::List(arc_fields(list[n - 1])));
        arcs_are_read_back(list[n - 1]);
        assert(list.take(n) =~= list.take(n - 1).push(list[n - 1]));
        assert(board_of(items, at + n) == with_node(board_of(items, at + n - 1), items[at + n - 1]));
    } else {
        assert(list.take(0) =~= b.arcs);
    }
}

proof fn vias_are_read(items: Seq<SexprV>, at: int, list: Seq<ViaV>, n: int, b: BoardModelV)
    requires
        1 <= at,
        0 <= n <= list.len(),
        board_of(items, at) == b,
        b.vias.len() == 0,
        forall|i: int|
            0 <= i < list.len() ==> #[trigger] items[at + i] == SexprV::List(via_fields(list[i])),
        forall|i: int|
            0 <= i < list.len() ==> (#[trigger] list[i]).kind == "via"@ || list[i].kind == "blind"@
                || list[i].kind == "micro"@,
    ensures
        board_of(items, at + n) == (BoardModelV { vias: list.take(n), ..b }),
    decreases n,
{
    if n > 0 {
        vias_are_read(items, at, list, n - 1, b);
        tags_differ();
        assert(items[at + (n - 1)] == SexprV::List(via_fields(list[n - 1])));
        vias_are_read_back(list[n - 1]);
        assert(via_fields(list[n - 1])[0] == sym("via"@));
        assert(list.take(n) =~= list.take(n - 1).push(list[n - 1]));
        assert(board_of(items, at + n) == with_node(board_of(items, at + n - 1), items[at + n - 1]));
    } else {
        assert(list.take(0) =~= b.vias);
    }
}

proof fn zones_are_read(items: Seq<SexprV>, at: int, list: Seq<ZoneV>, n: int, b: BoardModelV)
    requires
        1 <= at,
        0 <= n <= list.len(),
        board_of(items, at) == b,
        b.zones.len() == 0,
        forall|i: int|
            0 <= i < list.len() ==> #[trigger] items[at + i] == SexprV::List(zone_fields(list[i])),
    ensures
        board_of(items, at + n) == (BoardModelV { zones: list.take(n), ..b }),
    decreases n,
{
    if n > 0 {
        zones_are_read(items, at, list, n - 1, b);
        tags_differ();
        assert(items[at + (n - 1)] == SexprV::List(zone_fields(list[n - 1])));
        zones_are_read_back(list[n - 1]);
        assert(zone_fields(list[n - 1])[0] == sym("zone"@));
        assert(list.take(n) =~= list.take(n - 1).push(list[n - 1]));
        assert(board_of(items, at + n) == with_node(board_of(items, at + n - 1), items[at + n - 1]));
    } else {
        assert(list.take(0) =~= b.zones);
    }
}

proof fn footprints_are_read(
    items: Seq<SexprV>,
    at: int,
    list: Seq<FootprintV>,
    n: int,
    b: BoardModelV,
)
    requires
        1 <= at,
        0 <= n <= list.len(),
        board_of(items, at) == b,
        b.footprints.len() == 0,
        forall|i: int|
            0 <= i < list.len() ==> #[trigger] items[at + i] == SexprV::List(
                footprint_fields(list[i]),
            ),
        forall|i: int, k: int|
            0 <= i < list.len() && 0 <= k < list[i].pads.len() ==> ((
            #[trigger] list[i].pads[k]).net is None ==> list[i].pads[k].net_name is None),
    ensures
        board_of(items, at + n) == (BoardModelV { footprints: list.take(n), ..b }),
    decreases n,
{
    if n > 0 {
        footprints_are_read(items, at, list, n - 1, b);
        tags_differ();
        assert(items[at + (n - 1)] == SexprV::List(footprint_fields(list[n - 1])));
        footprints_are_read_back(list[n - 1]);
        assert(footprint_fields(list[n - 1])[0] == sym("footprint"@));
        assert(list.take(n) =~= list.take(n - 1).push(list[n - 1]));
        assert(board_of(items, at + n) == with_node(board_of(items, at + n - 1), items[at + n - 1]));
    } else {
        assert(list.take(0) =~= b.footprints);
    }
}

proof fn outline_is_read(
    items: Seq<SexprV>,
    at: int,
    list: Seq<OutlinePiece>,
    n: int,
    b: BoardModelV,
)
    requires
        1 <= at,
        0 <= n <= list.len(),
        board_of(items, at) == b,
        b.outline.len() == 0,
        forall|i: int| 0 <= i < list.len() ==> #[trigger] items[at + i] == outline_node(list[i]),
    ensures
        board_of(items, at + n) == (BoardModelV { outline: list.take(n), ..b }),
    decreases n,
{
    if n > 0 {
        outline_is_read(items, at, list, n - 1, b);
        drawing_tags();
        names_differ();
        let p = list[n - 1];
        assert(items[at + (n - 1)] == outline_node(p));
        let c = outline_node(p)->List_0;
        match p {
            OutlinePiece::Segment(x, y) => {
                found_child(c, "start"@, 1);
            },
            OutlinePiece::Circle(x, y) => {
                found_child(c, "center"@, 1);
            },
        }
        found_child(c, "end"@, 2);
        found_child(c, "layer"@, 3);
        assert(list.take(n) =~= list.take(n - 1) + seq![p]);
        assert(board_of(items, at + n) == with_node(board_of(items, at + n - 1), items[at + n - 1]));
    } else {
        assert(list.take(0) =~= b.outline);
    }
}

proof fn stackup_layer_is_read_back(l: StackupLayerV)
    requires
        l.kind.len() > 0 || !ends_in(l.name, ".Cu"@),
    ensures
        stackup_layer_of(stackup_node(l)) == Some(l),
{
    drawing_tags();
    let c = stackup_node(l)->List_0;
    assert(c[0] == sym("layer"@));
    assert(c[1] == quote(l.name));
    found_child(c, "type"@, 2);
    let k: int = if l.thickness_mm is Some {
        4
    } else {
        3
    };
    match l.thickness_mm {
        Some(x) => {
            assert(c[3] == measure("thickness"@, x));
            found_child(c, "thickness"@, 3);
        },
        None => {
            assert(l.epsilon_r matches Some(x) ==> c[3] == measure("epsilon_r"@, x));
            missing_child(c, "thickness"@);
        },
    }
    match l.epsilon_r {
        Some(x) => {
            assert(c[k] == measure("epsilon_r"@, x));
            found_child(c, "epsilon_r"@, k);
        },
        None => {
            missing_child(c, "epsilon_r"@);
        },
    }
    if l.kind.len() == 0 {
        assert(l.kind =~= Seq::empty());
    }
}

proof fn stackup_is_read_back(list: Seq<StackupLayerV>, n: int)
    requires
        1 <= n <= list.len() + 1,
        forall|i: int|
            0 <= i < list.len() ==> (#[trigger] list[i]).kind.len() > 0 || !ends_in(
                list[i].name,
                ".Cu"@,
            ),
    ensures
        stackup_layers_of(stackup_fields(list), n) == list.take(n - 1),
    decreases n,
{
    if n > 1 {
        stackup_is_read_back(list, n - 1);
        assert(stackup_fields(list)[n - 1] == stackup_node(list[n - 2]));
        stackup_layer_is_read_back(list[n - 2]);
        assert(list.take(n - 1) =~= list.take(n - 2).push(list[n - 2]));
    } else {
        assert(list.take(0) =~= Seq::empty());
    }
}

/// A board that is written out is read back as it was: layers, nets, tracks, arcs, vias, zones,
/// footprints, outline and stackup, all of them and in order.
pub proof fn boards_are_read_back(b: BoardModelV)
    requires
        can_be_written(b),
    ensures
        read_board(SexprV::List(board_items(b))) == Ok::<_, Seq<char>>(b),
{
    let items = board_items(b);
    let e = empty_board();
    tags_differ();
    assert(items[0] == sym("kicad_pcb"@));
    assert(items[1] == SexprV::List(layer_fields(b)));
    assert(layer_fields(b)[0] == sym("layers"@));
    layers_are_read_back(b, b.copper_layers.len() as int + 1);
    assert(b.copper_layers.take(b.copper_layers.len() as int) =~= b.copper_layers);
    assert(board_of(items, 1) == e);
    let b0 = BoardModelV { copper_layers: b.copper_layers, ..e };
    assert(Seq::<Seq<char>>::empty() + b.copper_layers =~= b.copper_layers);
    assert(board_of(items, 2) == with_node(board_of(items, 1), items[1]));
    assert(board_of(items, 2) =~= b0);
    let a1: int = 2;
    assert forall|i: int| 0 <= i < b.nets.len() implies #[trigger] items[a1 + i] == net_node(
        b.nets[i],
    ) by {}
    nets_are_read(items, a1, b.nets, b.nets.len() as int, b0);
    assert(b.nets.take(b.nets.len() as int) =~= b.nets);
    let b1 = BoardModelV { nets: b.nets, ..b0 };
    let a2 = a1 + b.nets.len();
    assert forall|i: int| 0 <= i < b.tracks.len() implies #[trigger] items[a2 + i] == SexprV::List(
        segment_fields(b.tracks[i]),
    ) by {}
    tracks_are_read(items, a2, b.tracks, b.tracks.len() as int, b1);
    assert(b.tracks.take(b.tracks.len() as int) =~= b.tracks);
    let b2 = BoardModelV { tracks: b.tracks, ..b1 };
    let a3 = a2 + b.tracks.len();
    assert forall|i: int| 0 <= i < b.arcs.len() implies #[trigger] items[a3 + i] == SexprV::List(
        arc_fields(b.arcs[i]),
    ) by {}
    arcs_are_read(items, a3, b.arcs, b.arcs.len() as int, b2);
    assert(b.arcs.take(b.arcs.len() as int) =~= b.arcs);
    let b3 = BoardModelV { arcs: b.arcs, ..b2 };
    let a4 = a3 + b.arcs.len();
    assert forall|i: int| 0 <= i < b.vias.len() implies #[trigger] items[a4 + i] == SexprV::List(
        via_fields(b.vias[i]),
    ) by {}
    vias_are_read(items, a4, b.vias, b.vias.len() as int, b3);
    assert(b.vias.take(b.vias.len() as int) =~= b.vias);
    let b4 = BoardModelV { vias: b.vias, ..b3 };
    let a5 = a4 + b.vias.len();
    assert forall|i: int| 0 <= i < b.zones.len() implies #[trigger] items[a5 + i] == SexprV::List(
        zone_fields(b.zones[i]),
    ) by {}
    zones_are_read(items, a5, b.zones, b.zones.len() as int, b4);
    assert(b.zones.take(b.zones.len() as int) =~= b.zones);
    let b5 = BoardModelV { zones: b.zones, ..b4 };
    let a6 = a5 + b.zones.len();
    assert forall|i: int| 0 <= i < b.footprints.len() implies #[trigger] items[a6 + i]
        == SexprV::List(footprint_fields(b.footprints[i])) by {}
    footprints_are_read(items, a6, b.footprints, b.footprints.len() as int, b5);
    assert(b.footprints.take(b.footprints.len() as int) =~= b.footprints);
    let b6 = BoardModelV { footprints: b.footprints, ..b5 };
    let a7 = a6 + b.footprints.len();
    assert forall|i: int| 0 <= i < b.outline.len() implies #[trigger] items[a7 + i]
        == outline_node(b.outline[i]) by {}
    outline_is_read(items, a7, b.outline, b.outline.len() as int, b6);
    assert(b.outline.take(b.outline.len() as int) =~= b.outline);
    let b7 = BoardModelV { outline: b.outline, ..b6 };
    let a8 = a7 + b.outline.len();
    let setup = seq![sym("setup"@), SexprV::List(stackup_fields(b.stackup))];
    assert(items[a8] == SexprV::List(setup));
    assert(items.len() == a8 + 1);
    drawing_tags();
    assert(stackup_fields(b.stackup)[0] == sym("stackup"@));
    found_child(setup, "stackup"@, 1);
    stackup_is_read_back(b.stackup, b.stackup.len() as int + 1);
    assert(b.stackup.take(b.stackup.len() as int) =~= b.stackup);
    assert(Seq::<StackupLayerV>::empty() + b.stackup =~= b.stackup);
    assert(board_of(items, a8 + 1) == with_node(board_of(items, a8), items[a8]));
    assert(board_of(items, a8 + 1) =~= b);
}

} // verus!
