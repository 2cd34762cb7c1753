//! Reading a whole board file: layers, nets, copper, footprints, outline and stackup.
use vstd::prelude::*;

use crate::score::board::{
    BoardModel, BoardModelV, OutlinePiece, StackupLayer, StackupLayerV,
};
use crate::score::board_parse::{
    arc_of, blank_or, find_label, find_scalar, footprint_of, label_of, or_blank, parse_arc,
    parse_footprint, parse_segment, parse_via, parse_zone, point_of, scalar_of, track_of, via_of,
    zone_of,
};
use crate::score::graphics::{board_form, draw, drawn, read_board_form, Form};
use crate::score::sexpr::{
    child_list, find_child_list, get_int, get_sym, get_text, int_at, list_of, sym_at, sym_is,
    text_at, Sexpr, SexprV,
};
use crate::sorted_map::{keys_rise, map_put, map_put_keeps_order, put_entry};
use crate::text::{ends_in, ends_with, is_empty_text, same};

verus! {

/// The entry names a copper layer that carries signals.
pub open spec fn copper_layer_of(v: SexprV) -> Option<Seq<char>> {
    match list_of(v) {
        Some(fields) => match (text_at(fields, 1), sym_at(fields, 2)) {
            (Some(name), Some(kind)) => if (kind == "signal"@ || kind == "power"@ || kind
                == "mixed"@) && ends_in(name, ".Cu"@) {
                Some(name)
            } else {
                None
            },
            _ => None,
        },
        None => None,
    }
}

/// The copper layers among the items after the first, up to `n`.
pub open spec fn copper_layers_of(items: Seq<SexprV>, n: int) -> Seq<Seq<char>>
    decreases n,
{
    if n <= 1 {
        Seq::empty()
    } else {
        match copper_layer_of(items[n - 1]) {
            Some(name) => copper_layers_of(items, n - 1).push(name),
            None => copper_layers_of(items, n - 1),
        }
    }
}

fn read_copper_layer(v: &Sexpr) -> (r: Option<String>)
    ensures
        r.deep_view() == copper_layer_of(v.value()),
{
    match v.as_list() {
        Some(fields) => match (get_text(fields, 1), get_sym(fields, 2)) {
            (Some(name), Some(kind)) => {
                let k = kind.as_str();
                if (same(k, "signal") || same(k, "power") || same(k, "mixed")) && ends_with(
                    name.as_str(),
                    ".Cu",
                ) {
                    Some(name.clone())
                } else {
                    None
                }
            },
            _ => None,
        },
        None => None,
    }
}

/// The pieces of outline that a graphic of the given tag is.
pub open spec fn pieces_of(tag: Seq<char>, c: Seq<SexprV>) -> Seq<OutlinePiece> {
    match board_form(tag) {
        Some(form) => if label_of(c, "layer"@) == Some("Edge.Cuts"@) {
            drawn(form, c)
        } else {
            Seq::empty()
        },
        None => Seq::empty(),
    }
}

/// The pieces of outline that a graphic of the given tag is.
pub fn parse_outline_graphic(tag: &str, children: &Vec<Sexpr>) -> (r: Vec<OutlinePiece>)
    ensures
        r@ == pieces_of(tag@, children.deep_view()),
{
    let on_edge: bool = match find_label(children, "layer") {
        Some(l) => same(l.as_str(), "Edge.Cuts"),
        None => false,
    };
    match read_board_form(tag) {
        Some(form) if on_edge => draw(form, children),
        _ => {
            let none: Vec<OutlinePiece> = Vec::new();
            assert(none@ =~= Seq::empty());
            none
        },
    }
}

/// The layer that an entry of the stackup describes. A copper layer without a type is known by
/// its name.
pub open spec fn stackup_layer_of(v: SexprV) -> Option<StackupLayerV> {
    match list_of(v) {
        Some(fields) => match text_at(fields, 1) {
            Some(name) => if sym_at(fields, 0) == Some("layer"@) {
                let kind = or_blank(label_of(fields, "type"@));
                Some(
                    StackupLayerV {
                        name,
                        kind: if kind.len() > 0 {
                            kind
                        } else if ends_in(name, ".Cu"@) {
                            "copper"@
                        } else {
                            Seq::empty()
                        },
                        thickness_mm: scalar_of(fields, "thickness"@),
                        epsilon_r: scalar_of(fields, "epsilon_r"@),
                    },
                )
            } else {
                None
            },
            None => None,
        },
        None => None,
    }
}

/// The layers of a stackup among the items after the first, up to `n`.
pub open spec fn stackup_layers_of(items: Seq<SexprV>, n: int) -> Seq<StackupLayerV>
    decreases n,
{
    if n <= 1 {
        Seq::empty()
    } else {
        match stackup_layer_of(items[n - 1]) {
            Some(l) => stackup_layers_of(items, n - 1).push(l),
            None => stackup_layers_of(items, n - 1),
        }
    }
}

/// The layers of the stackup that a setup holds.
pub open spec fn setup_layers(c: Seq<SexprV>) -> Seq<StackupLayerV> {
    match child_list(c, "stackup"@) {
        Some(list) => stackup_layers_of(list, list.len() as int),
        None => Seq::empty(),
    }
}

fn read_stackup_layer(v: &Sexpr) -> (r: Option<StackupLayer>)
    ensures
        r.deep_view() == stackup_layer_of(v.value()),
{
    match v.as_list() {
        Some(fields) => match get_text(fields, 1) {
            Some(name) => if sym_is(fields, 0, "layer") {
                let kind = blank_or(find_label(fields, "type"));
                let kind = if !is_empty_text(kind.as_str()) {
                    kind
                } else if ends_with(name.as_str(), ".Cu") {
                    "copper".to_string()
                } else {
                    blank_or(None)
                };
                Some(
                    StackupLayer {
                        name: name.clone(),
                        kind,
                        thickness_mm: find_scalar(fields, "thickness"),
                        epsilon_r: find_scalar(fields, "epsilon_r"),
                    },
                )
            } else {
                None
            },
            None => None,
        },
        None => None,
    }
}

/// The board with what a node of the given tag adds.
pub open spec fn with_tagged(b: BoardModelV, tag: Seq<char>, c: Seq<SexprV>) -> BoardModelV {
    if tag == "layers"@ {
        BoardModelV {
            copper_layers: b.copper_layers + copper_layers_of(c, c.len() as int),
            ..b
        }
    } else if tag == "net"@ {
        match (int_at(c, 1), text_at(c, 2)) {
            (Some(id), Some(name)) => BoardModelV {
                nets: map_put::<i64, String>(b.nets, id, name),
                ..b
            },
            _ => b,
        }
    } else if tag == "segment"@ {
        match track_of(c) {
            Some(t) => BoardModelV { tracks: b.tracks.push(t), ..b },
            None => b,
        }
    } else if tag == "arc"@ {
        match arc_of(c) {
            Some(t) => BoardModelV { arcs: b.arcs.push(t), ..b },
            None => b,
        }
    } else if tag == "via"@ {
        match via_of(c) {
            Some(t) => BoardModelV { vias: b.vias.push(t), ..b },
            None => b,
        }
    } else if tag == "zone"@ {
        match zone_of(c) {
            Some(t) => BoardModelV { zones: b.zones.push(t), ..b },
            None => b,
        }
    } else if tag == "footprint"@ {
        match footprint_of(c) {
            Some(t) => BoardModelV { footprints: b.footprints.push(t), ..b },
            None => b,
        }
    } else if board_form(tag) is Some {
        BoardModelV { outline: b.outline + pieces_of(tag, c), ..b }
    } else if tag == "setup"@ {
        BoardModelV { stackup: b.stackup + setup_layers(c), ..b }
    } else {
        b
    }
}

/// The board with what a node adds.
pub open spec fn with_node(b: BoardModelV, v: SexprV) -> BoardModelV {
    match list_of(v) {
        Some(c) => match sym_at(c, 0) {
            Some(tag) => with_tagged(b, tag, c),
            None => b,
        },
        None => b,
    }
}

/// A board without anything on it.
pub open spec fn empty_board() -> BoardModelV {
    BoardModelV {
        copper_layers: Seq::empty(),
        nets: Seq::empty(),
        tracks: Seq::empty(),
        arcs: Seq::empty(),
        vias: Seq::empty(),
        zones: Seq::empty(),
        footprints: Seq::empty(),
        outline: Seq::empty(),
        stackup: Seq::empty(),
    }
}

/// The board that the items after the first describe, up to `n`.
pub open spec fn board_of(items: Seq<SexprV>, n: int) -> BoardModelV
    decreases n,
{
    if n <= 1 {
        empty_board()
    } else {
        with_node(board_of(items, n - 1), items[n - 1])
    }
}

/// The board that a file describes, or what is wrong with the file.
pub open spec fn read_board(root: SexprV) -> Result<BoardModelV, Seq<char>> {
    match list_of(root) {
        Some(items) => if sym_at(items, 0) == Some("kicad_pcb"@) {
            Ok(board_of(items, items.len() as int))
        } else {
            Err("not a kicad_pcb file"@)
        },
        None => Err(".kicad_pcb root is not a list"@),
    }
}

fn add_layers(out: &mut Vec<String>, children: &Vec<Sexpr>)
    ensures
        final(out).deep_view() == old(out).deep_view() + copper_layers_of(
            children.deep_view(),
            children.deep_view().len() as int,
        ),
{
    let ghost base = out.deep_view();
    let ghost cv = children.deep_view();
    let n: usize = children.len();
    let mut i: usize = 1;
    assert(base + copper_layers_of(cv, 1) =~= base);
    while i < n
        invariant
            n == children@.len(),
            1 <= i,
            i <= n || i == 1,
            cv == children.deep_view(),
            out.deep_view() == base + copper_layers_of(cv, i as int),
        decreases n - i,
    {
        let ghost before = out.deep_view();
        assert(cv[i as int] == children@[i as int].value());
        match read_copper_layer(&children[i]) {
            Some(name) => {
                let ghost v = name@;
                out.push(name);
                assert(out.deep_view() =~= before.push(v));
                assert(out.deep_view() =~= base + copper_layers_of(cv, i + 1));
            },
            None => {},
        }
        i += 1;
    }
}

fn add_stackup(out: &mut Vec<StackupLayer>, children: &Vec<Sexpr>)
    ensures
        final(out).deep_view() == old(out).deep_view() + setup_layers(children.deep_view()),
{
    let ghost base = out.deep_view();
    match find_child_list(children, "stackup") {
        Some(list) => {
            let ghost cv = list.deep_view();
            let n: usize = list.len();
            let mut i: usize = 1;
            assert(base + stackup_layers_of(cv, 1) =~= base);
            while i < n
                invariant
                    n == list@.len(),
                    1 <= i,
                    i <= n || i == 1,
                    cv == list.deep_view(),
                    out.deep_view() == base + stackup_layers_of(cv, i as int),
                decreases n - i,
            {
                let ghost before = out.deep_view();
                assert(cv[i as int] == list@[i as int].value());
                match read_stackup_layer(&list[i]) {
                    Some(l) => {
                        let ghost v = l.deep_view();
                        out.push(l);
                        assert(out.deep_view() =~= before.push(v));
                        assert(out.deep_view() =~= base + stackup_layers_of(cv, i + 1));
                    },
                    None => {},
                }
                i += 1;
            }
        },
        None => {
            assert(out.deep_view() =~= base + setup_layers(children.deep_view()));
        },
    }
}

/// A board without anything on it.
fn new_board() -> (r: BoardModel)
    ensures
        r.deep_view() == empty_board(),
{
    let r = BoardModel {
        copper_layers: Vec::new(),
        nets: Vec::new(),
        tracks: Vec::new(),
        arcs: Vec::new(),
        vias: Vec::new(),
        zones: Vec::new(),
        footprints: Vec::new(),
        outline: Vec::new(),
        stackup: Vec::new(),
    };
    assert(r.deep_view() =~= empty_board());
    r
}

impl BoardModel {
    fn add_copper(&mut self, tag: &str, children: &Vec<Sexpr>)
        requires
            tag@ == "segment"@ || tag@ == "arc"@ || tag@ == "via"@ || tag@ == "zone"@ || tag@
                == "footprint"@,
            tag@ != "layers"@,
            tag@ != "net"@,
        ensures
            final(self).deep_view() == with_tagged(
                old(self).deep_view(),
                tag@,
                children.deep_view(),
            ),
    {
        let ghost before = self.deep_view();
        let ghost want = with_tagged(before, tag@, children.deep_view());
        if same(tag, "segment") {
            match parse_segment(children) {
                Some(t) => {
                    let ghost v = t.deep_view();
                    self.tracks.push(t);
                    assert(self.tracks.deep_view() =~= before.tracks.push(v));
                },
                None => {},
            }
        } else if same(tag, "arc") {
            match parse_arc(children) {
                Some(t) => {
                    let ghost v = t.deep_view();
                    self.arcs.push(t);
                    assert(self.arcs.deep_view() =~= before.arcs.push(v));
                },
                None => {},
            }
        } else if same(tag, "via") {
            match parse_via(children) {
                Some(t) => {
                    let ghost v = t.deep_view();
                    self.vias.push(t);
                    assert(self.vias.deep_view() =~= before.vias.push(v));
                },
                None => {},
            }
        } else if same(tag, "zone") {
            match parse_zone(children) {
                Some(t) => {
                    let ghost v = t.deep_view();
                    self.zones.push(t);
                    assert(self.zones.deep_view() =~= before.zones.push(v));
                },
                None => {},
            }
        } else {
            match parse_footprint(children) {
                Some(t) => {
                    let ghost v = t.deep_view();
                    self.footprints.push(t);
                    assert(self.footprints.deep_view() =~= before.footprints.push(v));
                },
                None => {},
            }
        }
        assert(self.deep_view() =~= want);
    }

    fn add_tagged(&mut self, tag: &str, children: &Vec<Sexpr>)
        ensures
            final(self).deep_view() == with_tagged(
                old(self).deep_view(),
                tag@,
                children.deep_view(),
            ),
    {
        let ghost before = self.deep_view();
        let ghost cv = children.deep_view();
        let ghost want = with_tagged(before, tag@, cv);
        if same(tag, "layers") {
            add_layers(&mut self.copper_layers, children);
            assert(self.deep_view() =~= want);
        } else if same(tag, "net") {
            match (get_int(children, 1), get_text(children, 2)) {
                (Some(id), Some(name)) => {
                    put_entry(&mut self.nets, id, name.clone());
                },
                _ => {},
            }
            assert(self.deep_view() =~= want);
        } else if same(tag, "segment") || same(tag, "arc") || same(tag, "via") || same(
            tag,
            "zone",
        ) || same(tag, "footprint") {
            self.add_copper(tag, children);
        } else if read_board_form(tag).is_some() {
            let mut pieces = parse_outline_graphic(tag, children);
            self.outline.append(&mut pieces);
            assert(self.outline.deep_view() =~= before.outline + pieces_of(tag@, cv));
            assert(self.deep_view() =~= want);
        } else if same(tag, "setup") {
            add_stackup(&mut self.stackup, children);
            assert(self.deep_view() =~= want);
        }
    }

    /// Reads a board from the expression of its file.
    pub fn parse(root: &Sexpr) -> (r: Result<BoardModel, String>)
        ensures
            match r {
                Ok(b) => read_board(root.value()) == Ok::<_, Seq<char>>(b.deep_view()),
                Err(e) => read_board(root.value()) == Err::<BoardModelV, _>(e@),
            },
    {
        match root.as_list() {
            Some(items) => {
                if !sym_is(items, 0, "kicad_pcb") {
                    return Err("not a kicad_pcb file".to_string());
                }
                let ghost iv = items.deep_view();
                let mut board = new_board();
                let n: usize = items.len();
                let mut i: usize = 1;
                while i < n
                    invariant
                        n == items@.len(),
                        1 <= i,
                        i <= n || i == 1,
                        iv == items.deep_view(),
                        board.deep_view() == board_of(iv, i as int),
                    decreases n - i,
                {
                    assert(iv[i as int] == items@[i as int].value());
                    match items[i].as_list() {
                        Some(children) => match get_sym(children, 0) {
                            Some(tag) => {
                                board.add_tagged(tag.as_str(), children);
                            },
                            None => {},
                        },
                        None => {},
                    }
                    i += 1;
                }
                assert(board.deep_view() == board_of(iv, n as int));
                Ok(board)
            },
            None => Err(".kicad_pcb root is not a list".to_string()),
        }
    }
}

/// A closed outline: the pieces of a rectangle join end to end and return to the start.
pub proof fn rectangles_are_closed(c: Seq<SexprV>)
    requires
        label_of(c, "layer"@) == Some("Edge.Cuts"@),
        point_of(c, "start"@) is Some,
        point_of(c, "end"@) is Some,
    ensures
        pieces_of("gr_rect"@, c).len() == 4,
        forall|i: int|
            0 <= i < 4 ==> (#[trigger] pieces_of("gr_rect"@, c)[i])->Segment_1 == pieces_of(
                "gr_rect"@,
                c,
            )[(i + 1) % 4]->Segment_0,
{
    reveal_strlit("gr_rect");
    reveal_strlit("gr_line");
    assert("gr_rect"@[3] == 'r');
    assert("gr_line"@[3] == 'l');
    assert(board_form("gr_rect"@) == Some(Form::Rect));
}

proof fn nets_rise(items: Seq<SexprV>, n: int)
    ensures
        keys_rise::<i64, String>(board_of(items, n).nets),
    decreases n,
{
    if n > 1 {
        nets_rise(items, n - 1);
        let b = board_of(items, n - 1);
        match list_of(items[n - 1]) {
            Some(c) => match (int_at(c, 1), text_at(c, 2)) {
                (Some(id), Some(name)) => {
                    map_put_keeps_order::<i64, String>(b.nets, id, name);
                },
                _ => {},
            },
            None => {},
        }
    }
}

/// A board that was read lists each net once, by rising number.
pub proof fn read_nets_rise(root: SexprV)
    ensures
        read_board(root) matches Ok(b) ==> forall|i: int, j: int|
            0 <= i < j < b.nets.len() ==> (#[trigger] b.nets[i]).0 < (#[trigger] b.nets[j]).0,
{
    match list_of(root) {
        Some(items) => {
            nets_rise(items, items.len() as int);
        },
        None => {},
    }
}

} // verus!
