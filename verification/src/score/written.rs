//! Boards written out as expressions, and that they are read back as they were.
use vstd::prelude::*;

use crate::number::Real;
use crate::score::board::{
    ArcTrackV, FootprintV, OutlinePiece, PadV, Point, TrackV, ViaV, ZonePolygonV, ZoneV,
};
use crate::score::board_parse::{
    arc_of, first_number, footprint_of, pad_of, pads_of, polygon_of, polygons_of, reference_of,
    texts_in, track_of, via_of, xy_points, zone_of,
};
use crate::score::graphics::{courtyard_of, courtyard_pieces, footprint_form, Form};
use crate::score::sexpr::{child_list, sym_at, AtomV, SexprV};

verus! {

/// A symbol.
pub open spec fn sym(s: Seq<char>) -> SexprV {
    SexprV::Atom(AtomV { sym: Some(s), text: Some(s), int: None, number: None })
}

/// A text in quotes.
pub open spec fn quote(s: Seq<char>) -> SexprV {
    SexprV::Atom(AtomV { sym: None, text: Some(s), int: None, number: None })
}

/// A whole number.
pub open spec fn whole(n: i64) -> SexprV {
    SexprV::Atom(AtomV { sym: None, text: None, int: Some(n), number: None })
}

/// A number.
pub open spec fn num(x: Real) -> SexprV {
    SexprV::Atom(AtomV { sym: None, text: None, int: None, number: Some(x) })
}

/// A point under a name.
pub open spec fn point(name: Seq<char>, p: Point) -> SexprV {
    SexprV::List(seq![sym(name), num(p.x), num(p.y)])
}

/// A number under a name.
pub open spec fn measure(name: Seq<char>, x: Real) -> SexprV {
    SexprV::List(seq![sym(name), num(x)])
}

/// A text under a name.
pub open spec fn label(name: Seq<char>, s: Seq<char>) -> SexprV {
    SexprV::List(seq![sym(name), quote(s)])
}

/// Texts under a name.
pub open spec fn labels(name: Seq<char>, list: Seq<Seq<char>>) -> SexprV {
    SexprV::List(seq![sym(name)] + Seq::new(list.len(), |i: int| quote(list[i])))
}

/// A track.
pub open spec fn segment_fields(t: TrackV) -> Seq<SexprV> {
    seq![
        sym("segment"@),
        point("start"@, t.start),
        point("end"@, t.end),
        measure("width"@, t.width),
        label("layer"@, t.layer),
        SexprV::List(seq![sym("net"@), whole(t.net)]),
    ]
}

/// A track along an arc.
pub open spec fn arc_fields(t: ArcTrackV) -> Seq<SexprV> {
    seq![
        sym("arc"@),
        point("start"@, t.start),
        point("mid"@, t.mid),
        point("end"@, t.end),
        measure("width"@, t.width),
        label("layer"@, t.layer),
        SexprV::List(seq![sym("net"@), whole(t.net)]),
    ]
}

/// A via, which says what it is unless it goes all the way through.
pub open spec fn via_fields(v: ViaV) -> Seq<SexprV> {
    seq![sym("via"@)] + (if v.kind == "via"@ {
        Seq::empty()
    } else {
        seq![sym(v.kind)]
    }) + seq![
        point("at"@, v.at),
        measure("size"@, v.size),
        measure("drill"@, v.drill),
        labels("layers"@, v.layers),
        SexprV::List(seq![sym("net"@), whole(v.net)]),
    ]
}

/// The points of a filled area.
pub open spec fn point_fields(points: Seq<Point>) -> Seq<SexprV> {
    seq![sym("pts"@)] + Seq::new(points.len(), |i: int| point("xy"@, points[i]))
}

/// A filled area.
pub open spec fn polygon_node(p: ZonePolygonV) -> SexprV {
    SexprV::List(
        seq![sym("filled_polygon"@), label("layer"@, p.layer), SexprV::List(point_fields(p.points))],
    )
}

/// A zone.
pub open spec fn zone_fields(z: ZoneV) -> Seq<SexprV> {
    seq![
        sym("zone"@),
        SexprV::List(seq![sym("net"@), whole(z.net)]),
        label("net_name"@, z.net_name),
        labels("layers"@, z.layers),
    ] + Seq::new(z.filled_polygons.len(), |i: int| polygon_node(z.filled_polygons[i]))
}

/// A child is found by its name, the first of that name.
pub proof fn found_child(items: Seq<SexprV>, name: Seq<char>, k: int)
    requires
        0 <= k < items.len(),
        items[k] is List,
        sym_at(items[k]->List_0, 0) == Some(name),
        forall|j: int|
            0 <= j < k ==> !((#[trigger] items[j]) is List && sym_at(items[j]->List_0, 0) == Some(
                name,
            )),
    ensures
        child_list(items, name) == Some(items[k]->List_0),
    decreases k,
{
    if k > 0 {
        let rest = items.drop_first();
        assert(!(items[0] is List && sym_at(items[0]->List_0, 0) == Some(name)));
        assert forall|j: int| 0 <= j < k - 1 implies !((#[trigger] rest[j]) is List && sym_at(
            rest[j]->List_0,
            0,
        ) == Some(name)) by {
            assert(rest[j] == items[j + 1]);
        }
        found_child(rest, name, k - 1);
    }
}

/// A child that is not there is not found.
pub proof fn missing_child(items: Seq<SexprV>, name: Seq<char>)
    requires
        forall|j: int|
            0 <= j < items.len() ==> !((#[trigger] items[j]) is List && sym_at(
                items[j]->List_0,
                0,
            ) == Some(name)),
    ensures
        child_list(items, name) is None,
    decreases items.len(),
{
    if items.len() > 0 {
        let rest = items.drop_first();
        assert(!(items[0] is List && sym_at(items[0]->List_0, 0) == Some(name)));
        assert forall|j: int| 0 <= j < rest.len() implies !((#[trigger] rest[j]) is List && sym_at(
            rest[j]->List_0,
            0,
        ) == Some(name)) by {
            assert(rest[j] == items[j + 1]);
        }
        missing_child(rest, name);
    }
}

proof fn read_labels(name: Seq<char>, list: Seq<Seq<char>>, n: int)
    requires
        1 <= n <= list.len() + 1,
    ensures
        texts_in(labels(name, list)->List_0, n) == list.take(n - 1),
    decreases n,
{
    let items = labels(name, list)->List_0;
    if n > 1 {
        read_labels(name, list, n - 1);
        assert(items[n - 1] == quote(list[n - 2]));
        assert(list.take(n - 1) =~= list.take(n - 2).push(list[n - 2]));
    } else {
        assert(list.take(0) =~= Seq::empty());
    }
}

proof fn read_points_back(points: Seq<Point>, n: int)
    requires
        1 <= n <= points.len() + 1,
    ensures
        xy_points(point_fields(points), n) == points.take(n - 1),
    decreases n,
{
    let items = point_fields(points);
    if n > 1 {
        read_points_back(points, n - 1);
        assert(items[n - 1] == point("xy"@, points[n - 2]));
        assert(points.take(n - 1) =~= points.take(n - 2).push(points[n - 2]));
    } else {
        assert(points.take(0) =~= Seq::empty());
    }
}

/// Names of fields differ.
pub proof fn names_differ()
    ensures
        "start"@ != "end"@,
        "start"@ != "mid"@,
        "start"@ != "width"@,
        "start"@ != "layer"@,
        "start"@ != "net"@,
        "mid"@ != "end"@,
        "mid"@ != "width"@,
        "mid"@ != "layer"@,
        "mid"@ != "net"@,
        "end"@ != "width"@,
        "end"@ != "layer"@,
        "end"@ != "net"@,
        "width"@ != "layer"@,
        "width"@ != "net"@,
        "layer"@ != "net"@,
        "at"@ != "size"@,
        "at"@ != "drill"@,
        "at"@ != "layers"@,
        "at"@ != "net"@,
        "at"@ != "layer"@,
        "size"@ != "drill"@,
        "size"@ != "layers"@,
        "size"@ != "net"@,
        "drill"@ != "layers"@,
        "drill"@ != "net"@,
        "layers"@ != "net"@,
        "layers"@ != "layer"@,
        "net_name"@ != "net"@,
        "net_name"@ != "layers"@,
        "net_name"@ != "layer"@,
        "filled_polygon"@ != "net"@,
        "filled_polygon"@ != "layer"@,
        "filled_polygon"@ != "layers"@,
        "filled_polygon"@ != "net_name"@,
        "pts"@ != "layer"@,
        "blind"@ != "micro"@,
        "blind"@ != "via"@,
        "micro"@ != "via"@,
{
    reveal_strlit("start");
    reveal_strlit("mid");
    reveal_strlit("end");
    reveal_strlit("width");
    reveal_strlit("layer");
    reveal_strlit("net");
    reveal_strlit("at");
    reveal_strlit("size");
    reveal_strlit("drill");
    reveal_strlit("layers");
    reveal_strlit("net_name");
    reveal_strlit("filled_polygon");
    reveal_strlit("pts");
    reveal_strlit("blind");
    reveal_strlit("micro");
    reveal_strlit("via");
    assert("start"@[0] == 's' && "start"@.len() == 5);
    assert("mid"@[0] == 'm' && "mid"@.len() == 3);
    assert("end"@[0] == 'e');
    assert("width"@[0] == 'w');
    assert("layer"@[0] == 'l' && "layer"@.len() == 5);
    assert("net"@[0] == 'n' && "net"@.len() == 3);
    assert("at"@[0] == 'a');
    assert("size"@[0] == 's' && "size"@.len() == 4);
    assert("drill"@[0] == 'd');
    assert("layers"@[0] == 'l' && "layers"@.len() == 6);
    assert("net_name"@[0] == 'n' && "net_name"@.len() == 8);
    assert("filled_polygon"@[0] == 'f');
    assert("pts"@[0] == 'p');
    assert("blind"@[0] == 'b');
    assert("micro"@[0] == 'm');
    assert("via"@[0] == 'v');
}

/// A track that is written out is read back.
pub proof fn tracks_are_read_back(t: TrackV)
    ensures
        track_of(segment_fields(t)) == Some(t),
{
    names_differ();
    let c = segment_fields(t);
    found_child(c, "start"@, 1);
    found_child(c, "end"@, 2);
    found_child(c, "width"@, 3);
    found_child(c, "layer"@, 4);
    found_child(c, "net"@, 5);
}

/// An arc that is written out is read back.
pub proof fn arcs_are_read_back(t: ArcTrackV)
    ensures
        arc_of(arc_fields(t)) == Some(t),
{
    names_differ();
    let c = arc_fields(t);
    found_child(c, "start"@, 1);
    found_child(c, "mid"@, 2);
    found_child(c, "end"@, 3);
    found_child(c, "width"@, 4);
    found_child(c, "layer"@, 5);
    found_child(c, "net"@, 6);
}

/// A via that is written out is read back.
pub proof fn vias_are_read_back(v: ViaV)
    requires
        v.kind == "via"@ || v.kind == "blind"@ || v.kind == "micro"@,
    ensures
        via_of(via_fields(v)) == Some(v),
{
    names_differ();
    let c = via_fields(v);
    let k: int = if v.kind == "via"@ {
        1
    } else {
        2
    };
    assert(c[k] == point("at"@, v.at));
    assert(c[k + 1] == measure("size"@, v.size));
    assert(c[k + 2] == measure("drill"@, v.drill));
    assert(c[k + 3] == labels("layers"@, v.layers));
    assert(c[k + 4] == SexprV::List(seq![sym("net"@), whole(v.net)]));
    assert(c[0] == sym("via"@));
    found_child(c, "at"@, k);
    found_child(c, "size"@, k + 1);
    found_child(c, "drill"@, k + 2);
    found_child(c, "layers"@, k + 3);
    found_child(c, "net"@, k + 4);
    read_labels("layers"@, v.layers, v.layers.len() as int + 1);
    assert(v.layers.take(v.layers.len() as int) =~= v.layers);
}

proof fn polygon_is_read_back(p: ZonePolygonV)
    ensures
        polygon_of(polygon_node(p)) == Some(p),
{
    names_differ();
    let c = polygon_node(p)->List_0;
    found_child(c, "layer"@, 1);
    found_child(c, "pts"@, 2);
    read_points_back(p.points, p.points.len() as int + 1);
    assert(p.points.take(p.points.len() as int) =~= p.points);
}

proof fn polygons_are_read_back(z: ZoneV, n: int)
    requires
        0 <= n <= z.filled_polygons.len(),
    ensures
        polygons_of(zone_fields(z).take(n + 4)) == z.filled_polygons.take(n),
    decreases n,
{
    names_differ();
    let c = zone_fields(z);
    if n > 0 {
        polygons_are_read_back(z, n - 1);
        assert(c.take(n + 4).drop_last() =~= c.take(n + 3));
        assert(c.take(n + 4).last() == polygon_node(z.filled_polygons[n - 1]));
        polygon_is_read_back(z.filled_polygons[n - 1]);
        assert(z.filled_polygons.take(n) =~= z.filled_polygons.take(n - 1).push(
            z.filled_polygons[n - 1],
        ));
    } else {
        let h = c.take(4);
        assert(h.drop_last() =~= c.take(3));
        assert(c.take(3).drop_last() =~= c.take(2));
        assert(c.take(2).drop_last() =~= c.take(1));
        assert(c.take(1).drop_last() =~= Seq::empty());
        reveal_with_fuel(polygons_of, 6);
        assert(polygon_of(c[3]) is None);
        assert(polygon_of(c[2]) is None);
        assert(polygon_of(c[1]) is None);
        assert(polygon_of(c[0]) is None);
        assert(h.last() == c[3] && c.take(3).last() == c[2] && c.take(2).last() == c[1] && c.take(
            1,
        ).last() == c[0]);
        assert(polygons_of(h) =~= Seq::empty());
        assert(z.filled_polygons.take(0) =~= Seq::empty());
    }
}

/// A zone that is written out is read back.
pub proof fn zones_are_read_back(z: ZoneV)
    ensures
        zone_of(zone_fields(z)) == Some(z),
{
    names_differ();
    let c = zone_fields(z);
    found_child(c, "net"@, 1);
    found_child(c, "net_name"@, 2);
    found_child(c, "layers"@, 3);
    missing_child(c, "layer"@);
    read_labels("layers"@, z.layers, z.layers.len() as int + 1);
    assert(z.layers.take(z.layers.len() as int) =~= z.layers);
    polygons_are_read_back(z, z.filled_polygons.len() as int);
    assert(c.take(z.filled_polygons.len() as int + 4) =~= c);
    assert(z.filled_polygons.take(z.filled_polygons.len() as int) =~= z.filled_polygons);
    assert(Seq::<Seq<char>>::empty() + z.layers =~= z.layers);
}

/// What may be missing of a pad.
pub open spec fn pad_extras(p: PadV) -> Seq<SexprV> {
    (match p.drill {
        Some(d) => seq![measure("drill"@, d)],
        None => Seq::empty(),
    }) + (match p.net {
        Some(n) => seq![
            SexprV::List(
                seq![sym("net"@), whole(n)] + (match p.net_name {
                    Some(name) => seq![quote(name)],
                    None => Seq::empty(),
                }),
            ),
        ],
        None => Seq::empty(),
    })
}

/// A pad.
pub open spec fn pad_fields(p: PadV) -> Seq<SexprV> {
    seq![
        sym("pad"@),
        quote(p.number),
        sym(p.kind),
        point("at"@, p.local),
        SexprV::List(seq![sym("size"@), num(p.size.0), num(p.size.1)]),
        labels("layers"@, p.layers),
    ] + pad_extras(p)
}

/// The piece of a courtyard.
pub open spec fn courtyard_node(p: OutlinePiece) -> SexprV {
    match p {
        OutlinePiece::Segment(a, b) => SexprV::List(
            seq![sym("fp_line"@), point("start"@, a), point("end"@, b), label("layer"@, "F.CrtYd"@)],
        ),
        OutlinePiece::Circle(a, b) => SexprV::List(
            seq![
                sym("fp_circle"@),
                point("center"@, a),
                point("end"@, b),
                label("layer"@, "F.CrtYd"@),
            ],
        ),
    }
}

/// A footprint.
pub open spec fn footprint_fields(f: FootprintV) -> Seq<SexprV> {
    seq![
        sym("footprint"@),
        quote(f.footprint_id),
        label("layer"@, f.layer),
        SexprV::List(seq![sym("at"@), num(f.at.x), num(f.at.y), num(f.rotation_deg)]),
        SexprV::List(seq![sym("property"@), quote("Reference"@), quote(f.reference)]),
    ] + Seq::new(f.pads.len(), |i: int| SexprV::List(pad_fields(f.pads[i]))) + Seq::new(
        f.courtyard.len(),
        |i: int| courtyard_node(f.courtyard[i]),
    )
}

proof fn more_names_differ()
    ensures
        "pad"@ != "at"@,
        "pad"@ != "layer"@,
        "pad"@ != "property"@,
        "layer"@ != "property"@,
        "at"@ != "property"@,
        "layer"@ != "pad"@,
        "fp_line"@ != "pad"@,
        "fp_line"@ != "property"@,
        "fp_line"@ != "fp_circle"@,
        "fp_line"@ != "fp_rect"@,
        "fp_line"@ != "fp_arc"@,
        "fp_circle"@ != "pad"@,
        "fp_circle"@ != "property"@,
        "fp_circle"@ != "fp_rect"@,
        "fp_circle"@ != "fp_arc"@,
        "center"@ != "end"@,
        "center"@ != "layer"@,
        footprint_form("pad"@) is None,
        footprint_form("layer"@) is None,
        footprint_form("at"@) is None,
        footprint_form("property"@) is None,
        footprint_form("fp_line"@) == Some(Form::Line),
        footprint_form("fp_circle"@) == Some(Form::Circle),
{
    reveal_strlit("pad");
    reveal_strlit("at");
    reveal_strlit("layer");
    reveal_strlit("property");
    reveal_strlit("center");
    reveal_strlit("end");
    reveal_strlit("fp_line");
    reveal_strlit("fp_rect");
    reveal_strlit("fp_arc");
    reveal_strlit("fp_circle");
    reveal_strlit("fp_poly");
    assert("pad"@[0] == 'p' && "pad"@.len() == 3);
    assert("at"@[0] == 'a');
    assert("layer"@[0] == 'l');
    assert("property"@[0] == 'p' && "property"@.len() == 8 && "property"@[1] == 'r');
    assert("center"@[0] == 'c');
    assert("end"@[0] == 'e');
    assert("fp_line"@[0] == 'f' && "fp_line"@[3] == 'l');
    assert("fp_rect"@[0] == 'f' && "fp_rect"@[3] == 'r');
    assert("fp_arc"@[0] == 'f' && "fp_arc"@[3] == 'a');
    assert("fp_circle"@[0] == 'f' && "fp_circle"@[3] == 'c');
    assert("fp_poly"@[0] == 'f' && "fp_poly"@[3] == 'p');
}

/// A pad that is written out is read back; one without a net has no name of a net either.
pub proof fn pads_are_read_back(p: PadV)
    requires
        p.net is None ==> p.net_name is None,
    ensures
        pad_of(pad_fields(p)) == Some(p),
{
    names_differ();
    let c = pad_fields(p);
    let d: int = if p.drill is Some {
        1
    } else {
        0
    };
    assert(c[0] == sym("pad"@));
    assert(c[1] == quote(p.number));
    assert(c[2] == sym(p.kind));
    found_child(c, "at"@, 3);
    found_child(c, "size"@, 4);
    found_child(c, "layers"@, 5);
    read_labels("layers"@, p.layers, p.layers.len() as int + 1);
    assert(p.layers.take(p.layers.len() as int) =~= p.layers);
    match p.drill {
        Some(x) => {
            assert(c[6] == measure("drill"@, x));
            found_child(c, "drill"@, 6);
            assert(first_number(measure("drill"@, x)->List_0, 1) == Some(x));
        },
        None => {
            assert(p.net is Some ==> c.len() == 7 && c[6] == pad_extras(p)[0]);
            missing_child(c, "drill"@);
        },
    }
    match p.net {
        Some(n) => {
            let fields = seq![sym("net"@), whole(n)] + (match p.net_name {
                Some(name) => seq![quote(name)],
                None => Seq::empty(),
            });
            assert(c[6 + d] == SexprV::List(fields));
            assert(fields[0] == sym("net"@) && fields[1] == whole(n));
            found_child(c, "net"@, 6 + d);
            match p.net_name {
                Some(name) => {
                    assert(fields[2] == quote(name));
                },
                None => {
                    assert(fields.len() == 2);
                },
            }
        },
        None => {
            missing_child(c, "net"@);
        },
    }
}

proof fn courtyard_piece_is_read_back(p: OutlinePiece)
    ensures
        courtyard_pieces(courtyard_node(p)) == seq![p],
{
    names_differ();
    more_names_differ();
    let c = courtyard_node(p)->List_0;
    match p {
        OutlinePiece::Segment(a, b) => {
            found_child(c, "start"@, 1);
        },
        OutlinePiece::Circle(a, b) => {
            found_child(c, "center"@, 1);
        },
    }
    found_child(c, "end"@, 2);
    found_child(c, "layer"@, 3);
}

proof fn head_of_footprint(f: FootprintV)
    ensures
        pads_of(footprint_fields(f).take(5)) == Seq::<PadV>::empty(),
        courtyard_of(footprint_fields(f).take(5)) == Seq::<OutlinePiece>::empty(),
        reference_of(footprint_fields(f).take(5)) == f.reference,
{
    more_names_differ();
    names_differ();
    let c = footprint_fields(f);
    assert(c.take(5).drop_last() =~= c.take(4));
    assert(c.take(4).drop_last() =~= c.take(3));
    assert(c.take(3).drop_last() =~= c.take(2));
    assert(c.take(2).drop_last() =~= c.take(1));
    assert(c.take(1).drop_last() =~= Seq::empty());
    assert(c.take(5).last() == c[4] && c.take(4).last() == c[3] && c.take(3).last() == c[2]
        && c.take(2).last() == c[1] && c.take(1).last() == c[0]);
    assert(courtyard_pieces(c[4]) =~= Seq::empty());
    assert(courtyard_pieces(c[3]) =~= Seq::empty());
    assert(courtyard_pieces(c[2]) =~= Seq::empty());
    assert(courtyard_pieces(c[1]) =~= Seq::empty());
    assert(courtyard_pieces(c[0]) =~= Seq::empty());
    reveal_with_fuel(pads_of, 7);
    reveal_with_fuel(courtyard_of, 7);
    assert(pads_of(c.take(5)) =~= Seq::empty());
    assert(courtyard_of(c.take(1)) =~= Seq::empty());
    assert(courtyard_of(c.take(2)) =~= Seq::empty());
    assert(courtyard_of(c.take(3)) =~= Seq::empty());
    assert(courtyard_of(c.take(4)) =~= Seq::empty());
    assert(courtyard_of(c.take(5)) =~= Seq::empty());
}

proof fn body_of_footprint(f: FootprintV, n: int)
    requires
        0 <= n <= f.pads.len(),
        forall|i: int|
            0 <= i < f.pads.len() ==> ((#[trigger] f.pads[i]).net is None ==> f.pads[i].net_name
                is None),
    ensures
        pads_of(footprint_fields(f).take(n + 5)) == f.pads.take(n),
        courtyard_of(footprint_fields(f).take(n + 5)) == Seq::<OutlinePiece>::empty(),
        reference_of(footprint_fields(f).take(n + 5)) == f.reference,
    decreases n,
{
    let c = footprint_fields(f);
    if n == 0 {
        head_of_footprint(f);
        assert(f.pads.take(0) =~= Seq::empty());
    } else {
        body_of_footprint(f, n - 1);
        more_names_differ();
        let now = c.take(n + 5);
        assert(now.drop_last() =~= c.take(n + 4));
        assert(now.last() == SexprV::List(pad_fields(f.pads[n - 1])));
        pads_are_read_back(f.pads[n - 1]);
        assert(pad_fields(f.pads[n - 1])[0] == sym("pad"@));
        assert(f.pads.take(n) =~= f.pads.take(n - 1).push(f.pads[n - 1]));
        assert(courtyard_pieces(now.last()) =~= Seq::empty());
        assert(courtyard_of(now) =~= Seq::empty());
    }
}

proof fn tail_of_footprint(f: FootprintV, n: int)
    requires
        0 <= n <= f.courtyard.len(),
        forall|i: int|
            0 <= i < f.pads.len() ==> ((#[trigger] f.pads[i]).net is None ==> f.pads[i].net_name
                is None),
    ensures
        pads_of(footprint_fields(f).take(n + f.pads.len() as int + 5)) == f.pads,
        courtyard_of(footprint_fields(f).take(n + f.pads.len() as int + 5)) == f.courtyard.take(n),
        reference_of(footprint_fields(f).take(n + f.pads.len() as int + 5)) == f.reference,
    decreases n,
{
    let c = footprint_fields(f);
    let m = f.pads.len() as int;
    if n == 0 {
        body_of_footprint(f, m);
        assert(f.pads.take(m) =~= f.pads);
        assert(f.courtyard.take(0) =~= Seq::empty());
    } else {
        tail_of_footprint(f, n - 1);
        more_names_differ();
        let now = c.take(n + m + 5);
        assert(now.drop_last() =~= c.take(n - 1 + m + 5));
        assert(now.last() == courtyard_node(f.courtyard[n - 1]));
        courtyard_piece_is_read_back(f.courtyard[n - 1]);
        assert(f.courtyard.take(n) =~= f.courtyard.take(n - 1) + seq![f.courtyard[n - 1]]);
    }
}

/// A footprint that is written out is read back, with its pads and its courtyard.
pub proof fn footprints_are_read_back(f: FootprintV)
    requires
        forall|i: int|
            0 <= i < f.pads.len() ==> ((#[trigger] f.pads[i]).net is None ==> f.pads[i].net_name
                is None),
    ensures
        footprint_of(footprint_fields(f)) == Some(f),
{
    names_differ();
    more_names_differ();
    let c = footprint_fields(f);
    tail_of_footprint(f, f.courtyard.len() as int);
    assert(c.take(f.courtyard.len() as int + f.pads.len() as int + 5) =~= c);
    assert(f.courtyard.take(f.courtyard.len() as int) =~= f.courtyard);
    assert(c[1] == quote(f.footprint_id));
    found_child(c, "layer"@, 2);
    found_child(c, "at"@, 3);
}

} // verus!
