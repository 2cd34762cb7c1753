//! Graphics of board files: the outline of a board and the courtyards of its footprints.
use vstd::prelude::*;

use crate::score::board::{OutlinePiece, Point};
use crate::score::board_parse::{find_label, find_point, label_of, point_of, read_points, xy_points};
use crate::score::sexpr::{child_list, find_child_list, get_sym, list_of, sym_at, Sexpr, SexprV};
use crate::text::same;

verus! {

/// The form of a graphic.
#[derive(Clone, Copy, Debug, PartialEq, Eq, Structural)]
pub enum Form {
    Line,
    Rect,
    Arc,
    Circle,
    Poly,
}

/// The form that a tag names on a board.
pub open spec fn board_form(tag: Seq<char>) -> Option<Form> {
    if tag == "gr_line"@ {
        Some(Form::Line)
    } else if tag == "gr_rect"@ {
        Some(Form::Rect)
    } else if tag == "gr_arc"@ {
        Some(Form::Arc)
    } else if tag == "gr_circle"@ {
        Some(Form::Circle)
    } else if tag == "gr_poly"@ {
        Some(Form::Poly)
    } else {
        None
    }
}

/// The form that a tag names in a footprint.
pub open spec fn footprint_form(tag: Seq<char>) -> Option<Form> {
    if tag == "fp_line"@ {
        Some(Form::Line)
    } else if tag == "fp_rect"@ {
        Some(Form::Rect)
    } else if tag == "fp_arc"@ {
        Some(Form::Arc)
    } else if tag == "fp_circle"@ {
        Some(Form::Circle)
    } else if tag == "fp_poly"@ {
        Some(Form::Poly)
    } else {
        None
    }
}

/// The form that a tag names on a board.
pub fn read_board_form(tag: &str) -> (r: Option<Form>)
    ensures
        r == board_form(tag@),
{
    if same(tag, "gr_line") {
        Some(Form::Line)
    } else if same(tag, "gr_rect") {
        Some(Form::Rect)
    } else if same(tag, "gr_arc") {
        Some(Form::Arc)
    } else if same(tag, "gr_circle") {
        Some(Form::Circle)
    } else if same(tag, "gr_poly") {
        Some(Form::Poly)
    } else {
        None
    }
}

/// The form that a tag names in a footprint.
pub fn read_footprint_form(tag: &str) -> (r: Option<Form>)
    ensures
        r == footprint_form(tag@),
{
    if same(tag, "fp_line") {
        Some(Form::Line)
    } else if same(tag, "fp_rect") {
        Some(Form::Rect)
    } else if same(tag, "fp_arc") {
        Some(Form::Arc)
    } else if same(tag, "fp_circle") {
        Some(Form::Circle)
    } else if same(tag, "fp_poly") {
        Some(Form::Poly)
    } else {
        None
    }
}

/// Straight pieces along the first `n` points.
pub open spec fn polyline(points: Seq<Point>, n: int) -> Seq<OutlinePiece>
    decreases n,
{
    if n <= 1 {
        Seq::empty()
    } else {
        polyline(points, n - 1).push(OutlinePiece::Segment(points[n - 2], points[n - 1]))
    }
}

/// Straight pieces along the points, closed where there are more than two.
pub open spec fn polygon_pieces(points: Seq<Point>) -> Seq<OutlinePiece> {
    if points.len() > 2 {
        polyline(points, points.len() as int).push(
            OutlinePiece::Segment(points.last(), points[0]),
        )
    } else {
        polyline(points, points.len() as int)
    }
}

/// The pieces that a graphic of the given form is. An arc is taken as the two chords between its
/// points.
pub open spec fn drawn(form: Form, c: Seq<SexprV>) -> Seq<OutlinePiece> {
    match form {
        Form::Line => match (point_of(c, "start"@), point_of(c, "end"@)) {
            (Some(start), Some(end)) => seq![OutlinePiece::Segment(start, end)],
            _ => Seq::empty(),
        },
        Form::Rect => match (point_of(c, "start"@), point_of(c, "end"@)) {
            (Some(a), Some(o)) => {
                let b = Point { x: o.x, y: a.y };
                let d = Point { x: a.x, y: o.y };
                seq![
                    OutlinePiece::Segment(a, b),
                    OutlinePiece::Segment(b, o),
                    OutlinePiece::Segment(o, d),
                    OutlinePiece::Segment(d, a),
                ]
            },
            _ => Seq::empty(),
        },
        Form::Arc => match (point_of(c, "start"@), point_of(c, "mid"@), point_of(c, "end"@)) {
            (Some(start), Some(mid), Some(end)) => seq![
                OutlinePiece::Segment(start, mid),
                OutlinePiece::Segment(mid, end),
            ],
            _ => Seq::empty(),
        },
        Form::Circle => match (point_of(c, "center"@), point_of(c, "end"@)) {
            (Some(center), Some(rim)) => seq![OutlinePiece::Circle(center, rim)],
            _ => Seq::empty(),
        },
        Form::Poly => match child_list(c, "pts"@) {
            Some(pts) => polygon_pieces(xy_points(pts, pts.len() as int)),
            None => Seq::empty(),
        },
    }
}

fn polygon_outline(points: &Vec<Point>) -> (r: Vec<OutlinePiece>)
    ensures
        r@ == polygon_pieces(points.deep_view()),
{
    let ghost pv = points.deep_view();
    let n: usize = points.len();
    let mut out: Vec<OutlinePiece> = Vec::new();
    let mut i: usize = 1;
    while i < n
        invariant
            n == points@.len(),
            1 <= i,
            i <= n || i == 1,
            pv == points.deep_view(),
            out@ == polyline(pv, i as int),
        decreases n - i,
    {
        assert(pv[i as int] == points@[i as int]);
        assert(pv[i - 1] == points@[i - 1]);
        out.push(OutlinePiece::Segment(points[i - 1], points[i]));
        i += 1;
    }
    assert(out@ == polyline(pv, n as int));
    if n > 2 {
        assert(pv.last() == points@[n - 1]);
        assert(pv[0] == points@[0]);
        out.push(OutlinePiece::Segment(points[n - 1], points[0]));
    }
    out
}

/// The pieces that a graphic of the given form is.
pub fn draw(form: Form, children: &Vec<Sexpr>) -> (r: Vec<OutlinePiece>)
    ensures
        r@ == drawn(form, children.deep_view()),
{
    let mut out: Vec<OutlinePiece> = Vec::new();
    let ghost want = drawn(form, children.deep_view());
    match form {
        Form::Line => match (find_point(children, "start"), find_point(children, "end")) {
            (Some(start), Some(end)) => {
                out.push(OutlinePiece::Segment(start, end));
            },
            _ => {},
        },
        Form::Rect => match (find_point(children, "start"), find_point(children, "end")) {
            (Some(a), Some(o)) => {
                let b = Point { x: o.x, y: a.y };
                let d = Point { x: a.x, y: o.y };
                out.push(OutlinePiece::Segment(a, b));
                out.push(OutlinePiece::Segment(b, o));
                out.push(OutlinePiece::Segment(o, d));
                out.push(OutlinePiece::Segment(d, a));
            },
            _ => {},
        },
        Form::Arc => match (
            find_point(children, "start"),
            find_point(children, "mid"),
            find_point(children, "end"),
        ) {
            (Some(start), Some(mid), Some(end)) => {
                out.push(OutlinePiece::Segment(start, mid));
                out.push(OutlinePiece::Segment(mid, end));
            },
            _ => {},
        },
        Form::Circle => match (find_point(children, "center"), find_point(children, "end")) {
            (Some(center), Some(rim)) => {
                out.push(OutlinePiece::Circle(center, rim));
            },
            _ => {},
        },
        Form::Poly => match find_child_list(children, "pts") {
            Some(pts) => {
                let points = read_points(pts);
                out = polygon_outline(&points);
            },
            None => {},
        },
    }
    assert(out@ =~= want);
    out
}

/// The layer is one for courtyards.
pub open spec fn is_courtyard(layer: Option<Seq<char>>) -> bool {
    layer == Some("F.CrtYd"@) || layer == Some("B.CrtYd"@)
}

/// The pieces of courtyard that a node of a footprint is.
pub open spec fn courtyard_pieces(v: SexprV) -> Seq<OutlinePiece> {
    match list_of(v) {
        Some(fields) => match sym_at(fields, 0) {
            Some(tag) => match footprint_form(tag) {
                Some(form) => if is_courtyard(label_of(fields, "layer"@)) {
                    drawn(form, fields)
                } else {
                    Seq::empty()
                },
                None => Seq::empty(),
            },
            None => Seq::empty(),
        },
        None => Seq::empty(),
    }
}

/// The courtyard among the children of a footprint.
pub open spec fn courtyard_of(c: Seq<SexprV>) -> Seq<OutlinePiece>
    decreases c.len(),
{
    if c.len() == 0 {
        Seq::empty()
    } else {
        courtyard_of(c.drop_last()) + courtyard_pieces(c.last())
    }
}

fn read_courtyard_pieces(v: &Sexpr) -> (r: Vec<OutlinePiece>)
    ensures
        r@ == courtyard_pieces(v.value()),
{
    let none: Vec<OutlinePiece> = Vec::new();
    assert(none@ =~= Seq::empty());
    match v.as_list() {
        Some(fields) => match get_sym(fields, 0) {
            Some(tag) => match read_footprint_form(tag.as_str()) {
                Some(form) => {
                    let inside: bool = match find_label(fields, "layer") {
                        Some(l) => same(l.as_str(), "F.CrtYd") || same(l.as_str(), "B.CrtYd"),
                        None => false,
                    };
                    if inside {
                        draw(form, fields)
                    } else {
                        none
                    }
                },
                None => none,
            },
            None => none,
        },
        None => none,
    }
}

/// The courtyard among the children of a footprint.
pub fn read_courtyard(children: &Vec<Sexpr>) -> (r: Vec<OutlinePiece>)
    ensures
        r@ == courtyard_of(children.deep_view()),
{
    let ghost cv = children.deep_view();
    let n: usize = children.len();
    let mut out: Vec<OutlinePiece> = Vec::new();
    let mut i: usize = 0;
    assert(out@ =~= courtyard_of(cv.take(0)));
    while i < n
        invariant
            n == children@.len(),
            i <= n,
            cv == children.deep_view(),
            out@ == courtyard_of(cv.take(i as int)),
        decreases n - i,
    {
        assert(cv.take(i + 1).drop_last() =~= cv.take(i as int));
        assert(cv[i as int] == children@[i as int].value());
        let mut pieces = read_courtyard_pieces(&children[i]);
        out.append(&mut pieces);
        i += 1;
    }
    assert(cv.take(n as int) =~= cv);
    out
}

} // verus!
