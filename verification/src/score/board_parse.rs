//! Reading a board from the symbolic expression of its file.
use vstd::prelude::*;

use crate::number::{zero, Real};
use crate::score::board::{
    ArcTrack, ArcTrackV, Footprint, FootprintV, Pad, PadV, Point, Track, TrackV, Via, ViaV, Zone,
    ZonePolygon, ZonePolygonV, ZoneV,
};
use crate::score::graphics::{courtyard_of, read_courtyard};
use crate::score::sexpr::{
    child_list, find_child_list, get_int, get_number, get_sym, get_text, int_at, list_of,
    number_at, number_of, sym_at, sym_is, text_at, text_of, Sexpr, SexprV,
};
use crate::text::same;

verus! {

/// The number zero, where a number is missing.
pub open spec fn or_zero(x: Option<Real>) -> Real {
    match x {
        Some(r) => r,
        None => zero(),
    }
}

/// An empty text, where a text is missing.
pub open spec fn or_blank(s: Option<Seq<char>>) -> Seq<char> {
    match s {
        Some(t) => t,
        None => Seq::empty(),
    }
}

/// The point of two numbers in a list.
pub open spec fn point_in(items: Seq<SexprV>) -> Option<Point> {
    match (number_at(items, 1), number_at(items, 2)) {
        (Some(x), Some(y)) => Some(Point { x, y }),
        _ => None,
    }
}

/// The point that a child of the given name holds.
pub open spec fn point_of(children: Seq<SexprV>, name: Seq<char>) -> Option<Point> {
    match child_list(children, name) {
        Some(list) => point_in(list),
        None => None,
    }
}

/// The number that a child of the given name holds.
pub open spec fn scalar_of(children: Seq<SexprV>, name: Seq<char>) -> Option<Real> {
    match child_list(children, name) {
        Some(list) => number_at(list, 1),
        None => None,
    }
}

/// The text that a child of the given name holds.
pub open spec fn label_of(children: Seq<SexprV>, name: Seq<char>) -> Option<Seq<char>> {
    match child_list(children, name) {
        Some(list) => text_at(list, 1),
        None => None,
    }
}

/// The net that the children name.
pub open spec fn net_of(children: Seq<SexprV>) -> Option<i64> {
    match child_list(children, "net"@) {
        Some(list) => int_at(list, 1),
        None => None,
    }
}

/// The texts among the items of a list after the first, up to `n`.
pub open spec fn texts_in(items: Seq<SexprV>, n: int) -> Seq<Seq<char>>
    decreases n,
{
    if n <= 1 {
        Seq::empty()
    } else {
        match text_of(items[n - 1]) {
            Some(s) => texts_in(items, n - 1).push(s),
            None => texts_in(items, n - 1),
        }
    }
}

/// The texts that a child of the given name holds.
pub open spec fn labels_of(children: Seq<SexprV>, name: Seq<char>) -> Seq<Seq<char>> {
    match child_list(children, name) {
        Some(list) => texts_in(list, list.len() as int),
        None => Seq::empty(),
    }
}

/// The point that an `xy` expression is.
pub open spec fn xy_of(v: SexprV) -> Option<Point> {
    match list_of(v) {
        Some(fields) => if sym_at(fields, 0) == Some("xy"@) {
            point_in(fields)
        } else {
            None
        },
        None => None,
    }
}

/// The points among the items of a list after the first, up to `n`.
pub open spec fn xy_points(items: Seq<SexprV>, n: int) -> Seq<Point>
    decreases n,
{
    if n <= 1 {
        Seq::empty()
    } else {
        match xy_of(items[n - 1]) {
            Some(p) => xy_points(items, n - 1).push(p),
            None => xy_points(items, n - 1),
        }
    }
}

pub(crate) fn find_point(children: &Vec<Sexpr>, name: &str) -> (r: Option<Point>)
    ensures
        r == point_of(children.deep_view(), name@),
{
    match find_child_list(children, name) {
        Some(list) => match (get_number(list, 1), get_number(list, 2)) {
            (Some(x), Some(y)) => Some(Point { x, y }),
            _ => None,
        },
        None => None,
    }
}

pub(crate) fn find_scalar(children: &Vec<Sexpr>, name: &str) -> (r: Option<Real>)
    ensures
        r == scalar_of(children.deep_view(), name@),
{
    match find_child_list(children, name) {
        Some(list) => get_number(list, 1),
        None => None,
    }
}

pub(crate) fn find_label(children: &Vec<Sexpr>, name: &str) -> (r: Option<String>)
    ensures
        r.deep_view() == label_of(children.deep_view(), name@),
{
    match find_child_list(children, name) {
        Some(list) => match get_text(list, 1) {
            Some(s) => Some(s.clone()),
            None => None,
        },
        None => None,
    }
}

fn find_net(children: &Vec<Sexpr>) -> (r: Option<i64>)
    ensures
        r == net_of(children.deep_view()),
{
    match find_child_list(children, "net") {
        Some(list) => get_int(list, 1),
        None => None,
    }
}

fn zero_or(x: Option<Real>) -> (r: Real)
    ensures
        r == or_zero(x),
{
    match x {
        Some(v) => v,
        None => Real::zero(),
    }
}

pub(crate) fn blank_or(s: Option<String>) -> (r: String)
    ensures
        r@ == or_blank(s.deep_view()),
{
    match s {
        Some(t) => t,
        None => {
            let e = String::new();
            assert(e@ =~= Seq::empty());
            e
        },
    }
}

pub(crate) fn find_labels(children: &Vec<Sexpr>, name: &str) -> (r: Vec<String>)
    ensures
        r.deep_view() == labels_of(children.deep_view(), name@),
{
    let mut out: Vec<String> = Vec::new();
    assert(out.deep_view() =~= Seq::empty());
    match find_child_list(children, name) {
        Some(list) => {
            let ghost lv = list.deep_view();
            let n: usize = list.len();
            let mut i: usize = 1;
            while i < n
                invariant
                    n == list@.len(),
                    1 <= i,
                    i <= n || i == 1,
                    lv == list.deep_view(),
                    out.deep_view() == texts_in(lv, i as int),
                decreases n - i,
            {
                let ghost before = out.deep_view();
                assert(lv[i as int] == list@[i as int].value());
                match list[i].as_text() {
                    Some(s) => {
                        out.push(s.clone());
                        assert(out.deep_view() =~= before.push(s@));
                    },
                    None => {},
                }
                i += 1;
            }
        },
        None => {},
    }
    out
}

pub(crate) fn read_points(items: &Vec<Sexpr>) -> (r: Vec<Point>)
    ensures
        r.deep_view() == xy_points(items.deep_view(), items.deep_view().len() as int),
{
    let ghost lv = items.deep_view();
    let n: usize = items.len();
    let mut out: Vec<Point> = Vec::new();
    assert(out.deep_view() =~= Seq::empty());
    let mut i: usize = 1;
    while i < n
        invariant
            n == items@.len(),
            1 <= i,
            i <= n || i == 1,
            lv == items.deep_view(),
            out.deep_view() == xy_points(lv, i as int),
        decreases n - i,
    {
        let ghost before = out.deep_view();
        assert(lv[i as int] == items@[i as int].value());
        match items[i].as_list() {
            Some(fields) => {
                if sym_is(fields, 0, "xy") {
                    match (get_number(fields, 1), get_number(fields, 2)) {
                        (Some(x), Some(y)) => {
                            out.push(Point { x, y });
                            assert(out.deep_view() =~= before.push(Point { x, y }));
                        },
                        _ => {},
                    }
                }
            },
            None => {},
        }
        i += 1;
    }
    out
}

/// The track that the children describe.
pub open spec fn track_of(c: Seq<SexprV>) -> Option<TrackV> {
    match (
        point_of(c, "start"@),
        point_of(c, "end"@),
        scalar_of(c, "width"@),
        label_of(c, "layer"@),
        net_of(c),
    ) {
        (Some(start), Some(end), Some(width), Some(layer), Some(net)) => Some(
            TrackV { start, end, width, layer, net },
        ),
        _ => None,
    }
}

/// The track that the children describe.
pub fn parse_segment(children: &Vec<Sexpr>) -> (r: Option<Track>)
    ensures
        r.deep_view() == track_of(children.deep_view()),
{
    match (
        find_point(children, "start"),
        find_point(children, "end"),
        find_scalar(children, "width"),
        find_label(children, "layer"),
        find_net(children),
    ) {
        (Some(start), Some(end), Some(width), Some(layer), Some(net)) => Some(
            Track { start, end, width, layer, net },
        ),
        _ => None,
    }
}

/// The arc that the children describe.
pub open spec fn arc_of(c: Seq<SexprV>) -> Option<ArcTrackV> {
    match (
        point_of(c, "start"@),
        point_of(c, "mid"@),
        point_of(c, "end"@),
        scalar_of(c, "width"@),
        label_of(c, "layer"@),
        net_of(c),
    ) {
        (Some(start), Some(mid), Some(end), Some(width), Some(layer), Some(net)) => Some(
            ArcTrackV { start, mid, end, width, layer, net },
        ),
        _ => None,
    }
}

/// The arc that the children describe.
pub fn parse_arc(children: &Vec<Sexpr>) -> (r: Option<ArcTrack>)
    ensures
        r.deep_view() == arc_of(children.deep_view()),
{
    match (
        find_point(children, "start"),
        find_point(children, "mid"),
        find_point(children, "end"),
        find_scalar(children, "width"),
        find_label(children, "layer"),
        find_net(children),
    ) {
        (Some(start), Some(mid), Some(end), Some(width), Some(layer), Some(net)) => Some(
            ArcTrack { start, mid, end, width, layer, net },
        ),
        _ => None,
    }
}

/// The kind of via that the children name.
pub open spec fn via_kind(c: Seq<SexprV>) -> Seq<char> {
    if sym_at(c, 1) == Some("blind"@) {
        "blind"@
    } else if sym_at(c, 1) == Some("micro"@) {
        "micro"@
    } else {
        "via"@
    }
}

/// The via that the children describe.
pub open spec fn via_of(c: Seq<SexprV>) -> Option<ViaV> {
    match (point_of(c, "at"@), net_of(c)) {
        (Some(at), Some(net)) => Some(
            ViaV {
                at,
                size: or_zero(scalar_of(c, "size"@)),
                drill: or_zero(scalar_of(c, "drill"@)),
                layers: labels_of(c, "layers"@),
                net,
                kind: via_kind(c),
            },
        ),
        _ => None,
    }
}

/// The via that the children describe.
pub fn parse_via(children: &Vec<Sexpr>) -> (r: Option<Via>)
    ensures
        r.deep_view() == via_of(children.deep_view()),
{
    let kind = if sym_is(children, 1, "blind") {
        "blind".to_string()
    } else if sym_is(children, 1, "micro") {
        "micro".to_string()
    } else {
        "via".to_string()
    };
    match (find_point(children, "at"), find_net(children)) {
        (Some(at), Some(net)) => Some(
            Via {
                at,
                size: zero_or(find_scalar(children, "size")),
                drill: zero_or(find_scalar(children, "drill")),
                layers: find_labels(children, "layers"),
                net,
                kind,
            },
        ),
        _ => None,
    }
}

/// The filled area that an expression describes.
pub open spec fn polygon_of(v: SexprV) -> Option<ZonePolygonV> {
    match list_of(v) {
        Some(fields) => if sym_at(fields, 0) == Some("filled_polygon"@) {
            match (label_of(fields, "layer"@), child_list(fields, "pts"@)) {
                (Some(layer), Some(pts)) => Some(
                    ZonePolygonV { layer, points: xy_points(pts, pts.len() as int) },
                ),
                _ => None,
            }
        } else {
            None
        },
        None => None,
    }
}

/// The filled areas among the children.
pub open spec fn polygons_of(c: Seq<SexprV>) -> Seq<ZonePolygonV>
    decreases c.len(),
{
    if c.len() == 0 {
        Seq::empty()
    } else {
        match polygon_of(c.last()) {
            Some(p) => polygons_of(c.drop_last()).push(p),
            None => polygons_of(c.drop_last()),
        }
    }
}

/// The zone that the children describe. Its layers are the single one that it names, then those
/// of its list.
pub open spec fn zone_of(c: Seq<SexprV>) -> Option<ZoneV> {
    match net_of(c) {
        Some(net) => Some(
            ZoneV {
                net,
                net_name: or_blank(label_of(c, "net_name"@)),
                layers: (match label_of(c, "layer"@) {
                    Some(l) => seq![l],
                    None => Seq::empty(),
                }) + labels_of(c, "layers"@),
                filled_polygons: polygons_of(c),
            },
        ),
        None => None,
    }
}

fn read_polygon(v: &Sexpr) -> (r: Option<ZonePolygon>)
    ensures
        r.deep_view() == polygon_of(v.value()),
{
    match v.as_list() {
        Some(fields) => if sym_is(fields, 0, "filled_polygon") {
            match (find_label(fields, "layer"), find_child_list(fields, "pts")) {
                (Some(layer), Some(pts)) => Some(ZonePolygon { layer, points: read_points(pts) }),
                _ => None,
            }
        } else {
            None
        },
        None => None,
    }
}

fn read_polygons(children: &Vec<Sexpr>) -> (r: Vec<ZonePolygon>)
    ensures
        r.deep_view() == polygons_of(children.deep_view()),
{
    let ghost cv = children.deep_view();
    let n: usize = children.len();
    let mut out: Vec<ZonePolygon> = Vec::new();
    let mut i: usize = 0;
    assert(out.deep_view() =~= polygons_of(cv.take(0)));
    while i < n
        invariant
            n == children@.len(),
            i <= n,
            cv == children.deep_view(),
            out.deep_view() == polygons_of(cv.take(i as int)),
        decreases n - i,
    {
        let ghost before = out.deep_view();
        assert(cv.take(i + 1).drop_last() =~= cv.take(i as int));
        assert(cv[i as int] == children@[i as int].value());
        match read_polygon(&children[i]) {
            Some(p) => {
                let ghost pv = p.deep_view();
                out.push(p);
                assert(out.deep_view() =~= before.push(pv));
            },
            None => {},
        }
        i += 1;
    }
    assert(cv.take(n as int) =~= cv);
    out
}

/// The zone that the children describe.
pub fn parse_zone(children: &Vec<Sexpr>) -> (r: Option<Zone>)
    ensures
        r.deep_view() == zone_of(children.deep_view()),
{
    match find_net(children) {
        Some(net) => {
            let net_name = blank_or(find_label(children, "net_name"));
            let mut layers: Vec<String> = Vec::new();
            match find_label(children, "layer") {
                Some(l) => {
                    layers.push(l);
                },
                None => {},
            }
            let ghost first = layers.deep_view();
            let mut more = find_labels(children, "layers");
            let ghost rest = more.deep_view();
            layers.append(&mut more);
            assert(layers.deep_view() =~= first + rest);
            let r = Zone { net, net_name, layers, filled_polygons: read_polygons(children) };
            assert(r.deep_view() =~= zone_of(children.deep_view())->0);
            Some(r)
        },
        None => None,
    }
}

/// The first number among the items of a list from `k` on.
pub open spec fn first_number(items: Seq<SexprV>, k: int) -> Option<Real>
    decreases items.len() - k,
{
    if k < 0 || k >= items.len() {
        None
    } else if number_of(items[k]) is Some {
        number_of(items[k])
    } else {
        first_number(items, k + 1)
    }
}

fn read_first_number(items: &Vec<Sexpr>) -> (r: Option<Real>)
    ensures
        r == first_number(items.deep_view(), 1),
{
    let ghost lv = items.deep_view();
    let n: usize = items.len();
    let mut i: usize = 1;
    while i < n
        invariant
            n == items@.len(),
            1 <= i,
            lv == items.deep_view(),
            first_number(lv, 1) == first_number(lv, i as int),
        decreases n - i,
    {
        assert(lv[i as int] == items@[i as int].value());
        let x = items[i].as_number();
        if x.is_some() {
            return x;
        }
        i += 1;
    }
    None
}

/// The size that a pad names.
pub open spec fn size_of(c: Seq<SexprV>) -> (Real, Real) {
    match child_list(c, "size"@) {
        Some(list) => (or_zero(number_at(list, 1)), or_zero(number_at(list, 2))),
        None => (zero(), zero()),
    }
}

/// The pad that the fields describe.
pub open spec fn pad_of(c: Seq<SexprV>) -> Option<PadV> {
    match (text_at(c, 1), point_of(c, "at"@)) {
        (Some(number), Some(local)) => Some(
            PadV {
                number,
                kind: match sym_at(c, 2) {
                    Some(k) => k,
                    None => "smd"@,
                },
                local,
                size: size_of(c),
                drill: match child_list(c, "drill"@) {
                    Some(list) => first_number(list, 1),
                    None => None,
                },
                layers: labels_of(c, "layers"@),
                net: net_of(c),
                net_name: match child_list(c, "net"@) {
                    Some(list) => text_at(list, 2),
                    None => None,
                },
            },
        ),
        _ => None,
    }
}

/// The pad that the fields describe.
pub fn parse_pad(fields: &Vec<Sexpr>) -> (r: Option<Pad>)
    ensures
        r.deep_view() == pad_of(fields.deep_view()),
{
    match (get_text(fields, 1), find_point(fields, "at")) {
        (Some(number), Some(local)) => {
            let kind = match get_sym(fields, 2) {
                Some(k) => k.clone(),
                None => "smd".to_string(),
            };
            let size = match find_child_list(fields, "size") {
                Some(list) => (zero_or(get_number(list, 1)), zero_or(get_number(list, 2))),
                None => (Real::zero(), Real::zero()),
            };
            let drill = match find_child_list(fields, "drill") {
                Some(list) => read_first_number(list),
                None => None,
            };
            let net_name = match find_child_list(fields, "net") {
                Some(list) => match get_text(list, 2) {
                    Some(s) => Some(s.clone()),
                    None => None,
                },
                None => None,
            };
            Some(
                Pad {
                    number: number.clone(),
                    kind,
                    local,
                    size,
                    drill,
                    layers: find_labels(fields, "layers"),
                    net: find_net(fields),
                    net_name,
                },
            )
        },
        _ => None,
    }
}

/// The pads among the children.
pub open spec fn pads_of(c: Seq<SexprV>) -> Seq<PadV>
    decreases c.len(),
{
    if c.len() == 0 {
        Seq::empty()
    } else {
        let front = pads_of(c.drop_last());
        match list_of(c.last()) {
            Some(fields) => if sym_at(fields, 0) == Some("pad"@) {
                match pad_of(fields) {
                    Some(p) => front.push(p),
                    None => front,
                }
            } else {
                front
            },
            None => front,
        }
    }
}

/// The reference that the children give; the last one counts.
pub open spec fn reference_of(c: Seq<SexprV>) -> Seq<char>
    decreases c.len(),
{
    if c.len() == 0 {
        Seq::empty()
    } else {
        let front = reference_of(c.drop_last());
        match list_of(c.last()) {
            Some(fields) => if sym_at(fields, 0) == Some("property"@) && text_at(fields, 1) == Some(
                "Reference"@,
            ) {
                match text_at(fields, 2) {
                    Some(s) => s,
                    None => front,
                }
            } else {
                front
            },
            None => front,
        }
    }
}

/// The footprint that the children describe.
pub open spec fn footprint_of(c: Seq<SexprV>) -> Option<FootprintV> {
    match child_list(c, "at"@) {
        Some(at_list) => match point_in(at_list) {
            Some(at) => Some(
                FootprintV {
                    reference: reference_of(c),
                    footprint_id: or_blank(text_at(c, 1)),
                    layer: or_blank(label_of(c, "layer"@)),
                    at,
                    rotation_deg: or_zero(number_at(at_list, 3)),
                    pads: pads_of(c),
                    courtyard: courtyard_of(c),
                },
            ),
            None => None,
        },
        None => None,
    }
}

pub(crate) fn text_is(items: &Vec<Sexpr>, k: usize, want: &str) -> (r: bool)
    ensures
        r == (text_at(items.deep_view(), k as int) == Some(want@)),
{
    match get_text(items, k) {
        Some(s) => same(s.as_str(), want),
        None => false,
    }
}

/// The footprint that the children describe.
pub fn parse_footprint(children: &Vec<Sexpr>) -> (r: Option<Footprint>)
    ensures
        r.deep_view() == footprint_of(children.deep_view()),
{
    let ghost cv = children.deep_view();
    match find_child_list(children, "at") {
        Some(at_list) => match (get_number(at_list, 1), get_number(at_list, 2)) {
            (Some(x), Some(y)) => {
                let rotation_deg = zero_or(get_number(at_list, 3));
                let ghost av = at_list.deep_view();
                let footprint_id = match get_text(children, 1) {
                    Some(s) => s.clone(),
                    None => blank_or(None),
                };
                let layer = blank_or(find_label(children, "layer"));
                let mut reference = blank_or(None);
                let mut pads: Vec<Pad> = Vec::new();
                let n: usize = children.len();
                let mut i: usize = 0;
                assert(cv.take(0) =~= Seq::empty());
                assert(pads.deep_view() =~= Seq::empty());
                while i < n
                    invariant
                        n == children@.len(),
                        i <= n,
                        cv == children.deep_view(),
                        pads.deep_view() == pads_of(cv.take(i as int)),
                        reference@ == reference_of(cv.take(i as int)),
                    decreases n - i,
                {
                    let ghost before = pads.deep_view();
                    assert(cv.take(i + 1).drop_last() =~= cv.take(i as int));
                    assert(cv[i as int] == children@[i as int].value());
                    match children[i].as_list() {
                        Some(fields) => {
                            let ghost fv = fields.deep_view();
                            assert(list_of(cv[i as int]) == Some(fv));
                            if sym_is(fields, 0, "property") {
                                proof {
                                    reveal_strlit("property");
                                    reveal_strlit("pad");
                                    assert("property"@.len() != "pad"@.len());
                                }
                                if text_is(fields, 1, "Reference") {
                                    match get_text(fields, 2) {
                                        Some(s) => {
                                            reference = s.clone();
                                        },
                                        None => {},
                                    }
                                }
                            } else if sym_is(fields, 0, "pad") {
                                match parse_pad(fields) {
                                    Some(p) => {
                                        let ghost pv = p.deep_view();
                                        pads.push(p);
                                        assert(pads.deep_view() =~= before.push(pv));
                                    },
                                    None => {},
                                }
                            }
                        },
                        None => {},
                    }
                    i += 1;
                }
                assert(cv.take(n as int) =~= cv);
                let r = Footprint {
                    reference,
                    footprint_id,
                    layer,
                    at: Point { x, y },
                    rotation_deg,
                    pads,
                    courtyard: read_courtyard(children),
                };
                assert(r.courtyard.deep_view() =~= r.courtyard@);
                assert(r.deep_view() =~= footprint_of(cv)->0);
                Some(r)
            },
            _ => None,
        },
        None => None,
    }
}

} // verus!
