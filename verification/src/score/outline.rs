//! The box around the outline of a board.
use vstd::prelude::*;

use crate::number::{
    below, extremes_bound, finite, greatest, greatest_of, least, least_of, Real, INFINITE, SIGN,
};
use crate::score::board::{BoardModel, OutlinePiece, Point};

verus! {

/// The ends of the straight pieces, in order.
pub open spec fn straight_ends(outline: Seq<OutlinePiece>) -> Seq<Point>
    decreases outline.len(),
{
    if outline.len() == 0 {
        Seq::empty()
    } else {
        straight_ends(outline.drop_last()) + match outline.last() {
            OutlinePiece::Segment(a, b) => seq![a, b],
            OutlinePiece::Circle(_, _) => Seq::empty(),
        }
    }
}

/// How many of the pieces are circles.
pub open spec fn circle_count(outline: Seq<OutlinePiece>) -> nat
    decreases outline.len(),
{
    if outline.len() == 0 {
        0
    } else {
        circle_count(outline.drop_last()) + match outline.last() {
            OutlinePiece::Segment(_, _) => 0nat,
            OutlinePiece::Circle(_, _) => 1nat,
        }
    }
}

/// A circle is drawn with straight lines; this many ends they have together.
pub const RIM_POINTS: usize = 32;

/// The points on circles are those through which the circles of the outline are drawn, by their
/// number.
pub open spec fn circles_fit(outline: Seq<OutlinePiece>, on_circles: Seq<Point>) -> bool {
    on_circles.len() == RIM_POINTS * circle_count(outline)
}

/// There is a box around the outline.
pub open spec fn has_box(outline: Seq<OutlinePiece>, on_circles: Seq<Point>) -> bool {
    box_of(straight_ends(outline) + on_circles) is Some
}

/// The first coordinates of points.
pub open spec fn xs_of(points: Seq<Point>) -> Seq<Real> {
    Seq::new(points.len(), |i: int| points[i].x)
}

/// The second coordinates of points.
pub open spec fn ys_of(points: Seq<Point>) -> Seq<Real> {
    Seq::new(points.len(), |i: int| points[i].y)
}

/// The number above all others.
pub open spec fn infinite() -> Real {
    Real { bits: INFINITE }
}

/// The number below all others.
pub open spec fn negative_infinite() -> Real {
    Real { bits: (SIGN + INFINITE) as u64 }
}

/// The lower and the upper corner of the box around points, if it is finite from side to side.
pub open spec fn box_of(points: Seq<Point>) -> Option<(Point, Point)> {
    let min = Point { x: least(infinite(), xs_of(points)), y: least(infinite(), ys_of(points)) };
    let max = Point {
        x: greatest(negative_infinite(), xs_of(points)),
        y: greatest(negative_infinite(), ys_of(points)),
    };
    if finite(min.x) && finite(max.x) {
        Some((min, max))
    } else {
        None
    }
}

fn split_points(points: &Vec<Point>) -> (r: (Vec<Real>, Vec<Real>))
    ensures
        r.0@ == xs_of(points@),
        r.1@ == ys_of(points@),
{
    let n: usize = points.len();
    let mut xs: Vec<Real> = Vec::new();
    let mut ys: Vec<Real> = Vec::new();
    let mut i: usize = 0;
    while i < n
        invariant
            n == points@.len(),
            i <= n,
            xs@ == xs_of(points@).take(i as int),
            ys@ == ys_of(points@).take(i as int),
        decreases n - i,
    {
        xs.push(points[i].x);
        ys.push(points[i].y);
        assert(xs@ =~= xs_of(points@).take(i + 1));
        assert(ys@ =~= ys_of(points@).take(i + 1));
        i += 1;
    }
    assert(xs@ =~= xs_of(points@));
    assert(ys@ =~= ys_of(points@));
    (xs, ys)
}

fn find_ends(outline: &Vec<OutlinePiece>) -> (r: Vec<Point>)
    ensures
        r@ == straight_ends(outline@),
{
    let n: usize = outline.len();
    let mut out: Vec<Point> = Vec::new();
    let mut i: usize = 0;
    while i < n
        invariant
            n == outline@.len(),
            i <= n,
            out@ == straight_ends(outline@.take(i as int)),
        decreases n - i,
    {
        let ghost before = out@;
        assert(outline@.take(i + 1).drop_last() =~= outline@.take(i as int));
        match outline[i] {
            OutlinePiece::Segment(a, b) => {
                out.push(a);
                out.push(b);
                assert(out@ =~= before + seq![a, b]);
            },
            OutlinePiece::Circle(_, _) => {
                assert(before + Seq::<Point>::empty() =~= before);
            },
        }
        i += 1;
    }
    assert(outline@.take(n as int) =~= outline@);
    out
}

impl BoardModel {
    /// The corners of the box around the outline, if it has one. The points on its circles are
    /// given.
    pub fn outline_bbox(&self, on_circles: &Vec<Point>) -> (r: Option<(Point, Point)>)
        ensures
            r == box_of(straight_ends(self.deep_view().outline) + on_circles@),
    {
        assert(self.deep_view().outline =~= self.outline@);
        let mut points = find_ends(&self.outline);
        let ghost ends = points@;
        let n: usize = on_circles.len();
        let mut i: usize = 0;
        assert(ends + on_circles@.take(0) =~= ends);
        while i < n
            invariant
                n == on_circles@.len(),
                i <= n,
                points@ == ends + on_circles@.take(i as int),
            decreases n - i,
        {
            points.push(on_circles[i]);
            assert(points@ =~= ends + on_circles@.take(i + 1));
            i += 1;
        }
        assert(on_circles@.take(n as int) =~= on_circles@);
        let (xs, ys) = split_points(&points);
        let high = Real { bits: INFINITE };
        let low = Real { bits: SIGN + INFINITE };
        let min = Point { x: least_of(high, &xs), y: least_of(high, &ys) };
        let max = Point { x: greatest_of(low, &xs), y: greatest_of(low, &ys) };
        if min.x.is_finite() && max.x.is_finite() {
            Some((min, max))
        } else {
            None
        }
    }
}

/// No point lies outside the box around the points.
pub proof fn boxes_hold_their_points(points: Seq<Point>, i: int)
    requires
        0 <= i < points.len(),
        box_of(points) is Some,
    ensures
        ({
            let (min, max) = box_of(points).unwrap();
            &&& !below(points[i].x, min.x)
            &&& !below(max.x, points[i].x)
            &&& !below(points[i].y, min.y)
            &&& !below(max.y, points[i].y)
        }),
{
    extremes_bound(infinite(), xs_of(points), i);
    extremes_bound(infinite(), ys_of(points), i);
    extremes_bound(negative_infinite(), xs_of(points), i);
    extremes_bound(negative_infinite(), ys_of(points), i);
}

} // verus!
