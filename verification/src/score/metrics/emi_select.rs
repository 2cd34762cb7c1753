//! Selections and counts of the emission metrics.
use vstd::prelude::*;

use crate::number::{finite, larger, lesser, no_number, place, zero, Real};
use crate::order::as_ints;
use crate::score::board::{name_of_net, BoardModel, BoardModelV, Track, TrackV};
use crate::score::classify::NetInfo;
use crate::score::metrics::context::{Classes, Trait};
use crate::score::metrics::si_select::{check_listed, listed_is};
use crate::select::{asks, find_places, places, Test};
use crate::text::same;

verus! {

/// The tracks on fast nets.
pub open spec fn fast_tracks(b: BoardModelV, classes: Classes) -> Seq<int> {
    places(b.tracks, |t: TrackV| listed_is(b, classes, t.net, Trait::HighSpeed))
}

/// The layer is an outer copper layer.
pub open spec fn is_outer(layer: Seq<char>) -> bool {
    layer == "F.Cu"@ || layer == "B.Cu"@
}

/// The tracks on fast nets on outer layers.
pub open spec fn outer_fast_tracks(b: BoardModelV, classes: Classes) -> Seq<int> {
    places(
        b.tracks,
        |t: TrackV| is_outer(t.layer) && listed_is(b, classes, t.net, Trait::HighSpeed),
    )
}

struct FastTrack<'a> {
    board: &'a BoardModel,
    classes: &'a Vec<(String, NetInfo)>,
    outer: bool,
}

impl<'a> Test<Track> for FastTrack<'a> {
    closed spec fn passes(&self, x: TrackV) -> bool {
        (self.outer ==> is_outer(x.layer)) && listed_is(
            self.board.deep_view(),
            self.classes.deep_view(),
            x.net,
            Trait::HighSpeed,
        )
    }

    fn check(&self, x: &Track) -> (r: bool) {
        let outside: bool = same(x.layer.as_str(), "F.Cu") || same(x.layer.as_str(), "B.Cu");
        (!self.outer || outside) && check_listed(self.board, self.classes, x.net, Trait::HighSpeed)
    }
}

/// The tracks on fast nets.
pub fn find_fast_tracks(board: &BoardModel, classes: &Vec<(String, NetInfo)>) -> (r: Vec<usize>)
    ensures
        as_ints(r@) == fast_tracks(board.deep_view(), classes.deep_view()),
        forall|i: int| 0 <= i < r@.len() ==> (#[trigger] r@[i]) < board.tracks@.len(),
{
    let test = FastTrack { board, classes, outer: false };
    let r = find_places(&board.tracks, &test);
    assert(asks::<Track, FastTrack>(test) =~= |t: TrackV|
        listed_is(board.deep_view(), classes.deep_view(), t.net, Trait::HighSpeed));
    r
}

/// The tracks on fast nets on outer layers.
pub fn find_outer_tracks(board: &BoardModel, classes: &Vec<(String, NetInfo)>) -> (r: Vec<usize>)
    ensures
        as_ints(r@) == outer_fast_tracks(board.deep_view(), classes.deep_view()),
        forall|i: int| 0 <= i < r@.len() ==> (#[trigger] r@[i]) < board.tracks@.len(),
{
    let test = FastTrack { board, classes, outer: true };
    let r = find_places(&board.tracks, &test);
    assert(asks::<Track, FastTrack>(test) =~= |t: TrackV|
        is_outer(t.layer) && listed_is(
            board.deep_view(),
            classes.deep_view(),
            t.net,
            Trait::HighSpeed,
        ));
    r
}

/// The smallest distance of the ends of those of the first `n` tracks that are on nets of the
/// given name; nothing where there is no such track.
pub open spec fn lowest(
    b: BoardModelV,
    distances: Seq<(Real, Real)>,
    name: Seq<char>,
    n: int,
) -> Option<Real>
    decreases n,
{
    if n <= 0 {
        None
    } else {
        let front = lowest(b, distances, name, n - 1);
        if name_of_net(b.nets, b.tracks[n - 1].net) == name {
            let d = distances[n - 1];
            match front {
                Some(v) => Some(lesser(lesser(v, d.0), d.1)),
                None => Some(lesser(d.0, d.1)),
            }
        } else {
            front
        }
    }
}

/// The smallest distance of the ends of tracks on nets of the given name.
pub fn find_lowest(board: &BoardModel, distances: &Vec<(Real, Real)>, name: &str) -> (r: Option<
    Real,
>)
    requires
        distances@.len() == board.tracks@.len(),
    ensures
        r == lowest(board.deep_view(), distances@, name@, distances@.len() as int),
{
    let ghost bv = board.deep_view();
    let n: usize = distances.len();
    let mut best: Option<Real> = None;
    let mut i: usize = 0;
    while i < n
        invariant
            n == distances@.len(),
            n == board.tracks@.len(),
            i <= n,
            bv == board.deep_view(),
            best == lowest(bv, distances@, name@, i as int),
        decreases n - i,
    {
        assert(bv.tracks[i as int] == board.tracks@[i as int].deep_view());
        let own = board.net_name(board.tracks[i].net);
        if same(own.as_str(), name) {
            let (a, c) = distances[i];
            best = match best {
                Some(v) => Some(v.lesser(&a).lesser(&c)),
                None => Some(a.lesser(&c)),
            };
        }
        i += 1;
    }
    best
}

/// The smallest of the start and all distances.
pub open spec fn lowest_of_all(start: Real, distances: Seq<(Real, Real)>) -> Real
    decreases distances.len(),
{
    if distances.len() == 0 {
        start
    } else {
        let d = distances.last();
        lesser(lesser(lowest_of_all(start, distances.drop_last()), d.0), d.1)
    }
}

/// The smallest of the start and all distances.
pub fn find_lowest_of_all(start: Real, distances: &Vec<(Real, Real)>) -> (r: Real)
    ensures
        r == lowest_of_all(start, distances@),
{
    let n: usize = distances.len();
    let mut best: Real = start;
    let mut i: usize = 0;
    while i < n
        invariant
            n == distances@.len(),
            i <= n,
            best == lowest_of_all(start, distances@.take(i as int)),
        decreases n - i,
    {
        assert(distances@.take(i + 1).drop_last() =~= distances@.take(i as int));
        let (a, c) = distances[i];
        best = best.lesser(&a).lesser(&c);
        i += 1;
    }
    assert(distances@.take(n as int) =~= distances@);
    best
}

/// How far from the edge a via still counts as near it: one and a half millimetres.
pub const NEAR_EDGE: u64 = 0x3ff8_0000_0000_0000;

/// The distance is near the edge.
pub open spec fn is_near_edge(d: Real) -> bool {
    !no_number(d) && place(d) <= NEAR_EDGE
}

/// Those distances that are near the edge.
pub open spec fn near_edge(distances: Seq<Real>) -> Seq<int> {
    places(distances, |d: Real| is_near_edge(d))
}

struct NearEdge;

impl Test<Real> for NearEdge {
    closed spec fn passes(&self, x: Real) -> bool {
        is_near_edge(x)
    }

    fn check(&self, x: &Real) -> (r: bool) {
        !x.is_missing() && x.rank() <= NEAR_EDGE as i64
    }
}

/// Those distances that are near the edge.
pub fn find_near_edge(distances: &Vec<Real>) -> (r: Vec<usize>)
    ensures
        as_ints(r@) == near_edge(distances@),
        forall|i: int| 0 <= i < r@.len() ==> (#[trigger] r@[i]) < distances@.len(),
{
    let test = NearEdge;
    let r = find_places(distances, &test);
    assert(asks::<Real, NearEdge>(test) =~= |d: Real| is_near_edge(d));
    assert(distances.deep_view() =~= distances@);
    r
}

/// The largest finite gap, zero where there is none.
pub open spec fn widest(gaps: Seq<Real>) -> Real
    decreases gaps.len(),
{
    if gaps.len() == 0 {
        zero()
    } else {
        let front = widest(gaps.drop_last());
        if finite(gaps.last()) {
            larger(front, gaps.last())
        } else {
            front
        }
    }
}

/// The largest finite gap, zero where there is none.
pub fn find_widest(gaps: &Vec<Real>) -> (r: Real)
    ensures
        r == widest(gaps@),
{
    let n: usize = gaps.len();
    let mut best: Real = Real::zero();
    let mut i: usize = 0;
    while i < n
        invariant
            n == gaps@.len(),
            i <= n,
            best == widest(gaps@.take(i as int)),
        decreases n - i,
    {
        assert(gaps@.take(i + 1).drop_last() =~= gaps@.take(i as int));
        if gaps[i].is_finite() {
            best = best.larger(&gaps[i]);
        }
        i += 1;
    }
    assert(gaps@.take(n as int) =~= gaps@);
    best
}

/// Some value is finite.
pub open spec fn any_finite(values: Seq<Real>) -> bool {
    exists|i: int| 0 <= i < values.len() && finite(#[trigger] values[i])
}

/// Whether some value is finite.
pub fn check_any_finite(values: &Vec<Real>) -> (r: bool)
    ensures
        r == any_finite(values@),
{
    let n: usize = values.len();
    let mut i: usize = 0;
    while i < n
        invariant
            n == values@.len(),
            i <= n,
            forall|j: int| 0 <= j < i ==> !finite(#[trigger] values@[j]),
        decreases n - i,
    {
        if values[i].is_finite() {
            return true;
        }
        i += 1;
    }
    false
}

/// Some later sample than `k` is covered.
pub open spec fn covered_after(c: Seq<bool>, k: int) -> bool {
    exists|j: int| k < j < c.len() && #[trigger] c[j]
}

/// A gap begins at sample `k`: the sample before is covered, this one is not, and a later one is.
pub open spec fn gap_begins(c: Seq<bool>, k: int) -> bool {
    1 <= k < c.len() && c[k - 1] && !c[k] && covered_after(c, k)
}

/// The gaps that begin at sample `k` or later.
pub open spec fn gaps_from(c: Seq<bool>, k: int) -> nat
    decreases c.len() - k,
{
    if k >= c.len() {
        0
    } else {
        gaps_from(c, k + 1) + if gap_begins(c, k) {
            1nat
        } else {
            0nat
        }
    }
}

/// The gaps in the coverage of a track: uncovered stretches between covered ones.
pub open spec fn gaps_in(c: Seq<bool>) -> nat {
    gaps_from(c, 0)
}

/// The gaps in the coverage of a track.
pub fn count_gaps(c: &Vec<bool>) -> (r: u64)
    ensures
        r == gaps_in(c@),
        r <= c@.len(),
{
    let n: usize = c.len();
    let mut later: bool = false;
    let mut count: u64 = 0;
    let mut i: usize = n;
    while i > 0
        invariant
            n == c@.len(),
            i <= n,
            later == exists|j: int| i <= j < n && #[trigger] c@[j],
            count == gaps_from(c@, i as int),
            count <= n - i,
        decreases i,
    {
        let k: usize = i - 1;
        let here: bool = c[k];
        assert(later == covered_after(c@, k as int));
        if k >= 1 && c[k - 1] && !here && later {
            assert(gap_begins(c@, k as int));
            count = count + 1;
        } else {
            assert(!gap_begins(c@, k as int));
        }
        if here {
            later = true;
        }
        i = k;
    }
    count
}

/// A fully covered track and one without any coverage have no gap.
pub proof fn even_coverage_has_no_gap(c: Seq<bool>, k: int)
    requires
        0 <= k,
        forall|i: int, j: int| 0 <= i < c.len() && 0 <= j < c.len() ==> c[i] == c[j],
    ensures
        gaps_from(c, k) == 0,
    decreases c.len() - k,
{
    if k < c.len() {
        even_coverage_has_no_gap(c, k + 1);
    }
}

/// All samples of the first `n` tracks.
pub open spec fn sample_total(covered: Seq<Seq<bool>>, n: int) -> nat
    decreases n,
{
    if n <= 0 {
        0
    } else {
        sample_total(covered, n - 1) + covered[n - 1].len()
    }
}

/// The gaps of those of the first `n` tracks that are on nets of the given name.
pub open spec fn gaps_of_name(
    b: BoardModelV,
    at: Seq<int>,
    covered: Seq<Seq<bool>>,
    name: Seq<char>,
    n: int,
) -> nat
    decreases n,
{
    if n <= 0 {
        0
    } else {
        gaps_of_name(b, at, covered, name, n - 1) + if name_of_net(
            b.nets,
            b.tracks[at[n - 1]].net,
        ) == name {
            gaps_in(covered[n - 1])
        } else {
            0
        }
    }
}

/// The gaps of the first `n` tracks.
pub open spec fn gap_total(covered: Seq<Seq<bool>>, n: int) -> nat
    decreases n,
{
    if n <= 0 {
        0
    } else {
        gap_total(covered, n - 1) + gaps_in(covered[n - 1])
    }
}

proof fn totals_rise(covered: Seq<Seq<bool>>, a: int, c: int)
    requires
        0 <= a <= c,
    ensures
        sample_total(covered, a) <= sample_total(covered, c),
    decreases c - a,
{
    if a < c {
        totals_rise(covered, a, c - 1);
    }
}

/// The gaps of the tracks on nets of the given name.
pub fn count_gaps_of_name(
    board: &BoardModel,
    at: &Vec<usize>,
    covered: &Vec<Vec<bool>>,
    name: &str,
) -> (r: u64)
    requires
        at@.len() == covered@.len(),
        forall|i: int| 0 <= i < at@.len() ==> (#[trigger] at@[i]) < board.tracks@.len(),
        sample_total(covered.deep_view(), covered@.len() as int) <= u64::MAX,
    ensures
        r == gaps_of_name(
            board.deep_view(),
            as_ints(at@),
            covered.deep_view(),
            name@,
            at@.len() as int,
        ),
{
    let ghost bv = board.deep_view();
    let ghost av = as_ints(at@);
    let ghost cv = covered.deep_view();
    let n: usize = at.len();
    let mut count: u64 = 0;
    let mut i: usize = 0;
    while i < n
        invariant
            n == at@.len(),
            n == covered@.len(),
            i <= n,
            bv == board.deep_view(),
            av == as_ints(at@),
            cv == covered.deep_view(),
            forall|j: int| 0 <= j < at@.len() ==> (#[trigger] at@[j]) < board.tracks@.len(),
            sample_total(cv, n as int) <= u64::MAX,
            count == gaps_of_name(bv, av, cv, name@, i as int),
            count <= sample_total(cv, i as int),
        decreases n - i,
    {
        let k: usize = at[i];
        assert(bv.tracks[k as int] == board.tracks@[k as int].deep_view());
        assert(cv[i as int] =~= covered@[i as int]@);
        let own = board.net_name(board.tracks[k].net);
        proof {
            totals_rise(cv, i + 1, n as int);
            assert(sample_total(cv, i + 1) == sample_total(cv, i as int) + cv[i as int].len());
        }
        if same(own.as_str(), name) {
            let more: u64 = count_gaps(&covered[i]);
            count = count + more;
        }
        i += 1;
    }
    count
}

/// The gaps of all tracks.
pub fn count_all_gaps(covered: &Vec<Vec<bool>>) -> (r: u64)
    requires
        sample_total(covered.deep_view(), covered@.len() as int) <= u64::MAX,
    ensures
        r == gap_total(covered.deep_view(), covered@.len() as int),
{
    let ghost cv = covered.deep_view();
    let n: usize = covered.len();
    let mut count: u64 = 0;
    let mut i: usize = 0;
    while i < n
        invariant
            n == covered@.len(),
            i <= n,
            cv == covered.deep_view(),
            sample_total(cv, n as int) <= u64::MAX,
            count == gap_total(cv, i as int),
            count <= sample_total(cv, i as int),
        decreases n - i,
    {
        assert(cv[i as int] =~= covered@[i as int]@);
        let more: u64 = count_gaps(&covered[i]);
        proof {
            totals_rise(cv, i + 1, n as int);
            assert(sample_total(cv, i + 1) == sample_total(cv, i as int) + cv[i as int].len());
        }
        count = count + more;
        i += 1;
    }
    count
}

} // verus!
