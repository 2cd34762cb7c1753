//! Spanning trees: the shortest connections that join all points, grown from the first point.
use vstd::prelude::*;

use crate::number::{below, no_number, Real};

verus! {

/// A square table of distances.
pub open spec fn is_table(d: Seq<Seq<Real>>) -> bool {
    forall|i: int| 0 <= i < d.len() ==> (#[trigger] d[i]).len() == d.len()
}

/// Among the first `k` points of the tree, the place of the first one that is nearest to `x`.
pub open spec fn nearest_in(d: Seq<Seq<Real>>, tree: Seq<int>, x: int, k: int) -> int
    decreases k,
{
    if k <= 1 {
        0
    } else {
        let f = nearest_in(d, tree, x, k - 1);
        if below(d[tree[k - 1]][x], d[tree[f]][x]) {
            k - 1
        } else {
            f
        }
    }
}

/// The point of the tree that `x` is nearest to.
pub open spec fn anchor(d: Seq<Seq<Real>>, tree: Seq<int>, x: int) -> int {
    tree[nearest_in(d, tree, x, tree.len() as int)]
}

/// How far `x` is from the tree.
pub open spec fn gap(d: Seq<Seq<Real>>, tree: Seq<int>, x: int) -> Real {
    d[anchor(d, tree, x)][x]
}

/// Among the first `k` points, the first one outside the tree that is nearest to it.
pub open spec fn next_point(d: Seq<Seq<Real>>, tree: Seq<int>, k: int) -> Option<int>
    decreases k,
{
    if k <= 0 {
        None
    } else {
        let front = next_point(d, tree, k - 1);
        if tree.contains(k - 1) {
            front
        } else {
            match front {
                Some(j) => if below(gap(d, tree, k - 1), gap(d, tree, j)) {
                    Some(k - 1)
                } else {
                    front
                },
                None => Some(k - 1),
            }
        }
    }
}

/// The points in the order in which they join the tree, after `k` steps.
pub open spec fn grown(d: Seq<Seq<Real>>, k: int) -> Seq<int>
    decreases k,
{
    if k <= 0 {
        seq![0int]
    } else {
        let tree = grown(d, k - 1);
        match next_point(d, tree, d.len() as int) {
            Some(x) => tree.push(x),
            None => tree,
        }
    }
}

/// The connections of the first `k` steps: from a point of the tree to the one that joins.
pub open spec fn tree_edges(d: Seq<Seq<Real>>, k: int) -> Seq<(int, int)>
    decreases k,
{
    if k <= 0 {
        Seq::empty()
    } else {
        let tree = grown(d, k - 1);
        match next_point(d, tree, d.len() as int) {
            Some(x) => tree_edges(d, k - 1).push((anchor(d, tree, x), x)),
            None => tree_edges(d, k - 1),
        }
    }
}

/// The connections of the spanning tree.
pub open spec fn spanning_tree(d: Seq<Seq<Real>>) -> Seq<(int, int)> {
    tree_edges(d, d.len() - 1)
}

proof fn nearest_exists(d: Seq<Seq<Real>>, tree: Seq<int>, x: int, k: int)
    requires
        1 <= k <= tree.len(),
    ensures
        0 <= nearest_in(d, tree, x, k) < k,
    decreases k,
{
    if k > 1 {
        nearest_exists(d, tree, x, k - 1);
    }
}

proof fn nearest_is_least(d: Seq<Seq<Real>>, tree: Seq<int>, x: int, k: int, j: int)
    requires
        0 <= j < k <= tree.len(),
        forall|i: int| 0 <= i < tree.len() ==> !no_number(d[#[trigger] tree[i]][x]),
    ensures
        0 <= nearest_in(d, tree, x, k) < k,
        !below(d[tree[j]][x], d[tree[nearest_in(d, tree, x, k)]][x]),
    decreases k,
{
    if k > 1 {
        nearest_exists(d, tree, x, k - 1);
        if j < k - 1 {
            nearest_is_least(d, tree, x, k - 1, j);
        }
    }
}

proof fn next_is_outside(d: Seq<Seq<Real>>, tree: Seq<int>, k: int)
    ensures
        next_point(d, tree, k) matches Some(x) ==> 0 <= x < k && !tree.contains(x),
        next_point(d, tree, k) is None ==> forall|x: int|
            0 <= x < k ==> #[trigger] tree.contains(x),
    decreases k,
{
    if k > 0 {
        next_is_outside(d, tree, k - 1);
    }
}

proof fn next_is_least(d: Seq<Seq<Real>>, tree: Seq<int>, k: int, y: int)
    requires
        0 <= y < k,
        !tree.contains(y),
        forall|i: int| 0 <= i < k && !tree.contains(i) ==> !no_number(#[trigger] gap(d, tree, i)),
    ensures
        next_point(d, tree, k) is Some,
        !below(gap(d, tree, y), gap(d, tree, next_point(d, tree, k)->0)),
    decreases k,
{
    next_is_outside(d, tree, k - 1);
    if y < k - 1 {
        next_is_least(d, tree, k - 1, y);
        let j = next_point(d, tree, k - 1)->0;
        assert(!no_number(gap(d, tree, j)));
        if !tree.contains(k - 1) {
            assert(!no_number(gap(d, tree, k - 1)));
        }
    } else {
        match next_point(d, tree, k - 1) {
            Some(j) => {
                assert(!no_number(gap(d, tree, j)));
                assert(!no_number(gap(d, tree, y)));
            },
            None => {},
        }
    }
}

/// Fewer distinct numbers below `n` than `n` leave one out.
proof fn someone_outside(tree: Seq<int>, n: int)
    requires
        tree.len() < n,
        forall|i: int| 0 <= i < tree.len() ==> 0 <= #[trigger] tree[i] < n,
        forall|i: int, j: int| 0 <= i < j < tree.len() ==> tree[i] != tree[j],
    ensures
        exists|x: int| 0 <= x < n && !#[trigger] tree.contains(x),
    decreases n,
{
    if tree.contains(n - 1) {
        let p = choose|p: int| 0 <= p < tree.len() && tree[p] == n - 1;
        let rest = tree.remove(p);
        assert forall|i: int| 0 <= i < rest.len() implies 0 <= #[trigger] rest[i] < n - 1 by {
            if i < p {
                assert(rest[i] == tree[i]);
                assert(tree[i] != tree[p]);
            } else {
                assert(rest[i] == tree[i + 1]);
                assert(tree[p] != tree[i + 1]);
            }
        }
        assert forall|i: int, j: int| 0 <= i < j < rest.len() implies rest[i] != rest[j] by {
            let a = if i < p {
                i
            } else {
                i + 1
            };
            let c = if j < p {
                j
            } else {
                j + 1
            };
            assert(tree[a] != tree[c]);
        }
        someone_outside(rest, n - 1);
        let x = choose|x: int| 0 <= x < n - 1 && !#[trigger] rest.contains(x);
        if tree.contains(x) {
            let q = choose|q: int| 0 <= q < tree.len() && tree[q] == x;
            if q < p {
                assert(rest[q] == x);
            } else {
                assert(q != p);
                assert(rest[q - 1] == x);
            }
            assert(false);
        }
        assert(!tree.contains(x));
    } else {
        assert(!tree.contains(n - 1));
    }
}

/// The tree grows by one new point at each step: after `k` steps it has `k + 1` different points
/// and `k` connections, each from a point that was in the tree to the new one.
pub proof fn tree_grows(d: Seq<Seq<Real>>, k: int)
    requires
        0 <= k < d.len(),
    ensures
        grown(d, k).len() == k + 1,
        tree_edges(d, k).len() == k,
        forall|i: int| 0 <= i <= k ==> 0 <= #[trigger] grown(d, k)[i] < d.len(),
        forall|i: int, j: int| 0 <= i < j <= k ==> grown(d, k)[i] != grown(d, k)[j],
        forall|i: int|
            0 <= i < k ==> (#[trigger] tree_edges(d, k)[i]).1 == grown(d, k)[i + 1] && grown(
                d,
                k,
            ).take(i + 1).contains(tree_edges(d, k)[i].0),
    decreases k,
{
    if k > 0 {
        tree_grows(d, k - 1);
        let tree = grown(d, k - 1);
        let n = d.len() as int;
        someone_outside(tree, n);
        next_is_outside(d, tree, n);
        let x = next_point(d, tree, n)->0;
        let more = grown(d, k);
        assert(more == tree.push(x));
        nearest_exists(d, tree, x, tree.len() as int);
        let edges = tree_edges(d, k);
        assert(edges == tree_edges(d, k - 1).push((anchor(d, tree, x), x)));
        assert forall|i: int, j: int| 0 <= i < j <= k implies more[i] != more[j] by {
            if j == k {
                assert(tree.contains(tree[i]));
            }
        }
        assert forall|i: int| 0 <= i < k implies (#[trigger] edges[i]).1 == more[i + 1]
            && more.take(i + 1).contains(edges[i].0) by {
            if i < k - 1 {
                assert(edges[i] == tree_edges(d, k - 1)[i]);
                assert(more.take(i + 1) =~= tree.take(i + 1));
            } else {
                let p = nearest_in(d, tree, x, tree.len() as int);
                assert(more.take(k)[p] == anchor(d, tree, x));
            }
        }
    }
}

/// Every point is in the grown tree.
pub proof fn every_point_is_in(d: Seq<Seq<Real>>, x: int)
    requires
        0 <= x < d.len(),
    ensures
        grown(d, d.len() - 1).contains(x),
{
    let n = d.len() as int;
    tree_grows(d, n - 1);
    let tree = grown(d, n - 1);
    if !tree.contains(x) {
        let more = tree.push(x);
        assert forall|i: int, j: int| 0 <= i < j < more.len() implies more[i] != more[j] by {
            if j == n {
                assert(tree.contains(tree[i]));
            }
        }
        at_most(more, n);
    }
}

/// All points are joined: every point is the first one or the end of a connection.
pub proof fn all_points_are_joined(d: Seq<Seq<Real>>, x: int)
    requires
        0 <= x < d.len(),
    ensures
        spanning_tree(d).len() == d.len() - 1,
        x == 0 || exists|i: int|
            0 <= i < spanning_tree(d).len() && (#[trigger] spanning_tree(d)[i]).1 == x,
{
    let n = d.len() as int;
    tree_grows(d, n - 1);
    let tree = grown(d, n - 1);
    every_point_is_in(d, x);
    let p = choose|p: int| 0 <= p < tree.len() && tree[p] == x;
    if p > 0 {
        assert(spanning_tree(d)[p - 1].1 == x);
    } else {
        first_is_zero(d, n - 1);
    }
}

proof fn first_is_zero(d: Seq<Seq<Real>>, k: int)
    ensures
        grown(d, k).len() >= 1,
        grown(d, k)[0] == 0,
    decreases k,
{
    if k > 0 {
        first_is_zero(d, k - 1);
    }
}

/// There are at most `n` distinct numbers below `n`.
proof fn at_most(s: Seq<int>, n: int)
    requires
        0 <= n,
        forall|i: int| 0 <= i < s.len() ==> 0 <= #[trigger] s[i] < n,
        forall|i: int, j: int| 0 <= i < j < s.len() ==> s[i] != s[j],
    ensures
        s.len() <= n,
    decreases n,
{
    if s.len() > 0 && n > 0 {
        let m = s.len() - 1;
        let last = s[m];
        let rest = Seq::new(
            m as nat,
            |i: int|
                if s[i] == n - 1 {
                    last
                } else {
                    s[i]
                },
        );
        assert forall|i: int| 0 <= i < rest.len() implies 0 <= #[trigger] rest[i] < n - 1 by {
            assert(s[i] != s[m]);
        }
        assert forall|i: int, j: int| 0 <= i < j < rest.len() implies rest[i] != rest[j] by {
            assert(s[i] != s[j]);
            assert(s[i] != s[m]);
            assert(s[j] != s[m]);
        }
        at_most(rest, n - 1);
    } else if s.len() > 0 {
        assert(0 <= s[0] < n);
    }
}

/// Each connection is a shortest one: where all distances are numbers, no point of the tree is
/// nearer to any point outside than the two that are connected next.
pub proof fn connections_are_shortest(d: Seq<Seq<Real>>, k: int, a: int, y: int)
    requires
        is_table(d),
        1 <= k < d.len(),
        0 <= a < k,
        0 <= y < d.len(),
        !grown(d, k - 1).contains(y),
        forall|i: int, j: int|
            0 <= i < d.len() && 0 <= j < d.len() ==> !no_number(#[trigger] d[i][j]),
    ensures
        !below(
            d[grown(d, k - 1)[a]][y],
            d[tree_edges(d, k)[k - 1].0][tree_edges(d, k)[k - 1].1],
        ),
{
    let tree = grown(d, k - 1);
    let n = d.len() as int;
    tree_grows(d, k - 1);
    tree_grows(d, k);
    next_is_outside(d, tree, n);
    assert forall|i: int| 0 <= i < n && !tree.contains(i) implies !no_number(
        #[trigger] gap(d, tree, i),
    ) by {
        nearest_exists(d, tree, i, tree.len() as int);
        let p = nearest_in(d, tree, i, tree.len() as int);
        assert(!no_number(d[tree[p]][i]));
    }
    next_is_least(d, tree, n, y);
    assert forall|i: int| 0 <= i < tree.len() implies !no_number(d[#[trigger] tree[i]][y]) by {
        assert(!no_number(d[tree[i]][y]));
    }
    nearest_is_least(d, tree, y, tree.len() as int, a);
    assert(!no_number(d[tree[a]][y]));
    assert(!no_number(gap(d, tree, y)));
}

/// The connections as mathematical integers.
pub open spec fn edges_as_ints(e: Seq<(usize, usize)>) -> Seq<(int, int)> {
    Seq::new(e.len(), |i: int| (e[i].0 as int, e[i].1 as int))
}

/// The connections of the spanning tree of the points with the given distances.
pub fn spanning_edges(d: &Vec<Vec<Real>>) -> (r: Vec<(usize, usize)>)
    requires
        is_table(d.deep_view()),
        d@.len() > 0,
    ensures
        edges_as_ints(r@) == spanning_tree(d.deep_view()),
        forall|i: int|
            0 <= i < r@.len() ==> (#[trigger] r@[i]).0 < d@.len() && r@[i].1 < d@.len(),
{
    let ghost dv = d.deep_view();
    let n: usize = d.len();
    let mut inside: Vec<bool> = Vec::new();
    let mut best: Vec<(Real, usize)> = Vec::new();
    let mut i: usize = 0;
    while i < n
        invariant
            n == d@.len(),
            n > 0,
            i <= n,
            dv == d.deep_view(),
            is_table(dv),
            inside@.len() == i,
            best@.len() == i,
            forall|j: int| 0 <= j < i ==> inside@[j] == (j == 0),
            forall|j: int| 0 <= j < i ==> (#[trigger] best@[j]) == (dv[0][j], 0usize),
        decreases n - i,
    {
        assert(dv[0].len() == n);
        assert(dv[0] =~= d@[0]@);
        inside.push(i == 0);
        best.push((d[0][i], 0));
        i += 1;
    }
    let mut out: Vec<(usize, usize)> = Vec::new();
    let ghost mut tree: Seq<int> = seq![0int];
    let mut k: usize = 1;
    assert(edges_as_ints(out@) =~= tree_edges(dv, 0));
    assert(tree =~= grown(dv, 0));
    assert forall|j: int| 0 <= j < n implies inside@[j] == tree.contains(j) by {
        assert(tree[0] == 0);
    }
    while k < n
        invariant
            n == d@.len(),
            1 <= k,
            k <= n,
            dv == d.deep_view(),
            dv.len() == n,
            is_table(dv),
            tree == grown(dv, k - 1),
            tree.len() == k,
            edges_as_ints(out@) == tree_edges(dv, k - 1),
            inside@.len() == n,
            best@.len() == n,
            forall|j: int| 0 <= j < n ==> inside@[j] == #[trigger] tree.contains(j),
            forall|j: int|
                0 <= j < n && !inside@[j] ==> (#[trigger] best@[j]).1 == anchor(dv, tree, j)
                    && best@[j].0 == gap(dv, tree, j) && best@[j].1 < n,
            forall|j: int|
                0 <= j < out@.len() ==> (#[trigger] out@[j]).0 < n && out@[j].1 < n,
        decreases n - k,
    {
        proof {
            tree_grows(dv, k - 1);
            tree_grows(dv, k as int);
            next_is_outside(dv, tree, n as int);
        }
        let mut next: Option<usize> = None;
        let mut i: usize = 0;
        while i < n
            invariant
                n == d@.len(),
                i <= n,
                inside@.len() == n,
                best@.len() == n,
                forall|j: int| 0 <= j < n ==> inside@[j] == #[trigger] tree.contains(j),
                forall|j: int|
                    0 <= j < n && !inside@[j] ==> (#[trigger] best@[j]).1 == anchor(dv, tree, j)
                        && best@[j].0 == gap(dv, tree, j),
                match next {
                    Some(x) => next_point(dv, tree, i as int) == Some(x as int) && x < i
                        && !inside@[x as int],
                    None => next_point(dv, tree, i as int) is None,
                },
            decreases n - i,
        {
            assert(inside@[i as int] == tree.contains(i as int));
            if !inside[i] {
                let closer: bool = match next {
                    Some(j) => best[i].0.less(&best[j].0),
                    None => true,
                };
                if closer {
                    next = Some(i);
                }
            }
            i += 1;
        }
        match next {
            Some(x) => {
                let from: usize = best[x].1;
                let ghost before = edges_as_ints(out@);
                let ghost old_tree = tree;
                inside.set(x, true);
                out.push((from, x));
                assert(edges_as_ints(out@) =~= before.push((from as int, x as int)));
                proof {
                    tree = old_tree.push(x as int);
                    assert(tree == grown(dv, k as int));
                    assert forall|j: int| 0 <= j < n implies inside@[j] == #[trigger] tree.contains(
                        j,
                    ) by {
                        if old_tree.contains(j) {
                            let p = choose|p: int| 0 <= p < old_tree.len() && old_tree[p] == j;
                            assert(tree[p] == j);
                        }
                        if j == x {
                            assert(tree[old_tree.len() as int] == x);
                        }
                    }
                }
                let mut i: usize = 0;
                while i < n
                    invariant
                        n == d@.len(),
                        dv == d.deep_view(),
                        dv.len() == n,
                        is_table(dv),
                        x < n,
                        i <= n,
                        inside@.len() == n,
                        best@.len() == n,
                        old_tree.len() >= 1,
                        tree == old_tree.push(x as int),
                        forall|j: int|
                            0 <= j < i && !inside@[j] ==> (#[trigger] best@[j]).1 == anchor(
                                dv,
                                tree,
                                j,
                            ) && best@[j].0 == gap(dv, tree, j) && best@[j].1 < n,
                        forall|j: int|
                            i <= j < n && !inside@[j] ==> (#[trigger] best@[j]).1 == anchor(
                                dv,
                                old_tree,
                                j,
                            ) && best@[j].0 == gap(dv, old_tree, j) && best@[j].1 < n,
                    decreases n - i,
                {
                    assert(dv[x as int] =~= d@[x as int]@);
                    assert(dv[x as int].len() == n);
                    if !inside[i] {
                        let far = d[x][i];
                        proof {
                            let l = old_tree.len() as int;
                            same_nearest(dv, old_tree, tree, i as int, l);
                            nearest_exists(dv, old_tree, i as int, l);
                            assert(tree[l] == x);
                        }
                        if far.less(&best[i].0) {
                            best.set(i, (far, x));
                        }
                    }
                    i += 1;
                }
            },
            None => {},
        }
        k += 1;
    }
    out
}

proof fn same_nearest(d: Seq<Seq<Real>>, tree: Seq<int>, more: Seq<int>, x: int, k: int)
    requires
        0 <= k <= tree.len(),
        tree.len() <= more.len(),
        forall|i: int| 0 <= i < tree.len() ==> tree[i] == more[i],
    ensures
        nearest_in(d, tree, x, k) == nearest_in(d, more, x, k),
    decreases k,
{
    if k > 1 {
        same_nearest(d, tree, more, x, k - 1);
        nearest_exists(d, tree, x, k - 1);
    }
}

} // verus!
