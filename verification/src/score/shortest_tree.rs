//! No connections that join all points are shorter than the spanning tree.
use vstd::prelude::*;

use crate::number::{below, no_number, Real};
use crate::score::spanning::{
    connections_are_shortest, every_point_is_in, grown, is_table, spanning_tree, tree_edges,
    tree_grows,
};
use crate::union_find::{
    is_walk, paired, pairs_within, reaches, reaches_back, reaches_itself, reaches_on,
};

verus! {

/// The length of a connection.
pub open spec fn length_of(d: Seq<Seq<Real>>, e: (int, int)) -> Real {
    d[e.0][e.1]
}

/// The distances are numbers, and the same both ways.
pub open spec fn are_distances(d: Seq<Seq<Real>>) -> bool {
    &&& is_table(d)
    &&& forall|i: int, j: int|
        0 <= i < d.len() && 0 <= j < d.len() ==> !no_number(#[trigger] d[i][j]) && d[i][j]
            == d[j][i]
}

/// The connections join all of `n` points.
pub open spec fn joins_all(n: nat, edges: Seq<(int, int)>) -> bool {
    &&& pairs_within(n, edges)
    &&& forall|x: int, y: int|
        0 <= x < n && 0 <= y < n ==> #[trigger] reaches(edges, x, y)
}

/// Different places below `n`.
pub open spec fn are_places(to: Seq<int>, n: nat) -> bool {
    &&& forall|i: int| 0 <= i < to.len() ==> 0 <= #[trigger] to[i] < n
    &&& forall|i: int, j: int| 0 <= i < j < to.len() ==> to[i] != to[j]
}

proof fn first_edges(d: Seq<Seq<Real>>, k: int, n: int)
    requires
        0 <= k <= n < d.len(),
    ensures
        tree_edges(d, n).take(k) == tree_edges(d, k),
        grown(d, n).take(k + 1) == grown(d, k),
    decreases n,
{
    tree_grows(d, n);
    if k < n {
        first_edges(d, k, n - 1);
        tree_grows(d, n - 1);
        assert(tree_edges(d, n).take(k) =~= tree_edges(d, n - 1).take(k));
        assert(grown(d, n).take(k + 1) =~= grown(d, n - 1).take(k + 1));
    } else {
        assert(tree_edges(d, n).take(k) =~= tree_edges(d, k));
        assert(grown(d, n).take(k + 1) =~= grown(d, k));
    }
}

proof fn paired_reach(pairs: Seq<(int, int)>, x: int, y: int)
    requires
        paired(pairs, x, y),
    ensures
        reaches(pairs, x, y),
{
    let w = seq![x, y];
    assert forall|i: int| 0 <= i < w.len() - 1 implies paired(pairs, w[i], #[trigger] w[i + 1]) by {
        assert(i == 0);
    }
    assert(is_walk(pairs, w));
    assert(w[0] == x && w.last() == y);
}

/// Where every connection is a way among other connections, every walk is.
proof fn walks_follow(pairs: Seq<(int, int)>, others: Seq<(int, int)>, w: Seq<int>)
    requires
        is_walk(pairs, w),
        forall|i: int|
            0 <= i < pairs.len() ==> reaches(others, (#[trigger] pairs[i]).0, pairs[i].1),
    ensures
        reaches(others, w[0], w.last()),
    decreases w.len(),
{
    if w.len() == 1 {
        reaches_itself(others, w[0]);
    } else {
        let front = w.drop_last();
        let n = w.len() as int;
        assert forall|i: int| 0 <= i < front.len() - 1 implies paired(
            pairs,
            front[i],
            #[trigger] front[i + 1],
        ) by {
            assert(paired(pairs, w[i], w[i + 1]));
        }
        assert(is_walk(pairs, front));
        walks_follow(pairs, others, front);
        assert(paired(pairs, w[n - 2], w[n - 2 + 1]));
        let k = choose|k: int|
            0 <= k < pairs.len() && (pairs[k] == (w[n - 2], w[n - 1]) || pairs[k] == (
                w[n - 1],
                w[n - 2],
            ));
        assert(reaches(others, pairs[k].0, pairs[k].1));
        if pairs[k] == (w[n - 1], w[n - 2]) {
            reaches_back(others, w[n - 1], w[n - 2]);
        }
        reaches_on(others, w[0], w[n - 2], w[n - 1]);
    }
}

/// The points of the tree reach each other along its connections.
proof fn tree_holds_together(d: Seq<Seq<Real>>, k: int, x: int)
    requires
        0 <= k < d.len(),
        grown(d, k).contains(x),
    ensures
        reaches(tree_edges(d, k), 0, x),
    decreases k,
{
    tree_grows(d, k);
    let tree = grown(d, k);
    let edges = tree_edges(d, k);
    let p = choose|p: int| 0 <= p < tree.len() && tree[p] == x;
    if k == 0 {
        reaches_itself(edges, 0);
    } else {
        first_edges(d, k - 1, k);
        tree_grows(d, k - 1);
        let before = grown(d, k - 1);
        let front = tree_edges(d, k - 1);
        let y = if p < k {
            x
        } else {
            edges[k - 1].0
        };
        assert(before.contains(y)) by {
            if p < k {
                assert(before[p] == tree.take(k)[p]);
            } else {
                assert(tree.take(k - 1 + 1).contains(edges[k - 1].0));
            }
        }
        tree_holds_together(d, k - 1, y);
        let w = choose|w: Seq<int>| #[trigger] is_walk(front, w) && w[0] == 0 && w.last() == y;
        assert forall|i: int| 0 <= i < front.len() implies reaches(
            edges,
            (#[trigger] front[i]).0,
            front[i].1,
        ) by {
            assert(edges.take(k - 1)[i] == front[i]);
            assert(edges[i] == front[i]);
            assert(paired(edges, front[i].0, front[i].1));
            paired_reach(edges, front[i].0, front[i].1);
        }
        walks_follow(front, edges, w);
        if p >= k {
            assert(edges[k - 1] == (y, x));
            assert(paired(edges, y, x));
            paired_reach(edges, y, x);
            reaches_on(edges, 0, y, x);
        }
    }
}

/// The connections with the one at `j` given up for another, which comes to stand at `k`.
spec fn exchanged(edges: Seq<(int, int)>, e: (int, int), j: int, k: int) -> Seq<(int, int)> {
    edges.update(j, edges[k]).update(k, e)
}

/// Giving up a connection that leaves the tree for the next one of the tree keeps all joined.
proof fn exchange_joins(
    d: Seq<Seq<Real>>,
    edges: Seq<(int, int)>,
    k: int,
    j: int,
    w: Seq<int>,
    p: int,
)
    requires
        0 <= k < d.len() - 1,
        joins_all(d.len(), edges),
        k <= j < edges.len(),
        edges.take(k) == tree_edges(d, k),
        is_walk(edges, w),
        0 <= p < w.len() - 1,
        w.last() == spanning_tree(d)[k].1,
        grown(d, k).contains(w[p]),
        forall|q: int| p < q < w.len() ==> !grown(d, k).contains(#[trigger] w[q]),
        edges[j] == (w[p], w[p + 1]) || edges[j] == (w[p + 1], w[p]),
        grown(d, k).contains(spanning_tree(d)[k].0),
        pairs_within(d.len(), spanning_tree(d)),
    ensures
        joins_all(d.len(), exchanged(edges, spanning_tree(d)[k], j, k)),
{
    let e = spanning_tree(d)[k];
    tree_grows(d, d.len() - 1);
    let new = exchanged(edges, e, j, k);
    let tree = grown(d, k);
    let front = tree_edges(d, k);
    let u = w[p];
    let v = w[p + 1];
    // Along the tree from the point that is left to the one that the next connection leaves.
    assert forall|i: int| 0 <= i < front.len() implies reaches(
        new,
        (#[trigger] front[i]).0,
        front[i].1,
    ) by {
        assert(edges.take(k)[i] == front[i]);
        assert(new[i] == front[i]);
        assert(paired(new, front[i].0, front[i].1));
        paired_reach(new, front[i].0, front[i].1);
    }
    assert(front.len() == k) by {
        tree_grows(d, k);
    }
    tree_holds_together(d, k, u);
    tree_holds_together(d, k, e.0);
    let a = choose|a: Seq<int>| #[trigger] is_walk(front, a) && a[0] == 0 && a.last() == u;
    walks_follow(front, new, a);
    let b = choose|b: Seq<int>| #[trigger] is_walk(front, b) && b[0] == 0 && b.last() == e.0;
    walks_follow(front, new, b);
    reaches_back(new, 0, u);
    reaches_on(new, u, 0, e.0);
    // Along the next connection.
    assert(new[k] == e);
    assert(paired(new, e.0, e.1));
    paired_reach(new, e.0, e.1);
    reaches_on(new, u, e.0, e.1);
    // Back along the walk, outside the tree.
    let rest = w.skip(p + 1);
    assert forall|i: int| 0 <= i < rest.len() - 1 implies paired(
        new,
        rest[i],
        #[trigger] rest[i + 1],
    ) by {
        let q = p + 1 + i;
        assert(paired(edges, w[q], w[q + 1]));
        let m = choose|m: int|
            0 <= m < edges.len() && (edges[m] == (w[q], w[q + 1]) || edges[m] == (w[q + 1], w[q]));
        assert(!tree.contains(w[q]) && !tree.contains(w[q + 1]));
        assert(m != j);
        if m == k {
            assert(new[j] == edges[k]);
        } else {
            assert(new[m] == edges[m]);
        }
    }
    assert(is_walk(new, rest));
    assert(rest[0] == v && rest.last() == e.1);
    reaches_back(new, v, e.1);
    reaches_on(new, u, e.1, v);
    reaches_back(new, u, v);
    assert forall|i: int| 0 <= i < edges.len() implies reaches(
        new,
        (#[trigger] edges[i]).0,
        edges[i].1,
    ) by {
        if i != j {
            if i == k {
                assert(new[j] == edges[i]);
            } else {
                assert(new[i] == edges[i]);
            }
            assert(paired(new, edges[i].0, edges[i].1));
            paired_reach(new, edges[i].0, edges[i].1);
        }
    }
    assert forall|x: int, y: int| 0 <= x < d.len() && 0 <= y < d.len() implies #[trigger] reaches(
        new,
        x,
        y,
    ) by {
        assert(reaches(edges, x, y));
        let s = choose|s: Seq<int>| #[trigger] is_walk(edges, s) && s[0] == x && s.last() == y;
        walks_follow(edges, new, s);
    }
    assert forall|i: int| 0 <= i < new.len() implies 0 <= (#[trigger] new[i]).0 < d.len() && 0
        <= new[i].1 < d.len() by {
        if i == k {
            assert(new[i] == e);
        } else if i == j {
            assert(new[i] == edges[k]);
        } else {
            assert(new[i] == edges[i]);
        }
    }
}

/// A walk that begins in a set and ends outside leaves it for good somewhere.
proof fn last_exit(tree: Seq<int>, w: Seq<int>, from: int) -> (p: int)
    requires
        0 <= from < w.len() - 1,
        tree.contains(w[from]),
        !tree.contains(w.last()),
    ensures
        from <= p < w.len() - 1,
        tree.contains(w[p]),
        forall|q: int| p < q < w.len() ==> !tree.contains(#[trigger] w[q]),
    decreases w.len() - from,
{
    if exists|q: int| from < q < w.len() && tree.contains(#[trigger] w[q]) {
        let q = choose|q: int| from < q < w.len() && tree.contains(#[trigger] w[q]);
        last_exit(tree, w, q)
    } else {
        from
    }
}

/// The tree after `k` steps, continued by connections that all join all points and that are no
/// longer, place by place, than given ones.
spec fn continues(
    d: Seq<Seq<Real>>,
    other: Seq<(int, int)>,
    k: int,
    edges: Seq<(int, int)>,
    to: Seq<int>,
) -> bool {
    &&& edges.len() == other.len()
    &&& to.len() == other.len()
    &&& joins_all(d.len(), edges)
    &&& are_places(to, other.len())
    &&& k <= edges.len()
    &&& edges.take(k) == tree_edges(d, k)
    &&& forall|i: int|
        0 <= i < edges.len() ==> !below(
            length_of(d, other[#[trigger] to[i]]),
            length_of(d, edges[i]),
        )
}

proof fn tree_is_within(d: Seq<Seq<Real>>)
    requires
        d.len() > 0,
    ensures
        pairs_within(d.len(), spanning_tree(d)),
        spanning_tree(d).len() == d.len() - 1,
{
    let n = d.len() - 1;
    tree_grows(d, n);
    let tree = grown(d, n);
    let edges = spanning_tree(d);
    assert forall|i: int| 0 <= i < edges.len() implies 0 <= (#[trigger] edges[i]).0 < d.len() && 0
        <= edges[i].1 < d.len() by {
        assert(tree.take(i + 1).contains(edges[i].0));
        let some = tree.take(i + 1);
        let q = choose|q: int| 0 <= q < some.len() && some[q] == edges[i].0;
        assert(tree[q] == edges[i].0);
        assert(edges[i].1 == tree[i + 1]);
    }
}

proof fn one_more_step(
    d: Seq<Seq<Real>>,
    other: Seq<(int, int)>,
    k: int,
    edges: Seq<(int, int)>,
    to: Seq<int>,
) -> (r: (Seq<(int, int)>, Seq<int>))
    requires
        are_distances(d),
        0 <= k < d.len() - 1,
        pairs_within(d.len(), other),
        continues(d, other, k, edges, to),
    ensures
        continues(d, other, k + 1, r.0, r.1),
{
    let n = d.len() as int;
    tree_is_within(d);
    tree_grows(d, k);
    tree_grows(d, k + 1);
    tree_grows(d, n - 1);
    first_edges(d, k + 1, n - 1);
    first_edges(d, k, k + 1);
    let tree = grown(d, k);
    let e = spanning_tree(d)[k];
    assert(spanning_tree(d).take(k + 1)[k] == e);
    assert(tree_edges(d, k + 1)[k] == e);
    assert(grown(d, k + 1).take(k + 1) == tree);
    assert(tree.contains(e.0));
    assert(grown(d, k + 1)[k + 1] == e.1);
    assert(!tree.contains(e.1)) by {
        if tree.contains(e.1) {
            let q = choose|q: int| 0 <= q < tree.len() && tree[q] == e.1;
            assert(grown(d, k + 1).take(k + 1)[q] == e.1);
            assert(grown(d, k + 1)[q] != grown(d, k + 1)[k + 1]);
        }
    }
    assert(0 <= e.0 < n && 0 <= e.1 < n);
    assert(reaches(edges, e.0, e.1));
    let w = choose|w: Seq<int>| #[trigger] is_walk(edges, w) && w[0] == e.0 && w.last() == e.1;
    assert(w.len() > 1);
    let p = last_exit(tree, w, 0);
    assert(paired(edges, w[p], w[p + 1]));
    let j = choose|j: int|
        0 <= j < edges.len() && (edges[j] == (w[p], w[p + 1]) || edges[j] == (w[p + 1], w[p]));
    assert(!tree.contains(w[p + 1]));
    assert(j >= k) by {
        if j < k {
            assert(edges.take(k)[j] == edges[j]);
            let own = tree_edges(d, k)[j];
            assert(own.1 == tree[j + 1]);
            assert(tree.take(j + 1).contains(own.0));
            let some = tree.take(j + 1);
            let q = choose|q: int| 0 <= q < some.len() && some[q] == own.0;
            assert(tree[q] == own.0);
            assert(tree.contains(own.0) && tree.contains(own.1));
        }
    }
    exchange_joins(d, edges, k, j, w, p);
    let new = exchanged(edges, e, j, k);
    let at = to.update(j, to[k]).update(k, to[j]);
    let s = choose|s: int| 0 <= s < tree.len() && tree[s] == w[p];
    assert(0 <= w[p] < n && 0 <= w[p + 1] < n) by {
        assert(0 <= edges[j].0 < n && 0 <= edges[j].1 < n);
    }
    connections_are_shortest(d, k + 1, s, w[p + 1]);
    assert(d[w[p]][w[p + 1]] == d[w[p + 1]][w[p]]);
    assert(!below(length_of(d, edges[j]), length_of(d, e)));
    assert(!below(length_of(d, other[at[k]]), length_of(d, e))) by {
        assert(!below(length_of(d, other[to[j]]), length_of(d, edges[j])));
        let o = other[to[j]];
        assert(0 <= o.0 < n && 0 <= o.1 < n);
        assert(!no_number(d[o.0][o.1]));
        assert(!no_number(d[w[p]][w[p + 1]]));
        assert(!no_number(d[e.0][e.1]));
    }
    assert forall|i: int| 0 <= i < new.len() implies !below(
        length_of(d, other[#[trigger] at[i]]),
        length_of(d, new[i]),
    ) by {
        if i == k {
        } else if i == j {
            assert(at[i] == to[k]);
            assert(new[i] == edges[k]);
            assert(!below(length_of(d, other[to[k]]), length_of(d, edges[k])));
        } else {
            assert(at[i] == to[i]);
            assert(new[i] == edges[i]);
        }
    }
    assert(are_places(at, other.len())) by {
        assert forall|i: int, m: int| 0 <= i < m < at.len() implies at[i] != at[m] by {
            let x = if i == k {
                j
            } else if i == j {
                k
            } else {
                i
            };
            let y = if m == k {
                j
            } else if m == j {
                k
            } else {
                m
            };
            assert(at[i] == to[x] && at[m] == to[y] && x != y);
            if x < y {
                assert(to[x] != to[y]);
            } else {
                assert(to[y] != to[x]);
            }
        }
    }
    let taken = new.take(k + 1);
    let more = tree_edges(d, k + 1);
    assert forall|i: int| 0 <= i < k + 1 implies taken[i] == more[i] by {
        if i < k {
            assert(edges.take(k)[i] == edges[i]);
            assert(more.take(k)[i] == tree_edges(d, k)[i]);
        }
    }
    assert(taken =~= more);
    (new, at)
}

proof fn steps_continue(d: Seq<Seq<Real>>, other: Seq<(int, int)>, k: int) -> (r: (
    Seq<(int, int)>,
    Seq<int>,
))
    requires
        are_distances(d),
        0 <= k < d.len(),
        joins_all(d.len(), other),
    ensures
        continues(d, other, k, r.0, r.1),
    decreases k,
{
    if k == 0 {
        let to = Seq::new(other.len(), |i: int| i);
        assert(other.take(0) =~= tree_edges(d, 0));
        (other, to)
    } else {
        let (edges, to) = steps_continue(d, other, k - 1);
        one_more_step(d, other, k - 1, edges, to)
    }
}

/// The connections of the spanning tree join all points.
pub proof fn the_tree_joins_all(d: Seq<Seq<Real>>)
    requires
        d.len() > 0,
    ensures
        joins_all(d.len(), spanning_tree(d)),
{
    let n = d.len() - 1;
    let edges = spanning_tree(d);
    tree_is_within(d);
    assert forall|x: int, y: int| 0 <= x < d.len() && 0 <= y < d.len() implies #[trigger] reaches(
        edges,
        x,
        y,
    ) by {
        every_point_is_in(d, x);
        every_point_is_in(d, y);
        tree_holds_together(d, n, x);
        tree_holds_together(d, n, y);
        reaches_back(edges, 0, x);
        reaches_on(edges, x, 0, y);
    }
}

/// No connections that join all points are shorter than the spanning tree, connection by
/// connection: each connection of the tree has one of its own among them that is no shorter.
/// Where they are a tree too, the two sides pair off.
pub proof fn no_connections_are_shorter(d: Seq<Seq<Real>>, other: Seq<(int, int)>)
    requires
        d.len() > 0,
        are_distances(d),
        joins_all(d.len(), other),
    ensures
        exists|to: Seq<int>| #[trigger]
            are_places(to, other.len()) && to.len() == spanning_tree(d).len() && forall|i: int|
                0 <= i < to.len() ==> !below(
                    length_of(d, other[#[trigger] to[i]]),
                    length_of(d, spanning_tree(d)[i]),
                ),
{
    let n = d.len() - 1;
    tree_is_within(d);
    let (edges, all) = steps_continue(d, other, n);
    let to = all.take(n);
    assert forall|i: int| 0 <= i < to.len() implies !below(
        length_of(d, other[#[trigger] to[i]]),
        length_of(d, spanning_tree(d)[i]),
    ) by {
        assert(to[i] == all[i]);
        assert(edges.take(n)[i] == edges[i]);
    }
    assert(are_places(to, other.len()));
}

} // verus!
