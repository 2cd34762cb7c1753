//! Disjoint sets over `0..n`.
use vstd::prelude::*;

verus! {

/// A partition of `0..n`, with a representative for each set.
pub struct UnionFind {
    parent: Vec<usize>,
    roots: Ghost<Seq<int>>,
    height: Ghost<Seq<nat>>,
}

/// Every number is its own representative.
pub open spec fn singletons(n: nat) -> Seq<int> {
    Seq::new(n, |i: int| i)
}

/// The set of `a` joined to the set of `b`, which keeps its representative.
pub open spec fn join_sets(roots: Seq<int>, a: int, b: int) -> Seq<int> {
    Seq::new(
        roots.len(),
        |i: int|
            if roots[i] == roots[a] {
                roots[b]
            } else {
                roots[i]
            },
    )
}

/// The representatives after the pairs have been joined in order.
pub open spec fn joined_sets(n: nat, pairs: Seq<(int, int)>) -> Seq<int>
    decreases pairs.len(),
{
    if pairs.len() == 0 {
        singletons(n)
    } else {
        join_sets(joined_sets(n, pairs.drop_last()), pairs.last().0, pairs.last().1)
    }
}

impl View for UnionFind {
    type V = Seq<int>;

    /// The representative of each number.
    closed spec fn view(&self) -> Seq<int> {
        self.roots@
    }
}

impl UnionFind {
    /// The parents lead to the representatives.
    pub closed spec fn wf(&self) -> bool {
        let n = self.parent@.len();
        let r = self.roots@;
        let h = self.height@;
        &&& r.len() == n
        &&& h.len() == n
        &&& forall|i: int| 0 <= i < n ==> 0 <= #[trigger] r[i] < n
        &&& forall|i: int| 0 <= i < n ==> r[#[trigger] r[i]] == r[i]
        &&& forall|i: int| 0 <= i < n ==> (#[trigger] self.parent@[i]) < n
        &&& forall|i: int| 0 <= i < n ==> r[(#[trigger] self.parent@[i]) as int] == r[i]
        &&& forall|i: int| 0 <= i < n && (#[trigger] self.parent@[i]) == i ==> r[i] == i
        &&& forall|i: int|
            0 <= i < n && (#[trigger] self.parent@[i]) != i ==> h[self.parent@[i] as int] < h[i]
        &&& forall|i: int| 0 <= i < n && (#[trigger] r[i]) != i ==> h[r[i]] < h[i]
    }

    /// A representative is its own, and lies in range.
    pub proof fn roots_are_roots(&self)
        requires
            self.wf(),
        ensures
            forall|i: int| 0 <= i < self@.len() ==> 0 <= #[trigger] self@[i] < self@.len(),
            forall|i: int| 0 <= i < self@.len() ==> self@[#[trigger] self@[i]] == self@[i],
    {
    }

    /// The partition of `0..n` into single numbers.
    pub fn new(n: usize) -> (r: UnionFind)
        ensures
            r.wf(),
            r@ == singletons(n as nat),
    {
        let mut parent: Vec<usize> = Vec::new();
        let mut i: usize = 0;
        while i < n
            invariant
                i <= n,
                parent@.len() == i,
                forall|j: int| 0 <= j < i ==> parent@[j] == j,
            decreases n - i,
        {
            parent.push(i);
            i += 1;
        }
        UnionFind {
            parent,
            roots: Ghost(singletons(n as nat)),
            height: Ghost(Seq::new(n as nat, |i: int| 0nat)),
        }
    }

    /// The representative of `i`. The partition stays as it is.
    pub fn find(&mut self, i: usize) -> (r: usize)
        requires
            old(self).wf(),
            i < old(self)@.len(),
        ensures
            final(self).wf(),
            final(self)@ == old(self)@,
            r == old(self)@[i as int],
            r < old(self)@.len(),
    {
        self.climb(i)
    }

    fn climb(&mut self, i: usize) -> (r: usize)
        requires
            old(self).wf(),
            i < old(self)@.len(),
        ensures
            final(self).wf(),
            final(self).roots == old(self).roots,
            final(self).height == old(self).height,
            final(self).parent@.len() == old(self).parent@.len(),
            r == old(self)@[i as int],
            r < old(self)@.len(),
        decreases old(self).height@[i as int],
    {
        let p: usize = self.parent[i];
        if p != i {
            let root: usize = self.climb(p);
            assert(self.roots@[i as int] == root);
            assert(self.roots@[root as int] == root);
            self.parent.set(i, root);
            root
        } else {
            i
        }
    }

    /// Joins the set of `a` to the set of `b`.
    pub fn union(&mut self, a: usize, b: usize)
        requires
            old(self).wf(),
            a < old(self)@.len(),
            b < old(self)@.len(),
        ensures
            final(self).wf(),
            final(self)@ == join_sets(old(self)@, a as int, b as int),
    {
        let ra: usize = self.climb(a);
        let rb: usize = self.climb(b);
        let ghost r = self.roots@;
        let ghost h = self.height@;
        if ra != rb {
            self.parent.set(ra, rb);
            proof {
                self.roots@ = join_sets(r, a as int, b as int);
                self.height@ = Seq::new(
                    h.len(),
                    |i: int|
                        if r[i] == ra {
                            h[i] + h[rb as int] + 1
                        } else {
                            h[i]
                        },
                );
            }
            assert(r[ra as int] == ra);
            assert(r[rb as int] == rb);
        } else {
            assert(self.roots@ =~= join_sets(r, a as int, b as int));
        }
    }
}

/// Some pair names `x` and `y`, in either order.
pub open spec fn paired(pairs: Seq<(int, int)>, x: int, y: int) -> bool {
    exists|i: int| 0 <= i < pairs.len() && (pairs[i] == (x, y) || pairs[i] == (y, x))
}

/// Each two neighbours in the sequence are a pair.
pub open spec fn is_walk(pairs: Seq<(int, int)>, w: Seq<int>) -> bool {
    w.len() > 0 && forall|i: int| 0 <= i < w.len() - 1 ==> paired(pairs, w[i], #[trigger] w[i + 1])
}

/// A walk along pairs leads from `a` to `b`.
pub open spec fn reaches(pairs: Seq<(int, int)>, a: int, b: int) -> bool {
    exists|w: Seq<int>| #[trigger] is_walk(pairs, w) && w[0] == a && w.last() == b
}

/// Every number reaches itself.
pub proof fn reaches_itself(pairs: Seq<(int, int)>, a: int)
    ensures
        reaches(pairs, a, a),
{
    assert(is_walk(pairs, seq![a]));
}

/// What is reached reaches back.
pub proof fn reaches_back(pairs: Seq<(int, int)>, a: int, b: int)
    requires
        reaches(pairs, a, b),
    ensures
        reaches(pairs, b, a),
{
    let w = choose|w: Seq<int>| #[trigger] is_walk(pairs, w) && w[0] == a && w.last() == b;
    let v = Seq::new(w.len(), |i: int| w[w.len() - 1 - i]);
    assert forall|i: int| 0 <= i < v.len() - 1 implies paired(pairs, v[i], #[trigger] v[i + 1]) by {
        let k = w.len() - 2 - i;
        assert(paired(pairs, w[k], w[k + 1]));
    }
    assert(is_walk(pairs, v));
}

/// What is reached from what is reached is reached.
pub proof fn reaches_on(pairs: Seq<(int, int)>, a: int, b: int, c: int)
    requires
        reaches(pairs, a, b),
        reaches(pairs, b, c),
    ensures
        reaches(pairs, a, c),
{
    let w = choose|w: Seq<int>| #[trigger] is_walk(pairs, w) && w[0] == a && w.last() == b;
    let v = choose|v: Seq<int>| #[trigger] is_walk(pairs, v) && v[0] == b && v.last() == c;
    let u = w + v.drop_first();
    assert forall|i: int| 0 <= i < u.len() - 1 implies paired(pairs, u[i], #[trigger] u[i + 1]) by {
        if i < w.len() - 1 {
            assert(paired(pairs, w[i], w[i + 1]));
        } else {
            let k = i - (w.len() - 1);
            assert(paired(pairs, v[k], v[k + 1]));
        }
    }
    assert(is_walk(pairs, u));
    assert(u.last() == c);
}

proof fn reaches_with_more(pairs: Seq<(int, int)>, a: int, b: int)
    requires
        pairs.len() > 0,
        reaches(pairs.drop_last(), a, b),
    ensures
        reaches(pairs, a, b),
{
    let front = pairs.drop_last();
    let w = choose|w: Seq<int>| #[trigger] is_walk(front, w) && w[0] == a && w.last() == b;
    assert forall|i: int| 0 <= i < w.len() - 1 implies paired(pairs, w[i], #[trigger] w[i + 1]) by {
        assert(paired(front, w[i], w[i + 1]));
        let k = choose|k: int|
            0 <= k < front.len() && (front[k] == (w[i], w[i + 1]) || front[k] == (w[i + 1], w[i]));
        assert(pairs[k] == front[k]);
    }
    assert(is_walk(pairs, w));
}

/// All pairs name numbers below `n`.
pub open spec fn pairs_within(n: nat, pairs: Seq<(int, int)>) -> bool {
    forall|i: int|
        0 <= i < pairs.len() ==> 0 <= (#[trigger] pairs[i]).0 < n && 0 <= pairs[i].1 < n
}

proof fn same_root_means_reached(n: nat, pairs: Seq<(int, int)>, a: int, b: int)
    requires
        pairs_within(n, pairs),
        0 <= a < n,
        0 <= b < n,
        joined_sets(n, pairs)[a] == joined_sets(n, pairs)[b],
    ensures
        reaches(pairs, a, b),
    decreases pairs.len(),
{
    joined_sets_sized(n, pairs);
    if pairs.len() == 0 {
        reaches_itself(pairs, a);
    } else {
        let front = pairs.drop_last();
        assert(pairs_within(n, front)) by {
            assert forall|i: int| 0 <= i < front.len() implies 0 <= (#[trigger] front[i]).0 < n
                && 0 <= front[i].1 < n by {
                assert(front[i] == pairs[i]);
            }
        }
        joined_sets_sized(n, front);
        let r = joined_sets(n, front);
        let (x, y) = pairs.last();
        assert(pairs[pairs.len() - 1] == (x, y));
        assert(0 <= x < n && 0 <= y < n);
        assert(paired(pairs, x, y));
        assert(is_walk(pairs, seq![x, y]));
        assert(seq![x, y].last() == y);
        assert(reaches(pairs, x, y));
        reaches_back(pairs, x, y);
        if r[a] == r[b] {
            same_root_means_reached(n, front, a, b);
            reaches_with_more(pairs, a, b);
        } else if r[a] == r[x] {
            same_root_means_reached(n, front, a, x);
            reaches_with_more(pairs, a, x);
            same_root_means_reached(n, front, y, b);
            reaches_with_more(pairs, y, b);
            reaches_on(pairs, a, x, y);
            reaches_on(pairs, a, y, b);
        } else {
            same_root_means_reached(n, front, x, b);
            reaches_with_more(pairs, x, b);
            same_root_means_reached(n, front, a, y);
            reaches_with_more(pairs, a, y);
            reaches_on(pairs, a, y, x);
            reaches_on(pairs, a, x, b);
        }
    }
}

/// Joining sets keeps the number of items.
pub proof fn joined_sets_sized(n: nat, pairs: Seq<(int, int)>)
    ensures
        joined_sets(n, pairs).len() == n,
    decreases pairs.len(),
{
    if pairs.len() > 0 {
        joined_sets_sized(n, pairs.drop_last());
    }
}

proof fn pairs_share_roots(n: nat, pairs: Seq<(int, int)>, x: int, y: int)
    requires
        pairs_within(n, pairs),
        paired(pairs, x, y),
    ensures
        joined_sets(n, pairs)[x] == joined_sets(n, pairs)[y],
    decreases pairs.len(),
{
    let front = pairs.drop_last();
    assert(pairs_within(n, front)) by {
        assert forall|i: int| 0 <= i < front.len() implies 0 <= (#[trigger] front[i]).0 < n && 0
            <= front[i].1 < n by {
            assert(front[i] == pairs[i]);
        }
    }
    joined_sets_sized(n, front);
    let k = choose|k: int| 0 <= k < pairs.len() && (pairs[k] == (x, y) || pairs[k] == (y, x));
    assert(0 <= pairs[k].0 < n && 0 <= pairs[k].1 < n);
    if k < front.len() {
        assert(front[k] == pairs[k]);
        assert(paired(front, x, y));
        pairs_share_roots(n, front, x, y);
    }
}

proof fn walks_share_roots(n: nat, pairs: Seq<(int, int)>, w: Seq<int>)
    requires
        pairs_within(n, pairs),
        is_walk(pairs, w),
    ensures
        joined_sets(n, pairs)[w[0]] == joined_sets(n, pairs)[w.last()],
    decreases w.len(),
{
    if w.len() > 1 {
        let v = w.drop_last();
        assert forall|i: int| 0 <= i < v.len() - 1 implies paired(
            pairs,
            v[i],
            #[trigger] v[i + 1],
        ) by {
            assert(paired(pairs, w[i], w[i + 1]));
        }
        walks_share_roots(n, pairs, v);
        assert(paired(pairs, w[w.len() - 2], w[w.len() - 2 + 1]));
        pairs_share_roots(n, pairs, w[w.len() - 2], w[w.len() - 1]);
    }
}

/// Two numbers have the same representative if and only if a walk along the joined pairs leads
/// from one to the other.
pub proof fn sets_are_connected_parts(n: nat, pairs: Seq<(int, int)>, a: int, b: int)
    requires
        pairs_within(n, pairs),
        0 <= a < n,
        0 <= b < n,
    ensures
        joined_sets(n, pairs)[a] == joined_sets(n, pairs)[b] <==> reaches(pairs, a, b),
{
    if joined_sets(n, pairs)[a] == joined_sets(n, pairs)[b] {
        same_root_means_reached(n, pairs, a, b);
    }
    if reaches(pairs, a, b) {
        let w = choose|w: Seq<int>| #[trigger] is_walk(pairs, w) && w[0] == a && w.last() == b;
        walks_share_roots(n, pairs, w);
    }
}

/// Where every pair stands among other pairs under other numbers, every walk does too.
pub proof fn walks_carry_over(
    pairs: Seq<(int, int)>,
    others: Seq<(int, int)>,
    to: spec_fn(int) -> int,
    a: int,
    b: int,
)
    requires
        forall|k: int|
            0 <= k < pairs.len() ==> paired(others, to((#[trigger] pairs[k]).0), to(pairs[k].1)),
        reaches(pairs, a, b),
    ensures
        reaches(others, to(a), to(b)),
{
    let w = choose|w: Seq<int>| #[trigger] is_walk(pairs, w) && w[0] == a && w.last() == b;
    let v = Seq::new(w.len(), |i: int| to(w[i]));
    assert forall|i: int| 0 <= i < v.len() - 1 implies paired(others, v[i], #[trigger] v[i + 1]) by {
        assert(paired(pairs, w[i], w[i + 1]));
        let k = choose|k: int|
            0 <= k < pairs.len() && (pairs[k] == (w[i], w[i + 1]) || pairs[k] == (w[i + 1], w[i]));
        assert(paired(others, to(pairs[k].0), to(pairs[k].1)));
    }
    assert(is_walk(others, v));
}

} // verus!
