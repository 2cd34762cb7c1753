//! A stable sort, specified over the mathematical values of the items.
use vstd::prelude::*;

use crate::duplicate::Duplicate;
use crate::text::{lex_le, lex_total, lex_trans, text_le};

verus! {

/// Items with a total preorder on their values.
pub trait Ranked: DeepView {
    /// `a` may stand before `b`.
    spec fn ranks_le(a: Self::V, b: Self::V) -> bool;

    proof fn rank_total(a: Self::V, b: Self::V)
        ensures
            Self::ranks_le(a, b) || Self::ranks_le(b, a),
    ;

    proof fn rank_trans(a: Self::V, b: Self::V, c: Self::V)
        requires
            Self::ranks_le(a, b),
            Self::ranks_le(b, c),
        ensures
            Self::ranks_le(a, c),
    ;

    fn no_later(&self, other: &Self) -> (r: bool)
        ensures
            r == Self::ranks_le(self.deep_view(), other.deep_view()),
    ;
}

/// `k` placed behind every index of `s` whose item may stand before item `k`.
pub open spec fn insert_index<T: Ranked>(items: Seq<T::V>, s: Seq<int>, k: int) -> Seq<int>
    decreases s.len(),
{
    if s.len() == 0 || T::ranks_le(items[s.last()], items[k]) {
        s.push(k)
    } else {
        insert_index::<T>(items, s.drop_last(), k).push(s.last())
    }
}

/// The indices of the first `n` items in rank order.
pub open spec fn ranking_of_first<T: Ranked>(items: Seq<T::V>, n: nat) -> Seq<int>
    decreases n,
{
    if n == 0 {
        Seq::empty()
    } else {
        insert_index::<T>(items, ranking_of_first::<T>(items, (n - 1) as nat), n - 1)
    }
}

/// The indices of the items in rank order; items of equal rank keep their order.
pub open spec fn ranking<T: Ranked>(items: Seq<T::V>) -> Seq<int> {
    ranking_of_first::<T>(items, items.len())
}

/// The items that the indices `p` name.
pub open spec fn picked<A>(items: Seq<A>, p: Seq<int>) -> Seq<A> {
    Seq::new(p.len(), |i: int| items[p[i]])
}

/// The items in rank order; items of equal rank keep their order.
pub open spec fn sorted<T: Ranked>(items: Seq<T::V>) -> Seq<T::V> {
    picked(items, ranking::<T>(items))
}

/// `p` names each of `0..n` once.
pub open spec fn is_permutation(p: Seq<int>, n: nat) -> bool {
    &&& p.len() == n
    &&& p.no_duplicates()
    &&& forall|i: int| 0 <= i < p.len() ==> 0 <= (#[trigger] p[i]) < n
}

/// Item `a` goes before item `b`: by rank, and by index where the ranks agree.
pub open spec fn goes_before<T: Ranked>(items: Seq<T::V>, a: int, b: int) -> bool {
    T::ranks_le(items[a], items[b]) && (T::ranks_le(items[b], items[a]) ==> a < b)
}

/// The indices `p` stand in the order of `goes_before`.
pub open spec fn stably_ordered<T: Ranked>(items: Seq<T::V>, p: Seq<int>) -> bool {
    forall|i: int, j: int|
        0 <= i < j < p.len() ==> goes_before::<T>(items, #[trigger] p[i], #[trigger] p[j])
}

/// Inserting at the last place that keeps the order is what `insert_index` does.
proof fn insert_at_boundary<T: Ranked>(items: Seq<T::V>, s: Seq<int>, k: int, at: int)
    requires
        0 <= at <= s.len(),
        forall|i: int| 0 <= i < at ==> T::ranks_le(items[#[trigger] s[i]], items[k]),
        forall|i: int| at <= i < s.len() ==> !T::ranks_le(items[#[trigger] s[i]], items[k]),
    ensures
        s.insert(at, k) == insert_index::<T>(items, s, k),
    decreases s.len(),
{
    if s.len() == 0 || T::ranks_le(items[s.last()], items[k]) {
        assert(at == s.len());
        assert(s.insert(at, k) =~= s.push(k));
    } else {
        insert_at_boundary::<T>(items, s.drop_last(), k, at);
        assert(s.insert(at, k) =~= s.drop_last().insert(at, k).push(s.last()));
    }
}

proof fn insert_keeps_order<T: Ranked>(items: Seq<T::V>, s: Seq<int>, k: int)
    requires
        is_permutation(s, k as nat),
        stably_ordered::<T>(items, s),
        k >= 0,
    ensures
        stably_ordered::<T>(items, insert_index::<T>(items, s, k)),
        is_permutation(insert_index::<T>(items, s, k), (k + 1) as nat),
{
    let at = boundary::<T>(items, s, k);
    insert_at_boundary::<T>(items, s, k, at);
    let r = s.insert(at, k);
    assert forall|i: int, j: int| 0 <= i < j < r.len() implies goes_before::<T>(
        items,
        #[trigger] r[i],
        #[trigger] r[j],
    ) by {
        if i < at && j < at {
            assert(r[i] == s[i] && r[j] == s[j]);
        } else if i < at && j == at {
            assert(r[i] == s[i]);
        } else if i < at {
            assert(r[i] == s[i] && r[j] == s[j - 1]);
        } else if i == at {
            assert(r[j] == s[j - 1]);
            T::rank_total(items[s[j - 1]], items[k]);
        } else {
            assert(r[i] == s[i - 1] && r[j] == s[j - 1]);
        }
    }
    assert forall|i: int, j: int| 0 <= i < r.len() && 0 <= j < r.len() && i != j implies r[i]
        != r[j] by {
        let a = if i < at {
            i
        } else {
            i - 1
        };
        let b = if j < at {
            j
        } else {
            j - 1
        };
        if i != at {
            assert(r[i] == s[a]);
        }
        if j != at {
            assert(r[j] == s[b]);
        }
    }
    assert forall|i: int| 0 <= i < r.len() implies 0 <= (#[trigger] r[i]) < k + 1 by {
        if i < at {
            assert(r[i] == s[i]);
        } else if i > at {
            assert(r[i] == s[i - 1]);
        }
    }
}

/// The number of leading indices whose items may stand before item `k`.
proof fn boundary<T: Ranked>(items: Seq<T::V>, s: Seq<int>, k: int) -> (at: int)
    requires
        stably_ordered::<T>(items, s),
    ensures
        0 <= at <= s.len(),
        forall|i: int| 0 <= i < at ==> T::ranks_le(items[#[trigger] s[i]], items[k]),
        forall|i: int| at <= i < s.len() ==> !T::ranks_le(items[#[trigger] s[i]], items[k]),
    decreases s.len(),
{
    if s.len() == 0 {
        0
    } else if T::ranks_le(items[s.last()], items[k]) {
        assert forall|i: int| 0 <= i < s.len() implies T::ranks_le(items[#[trigger] s[i]], items[k]) by {
            if i < s.len() - 1 {
                assert(goes_before::<T>(items, s[i], s[s.len() - 1]));
                T::rank_trans(items[s[i]], items[s.last()], items[k]);
            }
        }
        s.len() as int
    } else {
        let t = s.drop_last();
        assert(stably_ordered::<T>(items, t)) by {
            assert forall|i: int, j: int| 0 <= i < j < t.len() implies goes_before::<T>(
                items,
                #[trigger] t[i],
                #[trigger] t[j],
            ) by {
                assert(goes_before::<T>(items, s[i], s[j]));
            }
        }
        let at = boundary::<T>(items, t, k);
        assert forall|i: int| 0 <= i < at implies T::ranks_le(items[#[trigger] s[i]], items[k]) by {
            assert(t[i] == s[i]);
        }
        assert forall|i: int| at <= i < s.len() implies !T::ranks_le(items[#[trigger] s[i]], items[k]) by {
            if i < t.len() {
                assert(t[i] == s[i]);
            }
        }
        at
    }
}

proof fn first_are_ranked<T: Ranked>(items: Seq<T::V>, n: nat)
    ensures
        is_permutation(ranking_of_first::<T>(items, n), n),
        stably_ordered::<T>(items, ranking_of_first::<T>(items, n)),
    decreases n,
{
    if n > 0 {
        first_are_ranked::<T>(items, (n - 1) as nat);
        insert_keeps_order::<T>(items, ranking_of_first::<T>(items, (n - 1) as nat), n - 1);
    }
}

/// The ranking names every item once, in rank order, items of equal rank by index.
pub proof fn ranking_is_stable<T: Ranked>(items: Seq<T::V>)
    ensures
        is_permutation(ranking::<T>(items), items.len()),
        stably_ordered::<T>(items, ranking::<T>(items)),
{
    first_are_ranked::<T>(items, items.len());
}

/// Every index below `n` occurs in a permutation of `0..n`.
pub proof fn permutation_is_onto(p: Seq<int>, n: nat, x: int)
    requires
        is_permutation(p, n),
        0 <= x < n,
    ensures
        p.contains(x),
    decreases n,
{
    if !p.contains(x) {
        let s = p.to_set();
        p.unique_seq_to_set();
        let all = vstd::set_lib::set_int_range(0, n as int);
        vstd::set_lib::lemma_int_range(0, n as int);
        assert(s.subset_of(all.remove(x))) by {
            assert forall|y: int| s.contains(y) implies all.remove(x).contains(y) by {
                let i = choose|i: int| 0 <= i < p.len() && p[i] == y;
                assert(0 <= p[i] < n);
            }
        }
        vstd::set_lib::lemma_len_subset(s, all.remove(x));
    }
}

/// Sorting keeps every item and adds none.
pub proof fn sorting_keeps_items<T: Ranked>(items: Seq<T::V>, x: T::V)
    ensures
        sorted::<T>(items).len() == items.len(),
        sorted::<T>(items).contains(x) == items.contains(x),
{
    ranking_is_stable::<T>(items);
    let p = ranking::<T>(items);
    if sorted::<T>(items).contains(x) {
        let i = choose|i: int| 0 <= i < p.len() && sorted::<T>(items)[i] == x;
        assert(items[p[i]] == x);
    }
    if items.contains(x) {
        let k = choose|k: int| 0 <= k < items.len() && items[k] == x;
        permutation_is_onto(p, items.len(), k);
        let i = choose|i: int| 0 <= i < p.len() && p[i] == k;
        assert(sorted::<T>(items)[i] == x);
    }
}

/// Sorting puts the items in rank order.
pub proof fn sorting_orders<T: Ranked>(items: Seq<T::V>, i: int, j: int)
    requires
        0 <= i <= j < items.len(),
    ensures
        T::ranks_le(sorted::<T>(items)[i], sorted::<T>(items)[j]),
{
    ranking_is_stable::<T>(items);
    let p = ranking::<T>(items);
    if i < j {
        assert(goes_before::<T>(items, p[i], p[j]));
    } else {
        T::rank_total(items[p[i]], items[p[i]]);
    }
}

/// The indices as mathematical integers.
pub open spec fn as_ints(p: Seq<usize>) -> Seq<int> {
    Seq::new(p.len(), |i: int| p[i] as int)
}

/// The indices of the items in rank order, items of equal rank in their given order.
pub fn rank_order<T: Ranked>(items: &Vec<T>) -> (p: Vec<usize>)
    ensures
        as_ints(p@) == ranking::<T>(items.deep_view()),
        p@.len() == items@.len(),
        forall|i: int| 0 <= i < p@.len() ==> (#[trigger] p@[i]) < items@.len(),
{
    let ghost all = items.deep_view();
    let mut p: Vec<usize> = Vec::new();
    let n: usize = items.len();
    let mut k: usize = 0;
    assert(as_ints(p@) =~= ranking_of_first::<T>(all, 0));
    while k < n
        invariant
            n == items@.len(),
            all == items.deep_view(),
            k <= n,
            as_ints(p@) == ranking_of_first::<T>(all, k as nat),
        decreases n - k,
    {
        let ghost s = as_ints(p@);
        proof {
            first_are_ranked::<T>(all, k as nat);
        }
        let mut lo: usize = 0;
        let mut hi: usize = k;
        while lo < hi
            invariant
                lo <= hi <= k,
                k < n,
                n == items@.len(),
                all == items.deep_view(),
                s == as_ints(p@),
                is_permutation(s, k as nat),
                stably_ordered::<T>(all, s),
                forall|i: int| 0 <= i < lo ==> T::ranks_le(all[#[trigger] s[i]], all[k as int]),
                forall|i: int| hi <= i < k ==> !T::ranks_le(all[#[trigger] s[i]], all[k as int]),
            decreases hi - lo,
        {
            let mid: usize = lo + (hi - lo) / 2;
            assert(0 <= s[mid as int] < k);
            let at: usize = p[mid];
            if items[at].no_later(&items[k]) {
                assert forall|i: int| 0 <= i < mid + 1 implies T::ranks_le(
                    all[#[trigger] s[i]],
                    all[k as int],
                ) by {
                    if i < mid {
                        assert(goes_before::<T>(all, s[i], s[mid as int]));
                        T::rank_trans(all[s[i]], all[s[mid as int]], all[k as int]);
                    }
                }
                lo = mid + 1;
            } else {
                assert forall|i: int| mid <= i < k implies !T::ranks_le(
                    all[#[trigger] s[i]],
                    all[k as int],
                ) by {
                    if mid < i && T::ranks_le(all[s[i]], all[k as int]) {
                        assert(goes_before::<T>(all, s[mid as int], s[i]));
                        T::rank_trans(all[s[mid as int]], all[s[i]], all[k as int]);
                    }
                }
                hi = mid;
            }
        }
        proof {
            insert_at_boundary::<T>(all, s, k as int, lo as int);
        }
        p.insert(lo, k);
        assert(as_ints(p@) =~= s.insert(lo as int, k as int));
        k += 1;
    }
    proof {
        ranking_is_stable::<T>(all);
        assert forall|i: int| 0 <= i < p@.len() implies (#[trigger] p@[i]) < items@.len() by {
            assert(as_ints(p@)[i] == p@[i]);
        }
    }
    p
}

/// The items in rank order, items of equal rank in their given order.
pub fn in_order<T: Ranked + Duplicate>(items: &Vec<T>) -> (r: Vec<T>)
    ensures
        r.deep_view() == sorted::<T>(items.deep_view()),
{
    let p = rank_order(items);
    let mut out: Vec<T> = Vec::new();
    let n: usize = p.len();
    let mut i: usize = 0;
    while i < n
        invariant
            n == p@.len(),
            i <= n,
            as_ints(p@) == ranking::<T>(items.deep_view()),
            forall|j: int| 0 <= j < p@.len() ==> (#[trigger] p@[j]) < items@.len(),
            out@.len() == i,
            forall|j: int|
                0 <= j < i ==> (#[trigger] out@[j]).deep_view() == items.deep_view()[p@[j] as int],
        decreases n - i,
    {
        out.push(items[p[i]].duplicate());
        i += 1;
    }
    assert(out.deep_view() =~= sorted::<T>(items.deep_view())) by {
        assert forall|j: int| 0 <= j < n implies out.deep_view()[j] == sorted::<T>(
            items.deep_view(),
        )[j] by {
            assert(as_ints(p@)[j] == p@[j]);
            assert(out@[j].deep_view() == items.deep_view()[p@[j] as int]);
        }
    }
    out
}

impl Ranked for String {
    open spec fn ranks_le(a: Seq<char>, b: Seq<char>) -> bool {
        lex_le(a, b)
    }

    proof fn rank_total(a: Seq<char>, b: Seq<char>) {
        lex_total(a, b);
    }

    proof fn rank_trans(a: Seq<char>, b: Seq<char>, c: Seq<char>) {
        lex_trans(a, b, c);
    }

    fn no_later(&self, other: &Self) -> (r: bool) {
        text_le(self.as_str(), other.as_str())
    }
}

impl Ranked for bool {
    open spec fn ranks_le(a: bool, b: bool) -> bool {
        a ==> b
    }

    proof fn rank_total(a: bool, b: bool) {
    }

    proof fn rank_trans(a: bool, b: bool, c: bool) {
    }

    fn no_later(&self, other: &Self) -> (r: bool) {
        !*self || *other
    }
}

impl Ranked for usize {
    open spec fn ranks_le(a: usize, b: usize) -> bool {
        a <= b
    }

    proof fn rank_total(a: usize, b: usize) {
    }

    proof fn rank_trans(a: usize, b: usize, c: usize) {
    }

    fn no_later(&self, other: &Self) -> (r: bool) {
        *self <= *other
    }
}

impl Ranked for i64 {
    open spec fn ranks_le(a: i64, b: i64) -> bool {
        a <= b
    }

    proof fn rank_total(a: i64, b: i64) {
    }

    proof fn rank_trans(a: i64, b: i64, c: i64) {
    }

    fn no_later(&self, other: &Self) -> (r: bool) {
        *self <= *other
    }
}

impl<A: Ranked, B: Ranked> Ranked for (A, B) {
    open spec fn ranks_le(a: (A::V, B::V), b: (A::V, B::V)) -> bool {
        A::ranks_le(a.0, b.0) && (A::ranks_le(b.0, a.0) ==> B::ranks_le(a.1, b.1))
    }

    proof fn rank_total(a: (A::V, B::V), b: (A::V, B::V)) {
        A::rank_total(a.0, b.0);
        B::rank_total(a.1, b.1);
    }

    proof fn rank_trans(a: (A::V, B::V), b: (A::V, B::V), c: (A::V, B::V)) {
        A::rank_trans(a.0, b.0, c.0);
        if A::ranks_le(c.0, a.0) {
            A::rank_trans(c.0, a.0, b.0);
            A::rank_trans(b.0, c.0, a.0);
            B::rank_trans(a.1, b.1, c.1);
        }
    }

    fn no_later(&self, other: &Self) -> (r: bool) {
        if !self.0.no_later(&other.0) {
            false
        } else if other.0.no_later(&self.0) {
            self.1.no_later(&other.1)
        } else {
            true
        }
    }
}

/// Lexicographic order on sequences of items.
pub open spec fn list_le<T: Ranked>(a: Seq<T::V>, b: Seq<T::V>) -> bool
    decreases a.len(),
{
    a.len() == 0 || (b.len() > 0 && T::ranks_le(a[0], b[0]) && (T::ranks_le(b[0], a[0]) ==> list_le::<
        T,
    >(a.drop_first(), b.drop_first())))
}

impl<T: Ranked> Ranked for Vec<T> {
    open spec fn ranks_le(a: Seq<T::V>, b: Seq<T::V>) -> bool {
        list_le::<T>(a, b)
    }

    proof fn rank_total(a: Seq<T::V>, b: Seq<T::V>)
        decreases a.len(),
    {
        if a.len() > 0 && b.len() > 0 {
            T::rank_total(a[0], b[0]);
            Self::rank_total(a.drop_first(), b.drop_first());
        }
    }

    proof fn rank_trans(a: Seq<T::V>, b: Seq<T::V>, c: Seq<T::V>)
        decreases a.len(),
    {
        if a.len() > 0 && b.len() > 0 && c.len() > 0 {
            T::rank_trans(a[0], b[0], c[0]);
            if T::ranks_le(c[0], a[0]) {
                T::rank_trans(c[0], a[0], b[0]);
                T::rank_trans(b[0], c[0], a[0]);
                Self::rank_trans(a.drop_first(), b.drop_first(), c.drop_first());
            }
        }
    }

    fn no_later(&self, other: &Self) -> (r: bool) {
        let ghost a = self.deep_view();
        let ghost b = other.deep_view();
        let mut i: usize = 0;
        assert(a.skip(0) =~= a);
        assert(b.skip(0) =~= b);
        while i < self.len() && i < other.len()
            invariant
                a == self.deep_view(),
                b == other.deep_view(),
                i <= self@.len(),
                i <= other@.len(),
                list_le::<T>(a, b) == list_le::<T>(a.skip(i as int), b.skip(i as int)),
            decreases self@.len() - i,
        {
            assert(a.skip(i as int).drop_first() =~= a.skip(i + 1));
            assert(b.skip(i as int).drop_first() =~= b.skip(i + 1));
            assert(a.skip(i as int)[0] == self@[i as int].deep_view());
            assert(b.skip(i as int)[0] == other@[i as int].deep_view());
            if !self[i].no_later(&other[i]) {
                return false;
            }
            if !other[i].no_later(&self[i]) {
                return true;
            }
            i += 1;
        }
        i == self.len()
    }
}

} // verus!
