//! Selections: the places of the items that pass a test.
use vstd::prelude::*;

use crate::order::as_ints;

verus! {

/// A test on items.
pub trait Test<T: DeepView> {
    /// What the test asks of an item's value.
    spec fn passes(&self, x: T::V) -> bool;

    fn check(&self, x: &T) -> (r: bool)
        ensures
            r == self.passes(x.deep_view()),
    ;
}

/// The places of the items that pass, in order.
pub open spec fn places<A>(items: Seq<A>, test: spec_fn(A) -> bool) -> Seq<int>
    decreases items.len(),
{
    if items.len() == 0 {
        Seq::empty()
    } else if test(items.last()) {
        places(items.drop_last(), test).push(items.len() - 1)
    } else {
        places(items.drop_last(), test)
    }
}

/// The test as a function on values.
pub open spec fn asks<T: DeepView, K: Test<T>>(k: K) -> spec_fn(T::V) -> bool {
    |x: T::V| k.passes(x)
}

/// Exactly the places of the items that pass are selected, each once, in rising order.
pub proof fn places_are_exact<A>(items: Seq<A>, test: spec_fn(A) -> bool)
    ensures
        forall|i: int|
            #![trigger places(items, test).contains(i)]
            places(items, test).contains(i) <==> 0 <= i < items.len() && test(items[i]),
        forall|i: int, j: int|
            0 <= i < j < places(items, test).len() ==> places(items, test)[i] < places(
                items,
                test,
            )[j],
        places(items, test).len() <= items.len(),
    decreases items.len(),
{
    if items.len() > 0 {
        let front = items.drop_last();
        places_are_exact(front, test);
        let p = places(front, test);
        let q = places(items, test);
        assert forall|i: int| #![trigger q.contains(i)] q.contains(i) implies 0 <= i < items.len()
            && test(items[i]) by {
            let k = choose|k: int| 0 <= k < q.len() && q[k] == i;
            if k < p.len() {
                assert(p[k] == i);
                assert(p.contains(i));
                assert(front[i] == items[i]);
            }
        }
        assert forall|i: int|
            #![trigger q.contains(i)]
            0 <= i < items.len() && test(items[i]) implies q.contains(i) by {
            if i < front.len() {
                assert(front[i] == items[i]);
                assert(p.contains(i));
                let k = choose|k: int| 0 <= k < p.len() && p[k] == i;
                assert(q[k] == i);
            } else {
                assert(q[q.len() - 1] == i);
            }
        }
        assert forall|i: int, j: int| 0 <= i < j < q.len() implies q[i] < q[j] by {
            if j < p.len() {
                assert(p[i] < p[j]);
            } else {
                assert(p[i] == q[i]);
                assert(p.contains(p[i]));
            }
        }
    }
}

/// The places of the items that pass the test.
pub fn find_places<T: DeepView, K: Test<T>>(items: &Vec<T>, k: &K) -> (r: Vec<usize>)
    ensures
        as_ints(r@) == places(items.deep_view(), asks::<T, K>(*k)),
        forall|i: int| 0 <= i < r@.len() ==> (#[trigger] r@[i]) < items@.len(),
{
    let ghost all = items.deep_view();
    let ghost test = asks::<T, K>(*k);
    let mut out: Vec<usize> = Vec::new();
    let n: usize = items.len();
    let mut i: usize = 0;
    assert(as_ints(out@) =~= places(all.take(0), test));
    while i < n
        invariant
            n == items@.len(),
            i <= n,
            all == items.deep_view(),
            test == asks::<T, K>(*k),
            as_ints(out@) == places(all.take(i as int), test),
            forall|j: int| 0 <= j < out@.len() ==> (#[trigger] out@[j]) < i,
        decreases n - i,
    {
        assert(all.take(i + 1).drop_last() =~= all.take(i as int));
        assert(all[i as int] == items@[i as int].deep_view());
        assert(all.take(i + 1).last() == all[i as int]);
        let ghost before = as_ints(out@);
        if k.check(&items[i]) {
            out.push(i);
            assert(as_ints(out@) =~= before.push(i as int));
        }
        i += 1;
    }
    assert(all.take(n as int) =~= all);
    out
}

/// How many items pass the test.
pub fn count_places<T: DeepView, K: Test<T>>(items: &Vec<T>, k: &K) -> (r: usize)
    ensures
        r == places(items.deep_view(), asks::<T, K>(*k)).len(),
{
    let found = find_places(items, k);
    assert(found@.len() == as_ints(found@).len());
    found.len()
}

} // verus!
