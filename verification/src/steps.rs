//! Walks over sequences: a fold that stops at the first failure, a filter, first occurrences.
use vstd::prelude::*;

verus! {

/// The state after all items have been taken in order, or the first failure.
pub open spec fn take_all<A, S>(
    items: Seq<A>,
    init: S,
    step: spec_fn(S, A) -> Result<S, Seq<char>>,
) -> Result<S, Seq<char>>
    decreases items.len(),
{
    if items.len() == 0 {
        Ok(init)
    } else {
        match take_all(items.drop_last(), init, step) {
            Err(e) => Err(e),
            Ok(s) => step(s, items.last()),
        }
    }
}

/// What one more item does.
pub proof fn take_one_more<A, S>(
    items: Seq<A>,
    init: S,
    step: spec_fn(S, A) -> Result<S, Seq<char>>,
    k: int,
)
    requires
        0 <= k < items.len(),
    ensures
        take_all(items.take(k + 1), init, step) == match take_all(items.take(k), init, step) {
            Err(e) => Err(e),
            Ok(s) => step(s, items[k]),
        },
{
    assert(items.take(k + 1).drop_last() =~= items.take(k));
}

/// A failure among the first items is the failure of all.
pub proof fn failure_stays<A, S>(
    items: Seq<A>,
    init: S,
    step: spec_fn(S, A) -> Result<S, Seq<char>>,
    k: int,
)
    requires
        0 <= k <= items.len(),
        take_all(items.take(k), init, step) is Err,
    ensures
        take_all(items, init, step) == take_all(items.take(k), init, step),
    decreases items.len() - k,
{
    if k < items.len() {
        take_one_more(items, init, step, k);
        failure_stays(items, init, step, k + 1);
    } else {
        assert(items.take(k) =~= items);
    }
}

/// The items that pass a test, in order.
pub open spec fn only<A>(items: Seq<A>, test: spec_fn(A) -> bool) -> Seq<A>
    decreases items.len(),
{
    if items.len() == 0 {
        Seq::empty()
    } else if test(items.last()) {
        only(items.drop_last(), test).push(items.last())
    } else {
        only(items.drop_last(), test)
    }
}

/// What one more item adds to the items that pass a test.
pub proof fn only_one_more<A>(items: Seq<A>, test: spec_fn(A) -> bool, k: int)
    requires
        0 <= k < items.len(),
    ensures
        only(items.take(k + 1), test) == if test(items[k]) {
            only(items.take(k), test).push(items[k])
        } else {
            only(items.take(k), test)
        },
{
    assert(items.take(k + 1).drop_last() =~= items.take(k));
}

/// An item passes the filter if and only if it is there and passes the test.
pub proof fn only_holds<A>(items: Seq<A>, test: spec_fn(A) -> bool, x: A)
    ensures
        only(items, test).contains(x) == (items.contains(x) && test(x)),
    decreases items.len(),
{
    if items.len() > 0 {
        let front = items.drop_last();
        only_holds(front, test, x);
        let r = only(items, test);
        let f = only(front, test);
        if r.contains(x) {
            let i = choose|i: int| 0 <= i < r.len() && r[i] == x;
            if i < f.len() {
                assert(f[i] == x);
                let k = choose|k: int| 0 <= k < front.len() && front[k] == x;
                assert(items[k] == x);
            } else {
                assert(items[items.len() - 1] == x);
            }
        }
        if items.contains(x) && test(x) {
            let k = choose|k: int| 0 <= k < items.len() && items[k] == x;
            if k < front.len() {
                assert(front[k] == x);
                let i = choose|i: int| 0 <= i < f.len() && f[i] == x;
                assert(r[i] == x);
            } else {
                assert(r[r.len() - 1] == x);
            }
        }
    }
}

/// The items, each only where it first occurs.
pub open spec fn distinct<A>(items: Seq<A>) -> Seq<A>
    decreases items.len(),
{
    if items.len() == 0 {
        Seq::empty()
    } else {
        let front = distinct(items.drop_last());
        if front.contains(items.last()) {
            front
        } else {
            front.push(items.last())
        }
    }
}

/// Leaving out repetitions keeps every item.
pub proof fn distinct_holds<A>(items: Seq<A>, x: A)
    ensures
        distinct(items).contains(x) == items.contains(x),
    decreases items.len(),
{
    if items.len() > 0 {
        let front = items.drop_last();
        distinct_holds(front, x);
        distinct_holds(front, items.last());
        let d = distinct(front);
        let r = distinct(items);
        if items.contains(x) {
            let k = choose|k: int| 0 <= k < items.len() && items[k] == x;
            if k < front.len() {
                assert(front[k] == x);
                let i = choose|i: int| 0 <= i < d.len() && d[i] == x;
                assert(r[i] == x);
            } else if !d.contains(items.last()) {
                assert(r[r.len() - 1] == x);
            }
        }
        if r.contains(x) {
            let i = choose|i: int| 0 <= i < r.len() && r[i] == x;
            if i < d.len() {
                assert(d[i] == x);
                let k = choose|k: int| 0 <= k < front.len() && front[k] == x;
                assert(items[k] == x);
            } else {
                assert(items[items.len() - 1] == x);
            }
        }
    }
}

} // verus!
