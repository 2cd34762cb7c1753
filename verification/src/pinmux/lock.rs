//! Pin locks: the pins that a request is pinned to.
use vstd::prelude::*;

use crate::pinmux::model::{PinLock, PinLockV};
use crate::text::{holds, joined, quote_all, quoted, same};

verus! {

/// The lock names nothing.
pub open spec fn lock_is_empty(l: PinLockV) -> bool {
    l.any.len() == 0 && l.by_signal.len() == 0
}

/// Entry `i` is the first one for `signal`.
pub open spec fn first_entry(l: PinLockV, signal: Seq<char>, i: int) -> bool {
    &&& 0 <= i < l.by_signal.len()
    &&& l.by_signal[i].0 == signal
    &&& forall|j: int| 0 <= j < i ==> (#[trigger] l.by_signal[j]).0 != signal
}

/// The pins that the lock allows `signal`: those of its first entry for it.
pub open spec fn allowed_pins(l: PinLockV, signal: Seq<char>) -> Option<Seq<Seq<char>>> {
    if exists|i: int| #[trigger] first_entry(l, signal, i) {
        Some(l.by_signal[choose|i: int| #[trigger] first_entry(l, signal, i)].1)
    } else {
        None
    }
}

/// `pin` appears somewhere in the lock.
pub open spec fn lock_mentions(l: PinLockV, pin: Seq<char>) -> bool {
    l.any.contains(pin) || exists|i: int|
        0 <= i < l.by_signal.len() && (#[trigger] l.by_signal[i]).1.contains(pin)
}

/// Entry `i` is the first one for a signal that is not in use.
pub open spec fn first_stray(l: PinLockV, uses: Seq<Seq<char>>, i: int) -> bool {
    &&& 0 <= i < l.by_signal.len()
    &&& !uses.contains(l.by_signal[i].0)
    &&& forall|j: int| 0 <= j < i ==> uses.contains((#[trigger] l.by_signal[j]).0)
}

/// The first signal with an entry that is not in use.
pub open spec fn stray_signal(l: PinLockV, uses: Seq<Seq<char>>) -> Option<Seq<char>> {
    if exists|i: int| #[trigger] first_stray(l, uses, i) {
        Some(l.by_signal[choose|i: int| #[trigger] first_stray(l, uses, i)].0)
    } else {
        None
    }
}

/// The complaint about an entry for a signal that is not in use.
pub open spec fn stray_text(ctx: Seq<char>, signal: Seq<char>, uses: Seq<Seq<char>>) -> Seq<char> {
    ctx + ": pin constraint names signal `"@ + signal
        + "`, which this request does not use (it uses "@ + joined(quoted(uses), ", "@) + ")"@
}

/// The pins of an entry, each as `signal=pin`.
pub open spec fn entry_names(signal: Seq<char>, pins: Seq<Seq<char>>) -> Seq<Seq<char>> {
    Seq::new(pins.len(), |i: int| signal + "="@ + pins[i])
}

/// The entries' pins, in order.
pub open spec fn all_entry_names(by_signal: Seq<(Seq<char>, Seq<Seq<char>>)>) -> Seq<Seq<char>>
    decreases by_signal.len(),
{
    if by_signal.len() == 0 {
        Seq::empty()
    } else {
        all_entry_names(by_signal.drop_last()) + entry_names(
            by_signal.last().0,
            by_signal.last().1,
        )
    }
}

/// Everything that the lock names, for messages.
pub open spec fn lock_names(l: PinLockV) -> Seq<Seq<char>> {
    l.any + all_entry_names(l.by_signal)
}

impl PinLock {
    /// Whether the lock names nothing.
    pub fn is_empty(&self) -> (r: bool)
        ensures
            r == lock_is_empty(self.deep_view()),
    {
        self.any.len() == 0 && self.by_signal.len() == 0
    }

    /// The pins that the lock allows `signal`.
    pub fn allowed(&self, signal: &str) -> (r: Option<&Vec<String>>)
        ensures
            match r {
                Some(pins) => allowed_pins(self.deep_view(), signal@) == Some(pins.deep_view()),
                None => allowed_pins(self.deep_view(), signal@) is None,
            },
    {
        let ghost l = self.deep_view();
        let n: usize = self.by_signal.len();
        let mut i: usize = 0;
        while i < n
            invariant
                n == self.by_signal@.len(),
                l == self.deep_view(),
                i <= n,
                forall|j: int| 0 <= j < i ==> (#[trigger] l.by_signal[j]).0 != signal@,
            decreases n - i,
        {
            if same(self.by_signal[i].0.as_str(), signal) {
                proof {
                    assert(first_entry(l, signal@, i as int));
                    let k = choose|k: int| #[trigger] first_entry(l, signal@, k);
                    assert(k == i) by {
                        if k < i {
                            assert(l.by_signal[k].0 != signal@);
                        } else if i < k {
                            assert(l.by_signal[i as int].0 != signal@);
                        }
                    }
                }
                return Some(&self.by_signal[i].1);
            }
            i += 1;
        }
        assert(!exists|k: int| #[trigger] first_entry(l, signal@, k));
        None
    }

    /// Whether `pin` appears anywhere in the lock. Drives the cost bias.
    pub fn mentions(&self, pin: &str) -> (r: bool)
        ensures
            r == lock_mentions(self.deep_view(), pin@),
    {
        if holds(&self.any, pin) {
            return true;
        }
        let ghost l = self.deep_view();
        let n: usize = self.by_signal.len();
        let mut i: usize = 0;
        while i < n
            invariant
                n == self.by_signal@.len(),
                l == self.deep_view(),
                i <= n,
                !l.any.contains(pin@),
                forall|j: int| 0 <= j < i ==> !(#[trigger] l.by_signal[j]).1.contains(pin@),
            decreases n - i,
        {
            assert(l.by_signal[i as int].1 == self.by_signal@[i as int].1.deep_view());
            if holds(&self.by_signal[i].1, pin) {
                return true;
            }
            i += 1;
        }
        false
    }

    /// Every per-signal entry must name a signal that the request uses.
    pub fn check_signals(&self, ctx: &str, uses: &Vec<String>) -> (r: Result<(), String>)
        ensures
            match stray_signal(self.deep_view(), uses.deep_view()) {
                Some(s) => r matches Err(e) && e@ == stray_text(ctx@, s, uses.deep_view()),
                None => r is Ok,
            },
    {
        let ghost l = self.deep_view();
        let n: usize = self.by_signal.len();
        let mut i: usize = 0;
        while i < n
            invariant
                n == self.by_signal@.len(),
                l == self.deep_view(),
                i <= n,
                forall|j: int| 0 <= j < i ==> uses.deep_view().contains((#[trigger] l.by_signal[j]).0),
            decreases n - i,
        {
            assert(l.by_signal[i as int].0 == self.by_signal@[i as int].0@);
            if !holds(uses, self.by_signal[i].0.as_str()) {
                proof {
                    assert(first_stray(l, uses.deep_view(), i as int));
                    let k = choose|k: int| #[trigger] first_stray(l, uses.deep_view(), k);
                    assert(k == i) by {
                        if k < i {
                            assert(uses.deep_view().contains(l.by_signal[k].0));
                        } else if i < k {
                            assert(uses.deep_view().contains(l.by_signal[i as int].0));
                        }
                    }
                }
                let list = quote_all(uses);
                return Err(
                    ctx.to_string().concat(": pin constraint names signal `").concat(
                        self.by_signal[i].0.as_str(),
                    ).concat("`, which this request does not use (it uses ").concat(
                        list.as_str(),
                    ).concat(")"),
                );
            }
            i += 1;
        }
        Ok(())
    }

    /// Everything that the lock names, for messages.
    pub fn names(&self) -> (r: Vec<String>)
        ensures
            r.deep_view() == lock_names(self.deep_view()),
    {
        let ghost l = self.deep_view();
        let mut out = self.any.clone();
        assert(out.deep_view() =~= l.any + all_entry_names(l.by_signal.take(0)));
        let n: usize = self.by_signal.len();
        let mut i: usize = 0;
        while i < n
            invariant
                n == self.by_signal@.len(),
                l == self.deep_view(),
                i <= n,
                out.deep_view() == l.any + all_entry_names(l.by_signal.take(i as int)),
            decreases n - i,
        {
            let ghost signal = l.by_signal[i as int].0;
            let ghost pins = l.by_signal[i as int].1;
            let ghost base = out.deep_view();
            let m: usize = self.by_signal[i].1.len();
            let mut j: usize = 0;
            assert(base + entry_names(signal, pins.take(0)) =~= base);
            while j < m
                invariant
                    i < n,
                    n == self.by_signal@.len(),
                    l == self.deep_view(),
                    m == self.by_signal@[i as int].1@.len(),
                    m == pins.len(),
                    signal == l.by_signal[i as int].0,
                    pins == l.by_signal[i as int].1,
                    j <= m,
                    out.deep_view() == base + entry_names(signal, pins.take(j as int)),
                decreases m - j,
            {
                let ghost before = out.deep_view();
                let one = self.by_signal[i].0.clone().concat("=").concat(
                    self.by_signal[i].1[j].as_str(),
                );
                out.push(one);
                assert(out.deep_view() =~= before.push(signal + "="@ + pins[j as int]));
                assert(out.deep_view() =~= base + entry_names(signal, pins.take(j + 1)));
                j += 1;
            }
            proof {
                assert(pins.take(m as int) =~= pins);
                let now = l.by_signal.take(i + 1);
                assert(now.drop_last() =~= l.by_signal.take(i as int));
                assert(out.deep_view() =~= l.any + all_entry_names(now));
            }
            i += 1;
        }
        assert(l.by_signal.take(n as int) =~= l.by_signal);
        out
    }
}

} // verus!
