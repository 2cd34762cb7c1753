//! What holds of texts: their order, numbers in digits, blanks around them, lines and lists of them.
use vstd::prelude::*;

use crate::text::{
    decimal, digit, first_line, is_white, joined, leading_white, lex_le, trim_end, trimmed,
};

verus! {

/// The text goes before the other: it is the beginning of it, or has the smaller character where
/// they first differ.
pub open spec fn goes_before(a: Seq<char>, b: Seq<char>) -> bool {
    ||| a.len() <= b.len() && forall|i: int| 0 <= i < a.len() ==> #[trigger] a[i] == b[i]
    ||| exists|k: int|
        0 <= k < a.len() && k < b.len() && (#[trigger] a[k] as int) < (b[k] as int) && forall|i: int|
            0 <= i < k ==> #[trigger] a[i] == b[i]
}

/// Texts are ordered by their first difference, and a beginning goes before what it begins.
pub proof fn texts_are_ordered_by_first_difference(a: Seq<char>, b: Seq<char>)
    ensures
        lex_le(a, b) <==> goes_before(a, b),
    decreases a.len(),
{
    if a.len() > 0 && b.len() > 0 {
        let x = a.drop_first();
        let y = b.drop_first();
        texts_are_ordered_by_first_difference(x, y);
        if (a[0] as int) < (b[0] as int) {
            assert(a[0] as int <= b[0] as int);
            assert(goes_before(a, b));
        } else if a[0] == b[0] {
            if goes_before(x, y) {
                if x.len() <= y.len() && forall|i: int| 0 <= i < x.len() ==> #[trigger] x[i] == y[i] {
                    assert forall|i: int| 0 <= i < a.len() implies #[trigger] a[i] == b[i] by {
                        if i > 0 {
                            assert(x[i - 1] == y[i - 1]);
                        }
                    }
                } else {
                    let k = choose|k: int|
                        0 <= k < x.len() && k < y.len() && (#[trigger] x[k] as int) < (y[k] as int)
                            && forall|i: int| 0 <= i < k ==> #[trigger] x[i] == y[i];
                    assert((a[k + 1] as int) < (b[k + 1] as int));
                    assert forall|i: int| 0 <= i < k + 1 implies #[trigger] a[i] == b[i] by {
                        if i > 0 {
                            assert(x[i - 1] == y[i - 1]);
                        }
                    }
                }
            }
            if goes_before(a, b) {
                if a.len() <= b.len() && forall|i: int| 0 <= i < a.len() ==> #[trigger] a[i] == b[i] {
                    assert forall|i: int| 0 <= i < x.len() implies #[trigger] x[i] == y[i] by {
                        assert(a[i + 1] == b[i + 1]);
                    }
                } else {
                    let k = choose|k: int|
                        0 <= k < a.len() && k < b.len() && (#[trigger] a[k] as int) < (b[k] as int)
                            && forall|i: int| 0 <= i < k ==> #[trigger] a[i] == b[i];
                    assert(k > 0);
                    assert((x[k - 1] as int) < (y[k - 1] as int));
                    assert forall|i: int| 0 <= i < k - 1 implies #[trigger] x[i] == y[i] by {
                        assert(a[i + 1] == b[i + 1]);
                    }
                }
            }
        } else if goes_before(a, b) {
            if a.len() <= b.len() && forall|i: int| 0 <= i < a.len() ==> #[trigger] a[i] == b[i] {
                assert(a[0] == b[0]);
            } else {
                let k = choose|k: int|
                    0 <= k < a.len() && k < b.len() && (#[trigger] a[k] as int) < (b[k] as int)
                        && forall|i: int| 0 <= i < k ==> #[trigger] a[i] == b[i];
                if k > 0 {
                    assert(a[0] == b[0]);
                }
            }
        }
    }
}

/// What the digits stand for.
pub open spec fn value_of(s: Seq<char>) -> int
    decreases s.len(),
{
    if s.len() == 0 {
        0
    } else {
        10 * value_of(s.drop_last()) + (s.last() as int - '0' as int)
    }
}

/// A number written in digits stands for itself, and does not begin with a zero unless it is one.
pub proof fn digits_stand_for_their_number(n: nat)
    ensures
        value_of(decimal(n)) == n,
        decimal(n).len() > 0,
        n > 0 ==> decimal(n)[0] != '0',
    decreases n,
{
    let t = decimal(n);
    if n < 10 {
        assert(t.drop_last() =~= Seq::empty());
        assert(value_of(t.drop_last()) == 0);
        assert(t.last() == digit(n as int));
    } else {
        digits_stand_for_their_number(n / 10);
        assert(t.drop_last() =~= decimal(n / 10));
        assert(t.last() == digit((n % 10) as int));
        assert(t[0] == decimal(n / 10)[0]);
    }
}

proof fn white_ahead(s: Seq<char>)
    ensures
        0 <= leading_white(s) <= s.len(),
        forall|i: int| 0 <= i < leading_white(s) ==> is_white(#[trigger] s[i]),
        leading_white(s) < s.len() ==> !is_white(s[leading_white(s)]),
    decreases s.len(),
{
    if s.len() > 0 && is_white(s[0]) {
        let rest = s.drop_first();
        white_ahead(rest);
        assert forall|i: int| 0 <= i < leading_white(s) implies is_white(#[trigger] s[i]) by {
            if i > 0 {
                assert(rest[i - 1] == s[i]);
            }
        }
    }
}

proof fn white_behind(s: Seq<char>)
    ensures
        trim_end(s).len() <= s.len(),
        trim_end(s) == s.take(trim_end(s).len() as int),
        forall|i: int| trim_end(s).len() <= i < s.len() ==> is_white(#[trigger] s[i]),
        trim_end(s).len() > 0 ==> !is_white(trim_end(s).last()),
    decreases s.len(),
{
    if s.len() > 0 && is_white(s.last()) {
        let front = s.drop_last();
        white_behind(front);
        assert(trim_end(s) =~= s.take(trim_end(s).len() as int));
        assert forall|i: int| trim_end(s).len() <= i < s.len() implies is_white(#[trigger] s[i]) by {
            if i < front.len() {
                assert(front[i] == s[i]);
            } else {
                assert(s[i] == s.last());
            }
        }
    } else {
        assert(s =~= s.take(s.len() as int));
    }
}

/// Trimming takes the blanks off both ends and nothing else.
pub proof fn trimming_takes_blanks_off(s: Seq<char>) -> (r: (int, int))
    ensures
        0 <= r.0 <= r.1 <= s.len(),
        trimmed(s) == s.subrange(r.0, r.1),
        forall|i: int| 0 <= i < r.0 ==> is_white(#[trigger] s[i]),
        forall|i: int| r.1 <= i < s.len() ==> is_white(#[trigger] s[i]),
        r.0 < r.1 ==> !is_white(s[r.0]) && !is_white(s[r.1 - 1]),
{
    let k = leading_white(s);
    white_ahead(s);
    let rest = s.skip(k);
    white_behind(rest);
    let n = trim_end(rest).len();
    assert(trimmed(s) =~= s.subrange(k, k + n));
    assert forall|i: int| k + n <= i < s.len() implies is_white(#[trigger] s[i]) by {
        assert(rest[i - k] == s[i]);
    }
    if n > 0 {
        assert(trim_end(rest)[0] == rest[0]);
        assert(rest[0] == s[k]);
        assert(trim_end(rest).last() == rest[n - 1]);
        assert(rest[n - 1] == s[k + n - 1]);
    }
    (k, k + n)
}

/// The first line is what stands before the first line break.
pub proof fn first_lines_end_at_breaks(s: Seq<char>)
    ensures
        first_line(s).len() <= s.len(),
        first_line(s) == s.take(first_line(s).len() as int),
        forall|i: int| 0 <= i < first_line(s).len() ==> #[trigger] s[i] != '\n',
        first_line(s).len() < s.len() ==> s[first_line(s).len() as int] == '\n',
    decreases s.len(),
{
    if s.len() > 0 && s[0] != '\n' {
        let rest = s.drop_first();
        first_lines_end_at_breaks(rest);
        let r = first_line(s);
        assert(r =~= s.take(r.len() as int)) by {
            assert forall|i: int| 0 <= i < r.len() implies r[i] == s[i] by {
                if i > 0 {
                    assert(r[i] == first_line(rest)[i - 1]);
                    assert(first_line(rest)[i - 1] == rest.take(first_line(rest).len() as int)[i - 1]);
                }
            }
        }
        assert forall|i: int| 0 <= i < r.len() implies #[trigger] s[i] != '\n' by {
            if i > 0 {
                assert(rest[i - 1] == s[i]);
            }
        }
    } else {
        assert(first_line(s) =~= s.take(0));
    }
}

/// A list of texts is joined by what stands between each two of them.
pub proof fn lists_are_joined_between(list: Seq<Seq<char>>, more: Seq<char>, sep: Seq<char>)
    requires
        list.len() > 0,
    ensures
        joined(seq![more], sep) == more,
        joined(list.push(more), sep) == joined(list, sep) + sep + more,
{
    assert(list.push(more).drop_last() =~= list);
}

} // verus!
