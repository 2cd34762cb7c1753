//! Real numbers in their 64-bit binary form, which this library orders and hands on.
use vstd::prelude::*;

use crate::duplicate::Duplicate;

verus! {

/// A real number by the bits of its binary64 form: sign, exponent, fraction.
#[derive(Clone, Copy, Debug, PartialEq, Eq, Structural)]
pub struct Real {
    pub bits: u64,
}

impl DeepView for Real {
    type V = Real;

    open spec fn deep_view(&self) -> Real {
        *self
    }
}

impl Duplicate for Real {
    fn duplicate(&self) -> (r: Self) {
        *self
    }
}

/// The bit of the sign.
pub const SIGN: u64 = 0x8000_0000_0000_0000;

/// The form of infinity; the forms above it, the sign aside, are no numbers.
pub const INFINITE: u64 = 0x7ff0_0000_0000_0000;

/// The number zero.
pub open spec fn zero() -> Real {
    Real { bits: 0 }
}

/// Where the number stands on the number line: a whole number that grows with it.
pub open spec fn place(x: Real) -> int {
    if x.bits < SIGN {
        x.bits as int
    } else {
        -((x.bits - SIGN) as int)
    }
}

/// The bits stand for no number.
pub open spec fn no_number(x: Real) -> bool {
    place(x) > INFINITE || place(x) < -(INFINITE as int)
}

/// The number is neither infinite nor missing.
pub open spec fn finite(x: Real) -> bool {
    -(INFINITE as int) < place(x) < INFINITE
}

/// `x` is smaller than `y`, both being numbers.
pub open spec fn below(x: Real, y: Real) -> bool {
    !no_number(x) && !no_number(y) && place(x) < place(y)
}

impl Real {
    /// The number of the given bits.
    pub fn from_bits(bits: u64) -> (r: Real)
        ensures
            r.bits == bits,
    {
        Real { bits }
    }

    /// The number zero.
    pub fn zero() -> (r: Real)
        ensures
            r == zero(),
    {
        Real { bits: 0 }
    }

    /// Where the number stands on the number line.
    pub fn rank(&self) -> (r: i64)
        ensures
            r == place(*self),
    {
        if self.bits < SIGN {
            self.bits as i64
        } else {
            -((self.bits - SIGN) as i64)
        }
    }

    /// Whether the number is smaller than the other.
    pub fn less(&self, other: &Real) -> (r: bool)
        ensures
            r == below(*self, *other),
    {
        let top: i64 = INFINITE as i64;
        let a: i64 = self.rank();
        let b: i64 = other.rank();
        -top <= a && a <= top && -top <= b && b <= top && a < b
    }

    /// Whether the number is finite.
    pub fn is_finite(&self) -> (r: bool)
        ensures
            r == finite(*self),
    {
        let top: i64 = INFINITE as i64;
        let a: i64 = self.rank();
        -top < a && a < top
    }
}

/// Smaller than is a strict order.
pub proof fn below_is_strict(x: Real, y: Real, z: Real)
    ensures
        !below(x, x),
        below(x, y) && below(y, z) ==> below(x, z),
{
}

/// The smaller of two; a number where one of them is.
pub open spec fn lesser(a: Real, b: Real) -> Real {
    if no_number(a) || below(b, a) {
        b
    } else {
        a
    }
}

/// The larger of two; a number where one of them is.
pub open spec fn larger(a: Real, b: Real) -> Real {
    if no_number(a) || below(a, b) {
        b
    } else {
        a
    }
}

/// The smallest of the values and the start.
pub open spec fn least(start: Real, values: Seq<Real>) -> Real
    decreases values.len(),
{
    if values.len() == 0 {
        start
    } else {
        lesser(least(start, values.drop_last()), values.last())
    }
}

/// The largest of the values and the start.
pub open spec fn greatest(start: Real, values: Seq<Real>) -> Real
    decreases values.len(),
{
    if values.len() == 0 {
        start
    } else {
        larger(greatest(start, values.drop_last()), values.last())
    }
}

impl Real {
    /// Whether the bits stand for no number.
    pub fn is_missing(&self) -> (r: bool)
        ensures
            r == no_number(*self),
    {
        let top: i64 = INFINITE as i64;
        let a: i64 = self.rank();
        a > top || a < -top
    }

    /// The smaller of two.
    pub fn lesser(&self, other: &Real) -> (r: Real)
        ensures
            r == lesser(*self, *other),
    {
        if self.is_missing() || other.less(self) {
            *other
        } else {
            *self
        }
    }

    /// The larger of two.
    pub fn larger(&self, other: &Real) -> (r: Real)
        ensures
            r == larger(*self, *other),
    {
        if self.is_missing() || self.less(other) {
            *other
        } else {
            *self
        }
    }
}

/// The smallest of the values and the start.
pub fn least_of(start: Real, values: &Vec<Real>) -> (r: Real)
    ensures
        r == least(start, values@),
{
    let n: usize = values.len();
    let mut best: Real = start;
    let mut i: usize = 0;
    while i < n
        invariant
            n == values@.len(),
            i <= n,
            best == least(start, values@.take(i as int)),
        decreases n - i,
    {
        assert(values@.take(i + 1).drop_last() =~= values@.take(i as int));
        best = best.lesser(&values[i]);
        i += 1;
    }
    assert(values@.take(n as int) =~= values@);
    best
}

/// The largest of the values and the start.
pub fn greatest_of(start: Real, values: &Vec<Real>) -> (r: Real)
    ensures
        r == greatest(start, values@),
{
    let n: usize = values.len();
    let mut best: Real = start;
    let mut i: usize = 0;
    while i < n
        invariant
            n == values@.len(),
            i <= n,
            best == greatest(start, values@.take(i as int)),
        decreases n - i,
    {
        assert(values@.take(i + 1).drop_last() =~= values@.take(i as int));
        best = best.larger(&values[i]);
        i += 1;
    }
    assert(values@.take(n as int) =~= values@);
    best
}

/// No value is smaller than the smallest, and none larger than the largest; each is one of the
/// values or the start.
pub proof fn extremes_bound(start: Real, values: Seq<Real>, i: int)
    requires
        0 <= i < values.len(),
    ensures
        !below(values[i], least(start, values)),
        !below(greatest(start, values), values[i]),
        least(start, values) == start || values.contains(least(start, values)),
        greatest(start, values) == start || values.contains(greatest(start, values)),
        no_number(least(start, values)) ==> no_number(values[i]),
        no_number(greatest(start, values)) ==> no_number(values[i]),
    decreases values.len(),
{
    let front = values.drop_last();
    if front.len() == 0 {
        assert(least(start, front) == start);
        assert(greatest(start, front) == start);
    } else {
        extremes_bound(
            start,
            front,
            if i < front.len() {
                i
            } else {
                0
            },
        );
        let l = least(start, front);
        let g = greatest(start, front);
        if front.contains(l) {
            let k = choose|k: int| 0 <= k < front.len() && front[k] == l;
            assert(values[k] == l);
        }
        if front.contains(g) {
            let k = choose|k: int| 0 <= k < front.len() && front[k] == g;
            assert(values[k] == g);
        }
    }
    assert(values[values.len() - 1] == values.last());
}

} // verus!
