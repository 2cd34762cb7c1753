//! Decimal numbers with a fixed number of places.
use vstd::prelude::*;

use crate::duplicate::Duplicate;

verus! {

/// The largest mantissa: the largest number of 96 bits.
pub const MAX_MANTISSA: i128 = 0xffff_ffff_ffff_ffff_ffff_ffff;

/// The largest number of places.
pub const MAX_PLACES: u32 = 28;

/// A decimal number: a mantissa and the number of its digits behind the point.
pub struct Fixed {
    mantissa: i128,
    places: u32,
}

/// The value of a `Fixed`.
pub struct FixedV {
    pub mantissa: int,
    pub places: nat,
}

impl DeepView for Fixed {
    type V = FixedV;

    closed spec fn deep_view(&self) -> FixedV {
        FixedV { mantissa: self.mantissa as int, places: self.places as nat }
    }
}

/// A power of ten.
pub open spec fn ten_to(n: nat) -> nat
    decreases n,
{
    if n == 0 {
        1
    } else {
        10 * ten_to((n - 1) as nat)
    }
}

/// `a` is the smaller number.
pub open spec fn fixed_below(a: FixedV, b: FixedV) -> bool {
    a.mantissa * ten_to(b.places) < b.mantissa * ten_to(a.places)
}

/// The mantissa and the number of places are in range.
pub open spec fn in_range(mantissa: int, places: int) -> bool {
    -(MAX_MANTISSA as int) <= mantissa <= MAX_MANTISSA && 0 <= places <= MAX_PLACES
}

/// Compares two numbers with `<` of `rust_decimal::Decimal`, which compares by value whatever
/// the numbers of places; `Decimal::from_i128_with_scale` makes the operands and panics outside
/// the stated range.
#[verifier::external_body]
fn decimal_less(a: i128, a_places: u32, b: i128, b_places: u32) -> (r: bool)
    requires
        in_range(a as int, a_places as int),
        in_range(b as int, b_places as int),
    ensures
        r == (a * ten_to(b_places as nat) < b * ten_to(a_places as nat)),
{
    rust_decimal::Decimal::from_i128_with_scale(a, a_places)
        < rust_decimal::Decimal::from_i128_with_scale(b, b_places)
}

impl Fixed {
    #[verifier::type_invariant]
    spec fn valid(self) -> bool {
        in_range(self.mantissa as int, self.places as int)
    }

    /// The number, where mantissa and places are in range.
    pub fn new(mantissa: i128, places: u32) -> (r: Option<Fixed>)
        ensures
            match r {
                Some(x) => in_range(mantissa as int, places as int) && x.deep_view() == (FixedV {
                    mantissa: mantissa as int,
                    places: places as nat,
                }),
                None => !in_range(mantissa as int, places as int),
            },
    {
        if -MAX_MANTISSA <= mantissa && mantissa <= MAX_MANTISSA && places <= MAX_PLACES {
            Some(Fixed { mantissa, places })
        } else {
            None
        }
    }

    /// Whether the number is smaller than the other.
    pub fn less(&self, other: &Fixed) -> (r: bool)
        ensures
            r == fixed_below(self.deep_view(), other.deep_view()),
    {
        proof {
            use_type_invariant(self);
            use_type_invariant(other);
        }
        decimal_less(self.mantissa, self.places, other.mantissa, other.places)
    }

    /// Whether the number is greater than zero.
    pub fn positive(&self) -> (r: bool)
        ensures
            r == (self.deep_view().mantissa > 0),
    {
        self.mantissa > 0
    }
}

impl Duplicate for Fixed {
    fn duplicate(&self) -> (r: Self) {
        proof {
            use_type_invariant(self);
        }
        Fixed { mantissa: self.mantissa, places: self.places }
    }
}

/// Of two numbers at most one is the smaller, and trailing zeros behind the point change
/// nothing: a number is neither smaller nor greater than itself with one more place.
pub proof fn fixed_order(a: FixedV, b: FixedV)
    ensures
        !(fixed_below(a, b) && fixed_below(b, a)),
        !fixed_below(a, FixedV { mantissa: a.mantissa * 10, places: a.places + 1 }),
        !fixed_below(FixedV { mantissa: a.mantissa * 10, places: a.places + 1 }, a),
{
    let m = a.mantissa;
    let t = ten_to(a.places) as int;
    assert(ten_to(a.places + 1) == 10 * t);
    assert(m * (10 * t) == (m * 10) * t) by (nonlinear_arith);
}

} // verus!
