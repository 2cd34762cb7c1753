//! Physical quantities, and the identity of interface types.
use vstd::prelude::*;

use crate::duplicate::Duplicate;

verus! {

/// Dimensions of a physical quantity: a code that is equal for equal dimensions, and the name
/// of the quantity.
pub struct Dims {
    pub code: u64,
    pub quantity: String,
}

/// The value of `Dims`.
#[verifier::ext_equal]
pub struct DimsV {
    pub code: u64,
    pub quantity: Seq<char>,
}

impl DeepView for Dims {
    type V = DimsV;

    open spec fn deep_view(&self) -> DimsV {
        DimsV { code: self.code, quantity: self.quantity@ }
    }
}

impl Duplicate for Dims {
    fn duplicate(&self) -> (r: Self) {
        Dims { code: self.code, quantity: self.quantity.clone() }
    }
}

/// A physical quantity: its text and its dimensions.
pub struct Quantity {
    pub text: String,
    pub unit: Dims,
}

/// The value of a `Quantity`.
#[verifier::ext_equal]
pub struct QuantityV {
    pub text: Seq<char>,
    pub unit: DimsV,
}

impl DeepView for Quantity {
    type V = QuantityV;

    open spec fn deep_view(&self) -> QuantityV {
        QuantityV { text: self.text@, unit: self.unit.deep_view() }
    }
}

impl Duplicate for Quantity {
    fn duplicate(&self) -> (r: Self) {
        Quantity { text: self.text.clone(), unit: self.unit.duplicate() }
    }
}

/// Identity and names of an interface type.
pub struct InterfaceHead {
    pub id: u64,
    pub name: String,
    pub kind_name: String,
}

/// The value of an `InterfaceHead`.
#[verifier::ext_equal]
pub struct HeadV {
    pub id: u64,
    pub name: Seq<char>,
    pub kind_name: Seq<char>,
}

impl DeepView for InterfaceHead {
    type V = HeadV;

    open spec fn deep_view(&self) -> HeadV {
        HeadV { id: self.id, name: self.name@, kind_name: self.kind_name@ }
    }
}

impl Duplicate for InterfaceHead {
    fn duplicate(&self) -> (r: Self) {
        InterfaceHead { id: self.id, name: self.name.clone(), kind_name: self.kind_name.clone() }
    }
}

} // verus!
