//! Values of the configuration language, as far as the pin model reads them.
use vstd::prelude::*;

use crate::json::{Json, JsonV};
use crate::pinmux::model::{PinLock, PinLockV};
use crate::pinmux::physical::{Dims, DimsV, HeadV, InterfaceHead, Quantity, QuantityV};

verus! {

/// A value.
pub enum Value {
    /// No value.
    Nothing,
    Bool(bool),
    Int(i64),
    /// A number that is no 64-bit integer: its text, and whether it differs from zero.
    Float(String, bool),
    Str(String),
    List(Vec<Value>),
    /// Entries in order, each key once.
    Dict(Vec<(Value, Value)>),
    /// A value with pins that its connection is constrained to, and whether the constraint
    /// is soft.
    At(Box<Value>, PinLock, bool),
    /// A net: identity, display name, type name.
    Net(u64, String, String),
    /// A net type: type name.
    NetType(String),
    /// An interface instance: fields in declaration order, type name.
    Interface(Vec<(String, Value)>, String),
    /// An interface type: identity and names, fields in declaration order, implied
    /// interface types, declared attributes.
    InterfaceType(InterfaceHead, Vec<(String, Value)>, Vec<Value>, Vec<(String, Value)>),
    /// A physical quantity, its type name and its JSON form.
    Physical(Quantity, String, Option<Json>),
    /// The type of a physical quantity, and its type name.
    PhysicalType(Dims, String),
    /// Any other value: type name, truth, and JSON form where it has one.
    Other(String, bool, Option<Json>),
}

/// The mathematical value of a `Value`.
pub enum ValueV {
    Nothing,
    Bool(bool),
    Int(i64),
    Float(Seq<char>, bool),
    Str(Seq<char>),
    List(Seq<ValueV>),
    Dict(Seq<(ValueV, ValueV)>),
    At(Box<ValueV>, PinLockV, bool),
    Net(u64, Seq<char>, Seq<char>),
    NetType(Seq<char>),
    Interface(Seq<(Seq<char>, ValueV)>, Seq<char>),
    InterfaceType(HeadV, Seq<(Seq<char>, ValueV)>, Seq<ValueV>, Seq<(Seq<char>, ValueV)>),
    Physical(QuantityV, Seq<char>, Option<JsonV>),
    PhysicalType(DimsV, Seq<char>),
    Other(Seq<char>, bool, Option<JsonV>),
}

impl Value {
    pub open spec fn value(self) -> ValueV
        decreases self,
    {
        match self {
            Value::Nothing => ValueV::Nothing,
            Value::Bool(a) => ValueV::Bool(a),
            Value::Int(a) => ValueV::Int(a),
            Value::Float(a, b) => ValueV::Float(a@, b),
            Value::Str(a) => ValueV::Str(a@),
            Value::List(a) => ValueV::List(Seq::new(a@.len(), |i: int| if 0 <= i < a@.len() { a@[i].value() } else { ValueV::Nothing })),
            Value::Dict(a) => ValueV::Dict(Seq::new(a@.len(), |i: int| if 0 <= i < a@.len() { (a@[i].0.value(), a@[i].1.value()) } else { (ValueV::Nothing, ValueV::Nothing) })),
            Value::At(a, b, c) => ValueV::At(Box::new((*a).value()), b.deep_view(), c),
            Value::Net(a, b, c) => ValueV::Net(a, b@, c@),
            Value::NetType(a) => ValueV::NetType(a@),
            Value::Interface(a, b) => ValueV::Interface(Seq::new(a@.len(), |i: int| if 0 <= i < a@.len() { (a@[i].0@, a@[i].1.value()) } else { (Seq::empty(), ValueV::Nothing) }), b@),
            Value::InterfaceType(a, b, c, d) => ValueV::InterfaceType(a.deep_view(), Seq::new(b@.len(), |i: int| if 0 <= i < b@.len() { (b@[i].0@, b@[i].1.value()) } else { (Seq::empty(), ValueV::Nothing) }), Seq::new(c@.len(), |i: int| if 0 <= i < c@.len() { c@[i].value() } else { ValueV::Nothing }), Seq::new(d@.len(), |i: int| if 0 <= i < d@.len() { (d@[i].0@, d@[i].1.value()) } else { (Seq::empty(), ValueV::Nothing) })),
            Value::Physical(a, b, c) => ValueV::Physical(a.deep_view(), b@, c.deep_view()),
            Value::PhysicalType(a, b) => ValueV::PhysicalType(a.deep_view(), b@),
            Value::Other(a, b, c) => ValueV::Other(a@, b, c.deep_view()),
        }
    }
}

impl DeepView for Value {
    type V = ValueV;

    open spec fn deep_view(&self) -> ValueV {
        self.value()
    }
}

} // verus!
