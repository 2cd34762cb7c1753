//! Access to values: copies, dict entries, truth, type names.
use vstd::prelude::*;

use crate::duplicate::Duplicate;
use crate::pinmux::value::{Value, ValueV};
use crate::text::same;

verus! {

/// The entries of a container are its items' values.
pub proof fn contents_are_values(v: Value)
    ensures
        match v {
            Value::List(a) => v.value() == ValueV::List(a.deep_view()),
            Value::Dict(a) => v.value() == ValueV::Dict(a.deep_view()),
            Value::Interface(a, t) => v.value() == ValueV::Interface(a.deep_view(), t@),
            Value::InterfaceType(h, a, b, c) => v.value() == ValueV::InterfaceType(
                h.deep_view(),
                a.deep_view(),
                b.deep_view(),
                c.deep_view(),
            ),
            _ => true,
        },
{
    match v {
        Value::List(a) => {
            assert(v.value()->List_0 =~= a.deep_view());
        },
        Value::Dict(a) => {
            assert(v.value()->Dict_0 =~= a.deep_view());
        },
        Value::Interface(a, t) => {
            assert(v.value()->Interface_0 =~= a.deep_view());
        },
        Value::InterfaceType(h, a, b, c) => {
            assert(v.value()->InterfaceType_1 =~= a.deep_view());
            assert(v.value()->InterfaceType_2 =~= b.deep_view());
            assert(v.value()->InterfaceType_3 =~= c.deep_view());
        },
        _ => {},
    }
}

/// A copy of the values.
fn copy_list(list: &Vec<Value>) -> (r: Vec<Value>)
    ensures
        r@.len() == list@.len(),
        forall|j: int| 0 <= j < r@.len() ==> (#[trigger] r@[j]).value() == list@[j].value(),
    decreases list,
{
    let mut out: Vec<Value> = Vec::new();
    let n: usize = list.len();
    let mut i: usize = 0;
    while i < n
        invariant
            n == list@.len(),
            i <= n,
            out@.len() == i,
            forall|j: int| 0 <= j < i ==> (#[trigger] out@[j]).value() == list@[j].value(),
        decreases n - i,
    {
        assert(decreases_to!(*list => list@));
        assert(decreases_to!(list@ => list@[i as int]));
        out.push(list[i].copy());
        i += 1;
    }
    out
}

/// A copy of the entries.
fn copy_entries(list: &Vec<(Value, Value)>) -> (r: Vec<(Value, Value)>)
    ensures
        r@.len() == list@.len(),
        forall|j: int|
            0 <= j < r@.len() ==> (#[trigger] r@[j]).0.value() == list@[j].0.value()
                && r@[j].1.value() == list@[j].1.value(),
    decreases list,
{
    let mut out: Vec<(Value, Value)> = Vec::new();
    let n: usize = list.len();
    let mut i: usize = 0;
    while i < n
        invariant
            n == list@.len(),
            i <= n,
            out@.len() == i,
            forall|j: int|
                0 <= j < i ==> (#[trigger] out@[j]).0.value() == list@[j].0.value()
                    && out@[j].1.value() == list@[j].1.value(),
        decreases n - i,
    {
        assert(decreases_to!(*list => list@));
        assert(decreases_to!(list@ => list@[i as int]));
        assert(decreases_to!(list@[i as int] => list@[i as int].0));
        assert(decreases_to!(list@[i as int] => list@[i as int].1));
        out.push((list[i].0.copy(), list[i].1.copy()));
        i += 1;
    }
    out
}

/// A copy of the fields.
fn copy_fields(list: &Vec<(String, Value)>) -> (r: Vec<(String, Value)>)
    ensures
        r@.len() == list@.len(),
        forall|j: int|
            0 <= j < r@.len() ==> (#[trigger] r@[j]).0@ == list@[j].0@ && r@[j].1.value()
                == list@[j].1.value(),
    decreases list,
{
    let mut out: Vec<(String, Value)> = Vec::new();
    let n: usize = list.len();
    let mut i: usize = 0;
    while i < n
        invariant
            n == list@.len(),
            i <= n,
            out@.len() == i,
            forall|j: int|
                0 <= j < i ==> (#[trigger] out@[j]).0@ == list@[j].0@ && out@[j].1.value()
                    == list@[j].1.value(),
        decreases n - i,
    {
        assert(decreases_to!(*list => list@));
        assert(decreases_to!(list@ => list@[i as int]));
        assert(decreases_to!(list@[i as int] => list@[i as int].1));
        out.push((list[i].0.clone(), list[i].1.copy()));
        i += 1;
    }
    out
}

impl Value {
    /// A copy of the value.
    pub fn copy(&self) -> (r: Value)
        ensures
            r.value() == self.value(),
        decreases self,
    {
        match self {
            Value::Nothing => Value::Nothing,
            Value::Bool(a) => Value::Bool(*a),
            Value::Int(a) => Value::Int(*a),
            Value::Float(a, b) => Value::Float(a.clone(), *b),
            Value::Str(a) => Value::Str(a.clone()),
            Value::List(a) => {
                assert(decreases_to!(*self => self->List_0));
                let r = Value::List(copy_list(a));
                assert(r.value()->List_0 =~= self.value()->List_0);
                r
            },
            Value::Dict(a) => {
                assert(decreases_to!(*self => self->Dict_0));
                let r = Value::Dict(copy_entries(a));
                assert(r.value()->Dict_0 =~= self.value()->Dict_0);
                r
            },
            Value::At(a, b, c) => {
                assert(decreases_to!(*self => self->At_0));
                Value::At(Box::new((**a).copy()), b.duplicate(), *c)
            },
            Value::Net(a, b, c) => Value::Net(*a, b.clone(), c.clone()),
            Value::NetType(a) => Value::NetType(a.clone()),
            Value::Interface(a, b) => {
                assert(decreases_to!(*self => self->Interface_0));
                let r = Value::Interface(copy_fields(a), b.clone());
                assert(r.value()->Interface_0 =~= self.value()->Interface_0);
                r
            },
            Value::InterfaceType(a, b, c, d) => {
                assert(decreases_to!(*self => self->InterfaceType_1));
                assert(decreases_to!(*self => self->InterfaceType_2));
                assert(decreases_to!(*self => self->InterfaceType_3));
                let r = Value::InterfaceType(
                    a.duplicate(),
                    copy_fields(b),
                    copy_list(c),
                    copy_fields(d),
                );
                assert(r.value()->InterfaceType_1 =~= self.value()->InterfaceType_1);
                assert(r.value()->InterfaceType_2 =~= self.value()->InterfaceType_2);
                assert(r.value()->InterfaceType_3 =~= self.value()->InterfaceType_3);
                r
            },
            Value::Physical(a, b, c) => Value::Physical(a.duplicate(), b.clone(), c.duplicate()),
            Value::PhysicalType(a, b) => Value::PhysicalType(a.duplicate(), b.clone()),
            Value::Other(a, b, c) => Value::Other(a.clone(), *b, c.duplicate()),
        }
    }
}

impl Duplicate for Value {
    fn duplicate(&self) -> (r: Self) {
        self.copy()
    }
}

/// The entry for the text `key`.
pub open spec fn dict_find(entries: Seq<(ValueV, ValueV)>, key: Seq<char>) -> Option<ValueV>
    decreases entries.len(),
{
    if entries.len() == 0 {
        None
    } else if entries[0].0 == ValueV::Str(key) {
        Some(entries[0].1)
    } else {
        dict_find(entries.drop_first(), key)
    }
}

/// The text that a value is.
pub open spec fn text_of(v: ValueV) -> Option<Seq<char>> {
    match v {
        ValueV::Str(s) => Some(s),
        _ => None,
    }
}

/// The entry for `key`, where it is a text.
pub open spec fn dict_text(entries: Seq<(ValueV, ValueV)>, key: Seq<char>) -> Option<Seq<char>> {
    match dict_find(entries, key) {
        Some(v) => text_of(v),
        None => None,
    }
}

/// The value is a dict of the given kind.
pub open spec fn is_of_kind(v: ValueV, kind: Seq<char>) -> bool {
    match v {
        ValueV::Dict(d) => dict_text(d, "kind"@) == Some(kind),
        _ => false,
    }
}

/// The truth of a value.
pub open spec fn truth(v: ValueV) -> bool {
    match v {
        ValueV::Nothing => false,
        ValueV::Bool(b) => b,
        ValueV::Int(i) => i != 0,
        ValueV::Float(_, nonzero) => nonzero,
        ValueV::Str(s) => s.len() > 0,
        ValueV::List(a) => a.len() > 0,
        ValueV::Dict(a) => a.len() > 0,
        ValueV::Other(_, t, _) => t,
        _ => true,
    }
}

/// The truth of the entry for `key`; false where there is none.
pub open spec fn dict_truth(entries: Seq<(ValueV, ValueV)>, key: Seq<char>) -> bool {
    match dict_find(entries, key) {
        Some(v) => truth(v),
        None => false,
    }
}

/// The name of the value's type.
pub open spec fn type_text(v: ValueV) -> Seq<char> {
    match v {
        ValueV::Nothing => "NoneType"@,
        ValueV::Bool(_) => "bool"@,
        ValueV::Int(_) => "int"@,
        ValueV::Float(_, _) => "float"@,
        ValueV::Str(_) => "string"@,
        ValueV::List(_) => "list"@,
        ValueV::Dict(_) => "dict"@,
        ValueV::At(_, _, _) => "PinAt"@,
        ValueV::Net(_, _, t) => t,
        ValueV::NetType(t) => t,
        ValueV::Interface(_, t) => t,
        ValueV::InterfaceType(h, _, _, _) => h.kind_name,
        ValueV::Physical(_, t, _) => t,
        ValueV::PhysicalType(_, t) => t,
        ValueV::Other(t, _, _) => t,
    }
}

/// The entry for the text `key`.
pub fn dict_get<'a>(entries: &'a Vec<(Value, Value)>, key: &str) -> (r: Option<&'a Value>)
    ensures
        match r {
            Some(v) => dict_find(entries.deep_view(), key@) == Some(v.value()),
            None => dict_find(entries.deep_view(), key@) is None,
        },
{
    let ghost all = entries.deep_view();
    let n: usize = entries.len();
    let mut i: usize = 0;
    assert(all.skip(0) =~= all);
    while i < n
        invariant
            n == entries@.len(),
            all == entries.deep_view(),
            i <= n,
            dict_find(all, key@) == dict_find(all.skip(i as int), key@),
        decreases n - i,
    {
        assert(all.skip(i as int).drop_first() =~= all.skip(i + 1));
        assert(all.skip(i as int)[0] == (entries@[i as int].0.value(), entries@[i as int].1.value()));
        if let Value::Str(k) = &entries[i].0 {
            if same(k.as_str(), key) {
                return Some(&entries[i].1);
            }
        }
        i += 1;
    }
    None
}

/// The entry for `key`, where it is a text.
pub fn dict_get_str(entries: &Vec<(Value, Value)>, key: &str) -> (r: Option<String>)
    ensures
        r.deep_view() == dict_text(entries.deep_view(), key@),
{
    match dict_get(entries, key) {
        Some(Value::Str(s)) => Some(s.clone()),
        _ => None,
    }
}

/// The truth of the entry for `key`; false where there is none.
pub fn dict_get_truth(entries: &Vec<(Value, Value)>, key: &str) -> (r: bool)
    ensures
        r == dict_truth(entries.deep_view(), key@),
{
    match dict_get(entries, key) {
        Some(v) => v.to_bool(),
        None => false,
    }
}

/// Whether the dict is of the given kind.
pub fn dict_is(entries: &Vec<(Value, Value)>, kind: &str) -> (r: bool)
    ensures
        r == (dict_text(entries.deep_view(), "kind"@) == Some(kind@)),
{
    match dict_get(entries, "kind") {
        Some(Value::Str(k)) => same(k.as_str(), kind),
        _ => false,
    }
}

/// Whether the value is a dict of the given kind.
pub fn is_kind(v: &Value, kind: &str) -> (r: bool)
    ensures
        r == is_of_kind(v.value(), kind@),
{
    proof {
        contents_are_values(*v);
    }
    match v {
        Value::Dict(d) => dict_is(d, kind),
        _ => false,
    }
}

impl Value {
    /// The truth of the value.
    pub fn to_bool(&self) -> (r: bool)
        ensures
            r == truth(self.value()),
    {
        match self {
            Value::Nothing => false,
            Value::Bool(b) => *b,
            Value::Int(i) => *i != 0,
            Value::Float(_, nonzero) => *nonzero,
            Value::Str(s) => !s.as_str().is_empty(),
            Value::List(a) => a.len() > 0,
            Value::Dict(a) => a.len() > 0,
            Value::Other(_, t, _) => *t,
            _ => true,
        }
    }

    /// The name of the value's type.
    pub fn get_type(&self) -> (r: String)
        ensures
            r@ == type_text(self.value()),
    {
        match self {
            Value::Nothing => "NoneType".to_string(),
            Value::Bool(_) => "bool".to_string(),
            Value::Int(_) => "int".to_string(),
            Value::Float(_, _) => "float".to_string(),
            Value::Str(_) => "string".to_string(),
            Value::List(_) => "list".to_string(),
            Value::Dict(_) => "dict".to_string(),
            Value::At(_, _, _) => "PinAt".to_string(),
            Value::Net(_, _, t) => t.clone(),
            Value::NetType(t) => t.clone(),
            Value::Interface(_, t) => t.clone(),
            Value::InterfaceType(h, _, _, _) => h.kind_name.clone(),
            Value::Physical(_, t, _) => t.clone(),
            Value::PhysicalType(_, t) => t.clone(),
            Value::Other(t, _, _) => t.clone(),
        }
    }
}

} // verus!
