//! The netlist of a design: nets with their properties, and component instances.
use vstd::prelude::*;

use crate::duplicate::Duplicate;
use crate::json::{Json, JsonV};
use crate::netlist::fixed::{Fixed, FixedV};
use crate::number::Real;
use crate::text::same;

verus! {

/// The unit of a physical value, as far as it matters here.
#[derive(Clone, Copy, Debug, PartialEq, Eq, Structural)]
pub enum Unit {
    Ohms,
    Amperes,
    Other,
}

impl DeepView for Unit {
    type V = Unit;

    open spec fn deep_view(&self) -> Unit {
        *self
    }
}

/// A physical value: its nominal value exactly and in binary form, its unit, its text.
pub struct Physical {
    pub nominal: Fixed,
    pub real: Option<Real>,
    pub unit: Unit,
    pub text: String,
}

/// The value of a `Physical`.
#[verifier::ext_equal]
pub struct PhysicalV {
    pub nominal: FixedV,
    pub real: Option<Real>,
    pub unit: Unit,
    pub text: Seq<char>,
}

impl DeepView for Physical {
    type V = PhysicalV;

    open spec fn deep_view(&self) -> PhysicalV {
        PhysicalV {
            nominal: self.nominal.deep_view(),
            real: self.real,
            unit: self.unit,
            text: self.text@,
        }
    }
}

/// An attribute of a net or a component, by what it can be read as.
pub struct Attribute {
    /// The text, where the attribute is a text.
    pub text: Option<String>,
    /// The physical value that it is or spells.
    pub physical: Option<Physical>,
    /// The whole part, where the attribute is a number.
    pub whole: Option<u64>,
    /// The items, where the attribute is a list: the texts among them, `None` for the others.
    pub list: Option<Vec<Option<String>>>,
    /// The JSON tree, where the attribute is one.
    pub json: Option<Json>,
    /// The truth value, where the attribute is one.
    pub flag: Option<bool>,
}

/// The value of an `Attribute`.
#[verifier::ext_equal]
pub struct AttributeV {
    pub text: Option<Seq<char>>,
    pub physical: Option<PhysicalV>,
    pub whole: Option<u64>,
    pub list: Option<Seq<Option<Seq<char>>>>,
    pub json: Option<JsonV>,
    pub flag: Option<bool>,
}

impl DeepView for Attribute {
    type V = AttributeV;

    open spec fn deep_view(&self) -> AttributeV {
        AttributeV {
            text: self.text.deep_view(),
            physical: self.physical.deep_view(),
            whole: self.whole,
            list: self.list.deep_view(),
            json: self.json.deep_view(),
            flag: self.flag,
        }
    }
}

/// An attribute that is a text.
pub open spec fn text_attribute(s: Seq<char>) -> AttributeV {
    AttributeV { text: Some(s), physical: None, whole: None, list: None, json: None, flag: None }
}

/// An attribute that is a truth value.
pub open spec fn flag_attribute(b: bool) -> AttributeV {
    AttributeV { text: None, physical: None, whole: None, list: None, json: None, flag: Some(b) }
}

/// An attribute that is a JSON tree.
pub open spec fn json_attribute(j: JsonV) -> AttributeV {
    AttributeV { text: None, physical: None, whole: None, list: None, json: Some(j), flag: None }
}

impl Attribute {
    /// An attribute that is a text.
    pub fn from_text(s: String) -> (r: Attribute)
        ensures
            r.deep_view() == text_attribute(s@),
    {
        Attribute { text: Some(s), physical: None, whole: None, list: None, json: None, flag: None }
    }

    /// An attribute that is a truth value.
    pub fn from_flag(b: bool) -> (r: Attribute)
        ensures
            r.deep_view() == flag_attribute(b),
    {
        Attribute { text: None, physical: None, whole: None, list: None, json: None, flag: Some(b) }
    }

    /// An attribute that is a JSON tree.
    pub fn from_json(j: Json) -> (r: Attribute)
        ensures
            r.deep_view() == json_attribute(j.value()),
    {
        Attribute { text: None, physical: None, whole: None, list: None, json: Some(j), flag: None }
    }
}

/// The attribute of the given name.
pub open spec fn find_attribute(list: Seq<(Seq<char>, AttributeV)>, key: Seq<char>) -> Option<
    AttributeV,
>
    decreases list.len(),
{
    if list.len() == 0 {
        None
    } else if list[0].0 == key {
        Some(list[0].1)
    } else {
        find_attribute(list.drop_first(), key)
    }
}

/// The attribute of the given name.
pub fn attribute<'a>(list: &'a Vec<(String, Attribute)>, key: &str) -> (r: Option<&'a Attribute>)
    ensures
        match r {
            Some(a) => find_attribute(list.deep_view(), key@) == Some(a.deep_view()),
            None => find_attribute(list.deep_view(), key@) is None,
        },
{
    let ghost all = list.deep_view();
    let n: usize = list.len();
    let mut i: usize = 0;
    assert(all.skip(0) =~= all);
    while i < n
        invariant
            n == list@.len(),
            all == list.deep_view(),
            i <= n,
            find_attribute(all, key@) == find_attribute(all.skip(i as int), key@),
        decreases n - i,
    {
        assert(all.skip(i as int).drop_first() =~= all.skip(i + 1));
        assert(all.skip(i as int)[0] == (list@[i as int].0@, list@[i as int].1.deep_view()));
        if same(list[i].0.as_str(), key) {
            return Some(&list[i].1);
        }
        i += 1;
    }
    None
}

/// The attributes with `key` set to `v`: in place of the attribute of that name, else at the
/// end.
pub open spec fn set_attribute(
    list: Seq<(Seq<char>, AttributeV)>,
    key: Seq<char>,
    v: AttributeV,
) -> Seq<(Seq<char>, AttributeV)>
    decreases list.len(),
{
    if list.len() == 0 {
        seq![(key, v)]
    } else if list[0].0 == key {
        seq![(key, v)] + list.drop_first()
    } else {
        seq![list[0]] + set_attribute(list.drop_first(), key, v)
    }
}

/// An attribute that was set is found; the others are as they were.
pub proof fn set_attribute_is_found(
    list: Seq<(Seq<char>, AttributeV)>,
    key: Seq<char>,
    v: AttributeV,
    other: Seq<char>,
)
    ensures
        find_attribute(set_attribute(list, key, v), other) == if other == key {
            Some(v)
        } else {
            find_attribute(list, other)
        },
    decreases list.len(),
{
    let r = set_attribute(list, key, v);
    if list.len() == 0 {
        assert(r.drop_first() =~= list);
    } else if list[0].0 == key {
        assert(r.drop_first() =~= list.drop_first());
    } else {
        set_attribute_is_found(list.drop_first(), key, v, other);
        assert(r.drop_first() =~= set_attribute(list.drop_first(), key, v));
    }
}

proof fn set_at(list: Seq<(Seq<char>, AttributeV)>, key: Seq<char>, v: AttributeV, at: int)
    requires
        0 <= at <= list.len(),
        forall|i: int| 0 <= i < at ==> (#[trigger] list[i]).0 != key,
        at < list.len() ==> list[at].0 == key,
    ensures
        set_attribute(list, key, v) == if at < list.len() {
            list.update(at, (key, v))
        } else {
            list.push((key, v))
        },
    decreases list.len(),
{
    let want = if at < list.len() {
        list.update(at, (key, v))
    } else {
        list.push((key, v))
    };
    if at == 0 {
        assert(set_attribute(list, key, v) =~= want);
    } else {
        let rest = list.drop_first();
        assert(list[0].0 != key);
        assert forall|i: int| 0 <= i < at - 1 implies (#[trigger] rest[i]).0 != key by {
            assert(rest[i] == list[i + 1]);
        }
        set_at(rest, key, v, at - 1);
        assert(set_attribute(list, key, v) =~= want);
    }
}

/// Sets an attribute.
pub fn put_attribute(list: &mut Vec<(String, Attribute)>, key: &str, v: Attribute)
    ensures
        final(list).deep_view() == set_attribute(old(list).deep_view(), key@, v.deep_view()),
{
    let ghost all = list.deep_view();
    let n: usize = list.len();
    let mut i: usize = 0;
    while i < n
        invariant
            *list == *old(list),
            n == list@.len(),
            all == list.deep_view(),
            i <= n,
            forall|j: int| 0 <= j < i ==> (#[trigger] all[j]).0 != key@,
        decreases n - i,
    {
        assert(all[i as int] == (list@[i as int].0@, list@[i as int].1.deep_view()));
        if same(list[i].0.as_str(), key) {
            proof {
                set_at(all, key@, v.deep_view(), i as int);
            }
            let ghost want = all.update(i as int, (key@, v.deep_view()));
            list.set(i, (key.to_string(), v));
            assert(list.deep_view() =~= want);
            return ;
        }
        i += 1;
    }
    proof {
        set_at(all, key@, v.deep_view(), n as int);
    }
    let ghost want = all.push((key@, v.deep_view()));
    list.push((key.to_string(), v));
    assert(list.deep_view() =~= want);
}

/// Where an instance stands: the module that it belongs to, and the path inside it.
pub struct InstanceRef {
    pub module: String,
    pub path: Vec<String>,
}

/// The value of an `InstanceRef`.
#[verifier::ext_equal]
pub struct InstanceRefV {
    pub module: Seq<char>,
    pub path: Seq<Seq<char>>,
}

impl DeepView for InstanceRef {
    type V = InstanceRefV;

    open spec fn deep_view(&self) -> InstanceRefV {
        InstanceRefV { module: self.module@, path: self.path.deep_view() }
    }
}

impl Duplicate for InstanceRef {
    fn duplicate(&self) -> (r: Self) {
        InstanceRef { module: self.module.clone(), path: self.path.duplicate() }
    }
}

/// Whether two lists hold the same texts in the same order.
pub fn same_path(a: &Vec<String>, b: &Vec<String>) -> (r: bool)
    ensures
        r == (a.deep_view() == b.deep_view()),
{
    if a.len() != b.len() {
        assert(a.deep_view().len() != b.deep_view().len());
        return false;
    }
    let n: usize = a.len();
    let mut i: usize = 0;
    while i < n
        invariant
            n == a@.len(),
            n == b@.len(),
            i <= n,
            forall|j: int| 0 <= j < i ==> a.deep_view()[j] == b.deep_view()[j],
        decreases n - i,
    {
        if !same(a[i].as_str(), b[i].as_str()) {
            assert(a.deep_view()[i as int] != b.deep_view()[i as int]);
            return false;
        }
        assert(a.deep_view()[i as int] == b.deep_view()[i as int]);
        i += 1;
    }
    assert(a.deep_view() =~= b.deep_view());
    true
}

impl InstanceRef {
    /// Whether the two name the same instance.
    pub fn same(&self, other: &InstanceRef) -> (r: bool)
        ensures
            r == (self.deep_view() == other.deep_view()),
    {
        let a: bool = same(self.module.as_str(), other.module.as_str());
        let b: bool = same_path(&self.path, &other.path);
        a && b
    }
}

/// A port of a net, and the component pin that it is, where it is one.
pub struct Port {
    pub at: InstanceRef,
    pub pin: Option<(InstanceRef, String)>,
}

/// The value of a `Port`.
#[verifier::ext_equal]
pub struct PortV {
    pub at: InstanceRefV,
    pub pin: Option<(InstanceRefV, Seq<char>)>,
}

impl DeepView for Port {
    type V = PortV;

    open spec fn deep_view(&self) -> PortV {
        PortV { at: self.at.deep_view(), pin: self.pin.deep_view() }
    }
}

/// A net.
pub struct Net {
    pub id: u64,
    pub name: String,
    pub kind: String,
    pub ports: Vec<Port>,
    pub properties: Vec<(String, Attribute)>,
}

/// The value of a `Net`.
#[verifier::ext_equal]
pub struct NetV {
    pub id: u64,
    pub name: Seq<char>,
    pub kind: Seq<char>,
    pub ports: Seq<PortV>,
    pub properties: Seq<(Seq<char>, AttributeV)>,
}

impl DeepView for Net {
    type V = NetV;

    open spec fn deep_view(&self) -> NetV {
        NetV {
            id: self.id,
            name: self.name@,
            kind: self.kind@,
            ports: self.ports.deep_view(),
            properties: self.properties.deep_view(),
        }
    }
}

/// An instance of a module or a component.
pub struct Instance {
    pub at: InstanceRef,
    pub component: bool,
    pub reference_designator: Option<String>,
    pub attributes: Vec<(String, Attribute)>,
}

/// The value of an `Instance`.
#[verifier::ext_equal]
pub struct InstanceV {
    pub at: InstanceRefV,
    pub component: bool,
    pub reference_designator: Option<Seq<char>>,
    pub attributes: Seq<(Seq<char>, AttributeV)>,
}

impl DeepView for Instance {
    type V = InstanceV;

    open spec fn deep_view(&self) -> InstanceV {
        InstanceV {
            at: self.at.deep_view(),
            component: self.component,
            reference_designator: self.reference_designator.deep_view(),
            attributes: self.attributes.deep_view(),
        }
    }
}

/// A netlist.
pub struct Schematic {
    pub nets: Vec<Net>,
    pub instances: Vec<Instance>,
}

/// The value of a `Schematic`.
#[verifier::ext_equal]
pub struct SchematicV {
    pub nets: Seq<NetV>,
    pub instances: Seq<InstanceV>,
}

impl DeepView for Schematic {
    type V = SchematicV;

    open spec fn deep_view(&self) -> SchematicV {
        SchematicV { nets: self.nets.deep_view(), instances: self.instances.deep_view() }
    }
}

/// The instance at the given place.
pub open spec fn instance_at(instances: Seq<InstanceV>, at: InstanceRefV) -> Option<InstanceV>
    decreases instances.len(),
{
    if instances.len() == 0 {
        None
    } else if instances[0].at == at {
        Some(instances[0])
    } else {
        instance_at(instances.drop_first(), at)
    }
}

/// The instance at the given place.
pub fn find_instance<'a>(instances: &'a Vec<Instance>, at: &InstanceRef) -> (r: Option<
    &'a Instance,
>)
    ensures
        match r {
            Some(x) => instance_at(instances.deep_view(), at.deep_view()) == Some(x.deep_view()),
            None => instance_at(instances.deep_view(), at.deep_view()) is None,
        },
{
    let ghost all = instances.deep_view();
    let n: usize = instances.len();
    let mut i: usize = 0;
    assert(all.skip(0) =~= all);
    while i < n
        invariant
            n == instances@.len(),
            all == instances.deep_view(),
            i <= n,
            instance_at(all, at.deep_view()) == instance_at(all.skip(i as int), at.deep_view()),
        decreases n - i,
    {
        assert(all.skip(i as int).drop_first() =~= all.skip(i + 1));
        assert(all.skip(i as int)[0] == instances@[i as int].deep_view());
        if instances[i].at.same(at) {
            return Some(&instances[i]);
        }
        i += 1;
    }
    None
}

/// The physical value of the attribute of the given name.
pub open spec fn find_physical(list: Seq<(Seq<char>, AttributeV)>, key: Seq<char>) -> Option<
    PhysicalV,
> {
    match find_attribute(list, key) {
        Some(a) => a.physical,
        None => None,
    }
}

/// The text of the attribute of the given name.
pub open spec fn find_text(list: Seq<(Seq<char>, AttributeV)>, key: Seq<char>) -> Option<
    Seq<char>,
> {
    match find_attribute(list, key) {
        Some(a) => a.text,
        None => None,
    }
}

/// The physical value of the attribute of the given name.
pub fn attribute_physical<'a>(list: &'a Vec<(String, Attribute)>, key: &str) -> (r: Option<
    &'a Physical,
>)
    ensures
        match r {
            Some(p) => find_physical(list.deep_view(), key@) == Some(p.deep_view()),
            None => find_physical(list.deep_view(), key@) is None,
        },
{
    match attribute(list, key) {
        Some(a) => match &a.physical {
            Some(p) => Some(p),
            None => None,
        },
        None => None,
    }
}

/// The text of the attribute of the given name.
pub fn attribute_text<'a>(list: &'a Vec<(String, Attribute)>, key: &str) -> (r: Option<
    &'a String,
>)
    ensures
        match r {
            Some(s) => find_text(list.deep_view(), key@) == Some(s@),
            None => find_text(list.deep_view(), key@) is None,
        },
{
    match attribute(list, key) {
        Some(a) => match &a.text {
            Some(s) => Some(s),
            None => None,
        },
        None => None,
    }
}

} // verus!
