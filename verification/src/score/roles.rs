//! Roles of components, from their declared types.
use vstd::prelude::*;

use crate::netlist::schematic::{attribute_text, find_text, InstanceV, Schematic};
use crate::sorted_map::{map_put, put_entry};
use crate::text::same;

verus! {

/// The role of a component.
#[derive(Clone, Copy, Debug, PartialEq, Eq, Structural)]
pub enum Role {
    Tvs,
    Connector,
    Capacitor,
    Resistor,
    Inductor,
    FerriteBead,
    Led,
    Crystal,
    Other,
}

impl DeepView for Role {
    type V = Role;

    open spec fn deep_view(&self) -> Role {
        *self
    }
}

/// The role of the declared type.
pub open spec fn role_of(s: Seq<char>) -> Role {
    if s == "tvs"@ {
        Role::Tvs
    } else if s == "connector"@ {
        Role::Connector
    } else if s == "capacitor"@ {
        Role::Capacitor
    } else if s == "resistor"@ {
        Role::Resistor
    } else if s == "inductor"@ {
        Role::Inductor
    } else if s == "ferrite_bead"@ {
        Role::FerriteBead
    } else if s == "led"@ {
        Role::Led
    } else if s == "crystal"@ {
        Role::Crystal
    } else {
        Role::Other
    }
}

impl Role {
    /// The role of the declared type.
    pub fn parse(s: &str) -> (r: Role)
        ensures
            r == role_of(s@),
    {
        if same(s, "tvs") {
            Role::Tvs
        } else if same(s, "connector") {
            Role::Connector
        } else if same(s, "capacitor") {
            Role::Capacitor
        } else if same(s, "resistor") {
            Role::Resistor
        } else if same(s, "inductor") {
            Role::Inductor
        } else if same(s, "ferrite_bead") {
            Role::FerriteBead
        } else if same(s, "led") {
            Role::Led
        } else if same(s, "crystal") {
            Role::Crystal
        } else {
            Role::Other
        }
    }
}

/// The roles with that of one more instance: a component with a reference designator and a
/// declared type.
pub open spec fn with_role(roles: Seq<(Seq<char>, Role)>, i: InstanceV) -> Seq<(Seq<char>, Role)> {
    match (i.reference_designator, find_text(i.attributes, "type"@)) {
        (Some(refdes), Some(t)) => if i.component {
            map_put::<String, Role>(roles, refdes, role_of(t))
        } else {
            roles
        },
        _ => roles,
    }
}

/// The roles of the instances, by reference designator.
pub open spec fn roles_of(instances: Seq<InstanceV>) -> Seq<(Seq<char>, Role)>
    decreases instances.len(),
{
    if instances.len() == 0 {
        Seq::empty()
    } else {
        with_role(roles_of(instances.drop_last()), instances.last())
    }
}

/// The roles of the components that declare a type, by reference designator.
pub fn component_roles(schematic: &Schematic) -> (r: Vec<(String, Role)>)
    ensures
        r.deep_view() == roles_of(schematic.deep_view().instances),
{
    let ghost iv = schematic.deep_view().instances;
    let n: usize = schematic.instances.len();
    let mut out: Vec<(String, Role)> = Vec::new();
    let mut i: usize = 0;
    assert(out.deep_view() =~= roles_of(iv.take(0)));
    while i < n
        invariant
            n == schematic.instances@.len(),
            i <= n,
            iv == schematic.deep_view().instances,
            out.deep_view() == roles_of(iv.take(i as int)),
        decreases n - i,
    {
        assert(iv.take(i + 1).drop_last() =~= iv.take(i as int));
        assert(iv[i as int] == schematic.instances@[i as int].deep_view());
        let instance = &schematic.instances[i];
        let kind = attribute_text(&instance.attributes, "type");
        match (&instance.reference_designator, kind) {
            (Some(refdes), Some(t)) => {
                if instance.component {
                    put_entry(&mut out, refdes.clone(), Role::parse(t.as_str()));
                }
            },
            _ => {},
        }
        i += 1;
    }
    assert(iv.take(n as int) =~= iv);
    out
}

} // verus!
