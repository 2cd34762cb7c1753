//! What is known of the nets and components of a netlist, by what they declare.
use vstd::prelude::*;

use crate::netlist::schematic::{
    find_attribute, find_physical, find_text, InstanceV, NetV, Schematic, Unit,
};
use crate::number::Real;
use crate::score::classify::{
    class_of, classify_nets, every_net_is_classified, info_of, name_of_id, ClassSource, NetInfo,
    SignalClass,
};
use crate::score::metrics::context::Trait;
use crate::score::roles::{component_roles, role_of, roles_of, Role};
use crate::sorted_map::{map_find, map_put_is_found};

verus! {

/// The text names the class.
pub open spec fn names_class(s: Seq<char>, c: SignalClass) -> bool {
    s == match c {
        SignalClass::Static => "static"@,
        SignalClass::Digital => "digital"@,
        SignalClass::Clock => "clock"@,
        SignalClass::HighSpeed => "high_speed"@,
        SignalClass::SwitchingPower => "switching_power"@,
        SignalClass::Analog => "analog"@,
        SignalClass::Rf => "rf"@,
    }
}

/// The net declares the class.
pub open spec fn declares(net: NetV, c: SignalClass) -> bool {
    find_text(net.properties, "signal"@) is Some && names_class(
        find_text(net.properties, "signal"@)->0,
        c,
    )
}

/// The net gives the property the value, in the unit.
pub open spec fn gives(net: NetV, key: Seq<char>, unit: Unit, x: Real) -> bool {
    &&& find_physical(net.properties, key) is Some
    &&& find_physical(net.properties, key)->0.unit == unit
    &&& find_physical(net.properties, key)->0.real == Some(x)
}

/// What was found of the property is what the net gives.
pub open spec fn is_given(net: NetV, key: Seq<char>, unit: Unit, found: Option<Real>) -> bool {
    match found {
        Some(x) => gives(net, key, unit, x),
        None => forall|x: Real| !gives(net, key, unit, x),
    }
}

/// The net asks for an impedance in ohms, of its own or as one of a pair.
pub open spec fn asks_impedance(net: NetV) -> bool {
    ||| exists|x: Real| gives(net, "impedance"@, Unit::Ohms, x)
    ||| exists|x: Real| gives(net, "differential_impedance"@, Unit::Ohms, x)
}

proof fn class_names_differ()
    ensures
        forall|s: Seq<char>, c: SignalClass| #[trigger] names_class(s, c) <==> class_of(s) == Some(
            c,
        ),
{
    reveal_strlit("static");
    reveal_strlit("digital");
    reveal_strlit("clock");
    reveal_strlit("high_speed");
    reveal_strlit("switching_power");
    reveal_strlit("analog");
    reveal_strlit("rf");
    assert("static"@[0] == 's' && "static"@.len() == 6);
    assert("digital"@[0] == 'd');
    assert("clock"@[0] == 'c');
    assert("high_speed"@[0] == 'h');
    assert("switching_power"@[0] == 's' && "switching_power"@.len() == 15);
    assert("analog"@[0] == 'a');
    assert("rf"@[0] == 'r');
}

/// The last net of the number has the name.
pub open spec fn numbers(nets: Seq<NetV>, id: u64, name: Option<Seq<char>>) -> bool {
    match name {
        Some(s) => exists|k: int|
            0 <= k < nets.len() && (#[trigger] nets[k]).id == id && nets[k].name == s && forall|j: int|
                k < j < nets.len() ==> (#[trigger] nets[j]).id != id,
        None => forall|k: int| 0 <= k < nets.len() ==> (#[trigger] nets[k]).id != id,
    }
}

proof fn named_by_number(nets: Seq<NetV>, id: u64)
    ensures
        numbers(nets, id, name_of_id(nets, id)),
    decreases nets.len(),
{
    if nets.len() > 0 {
        let front = nets.drop_last();
        named_by_number(front, id);
        let end = nets.len() - 1;
        if nets.last().id == id {
            assert(nets[end].id == id);
        } else {
            match name_of_id(front, id) {
                Some(s) => {
                    let k = choose|k: int|
                        0 <= k < front.len() && (#[trigger] front[k]).id == id && front[k].name == s
                            && forall|j: int| k < j < front.len() ==> (#[trigger] front[j]).id != id;
                    assert(nets[k].id == id);
                    assert forall|j: int| k < j < nets.len() implies (#[trigger] nets[j]).id != id by {
                        if j < end {
                            assert(front[j] == nets[j]);
                        }
                    }
                },
                None => {
                    assert forall|k: int| 0 <= k < nets.len() implies (#[trigger] nets[k]).id != id by {
                        if k < end {
                            assert(front[k] == nets[k]);
                        }
                    }
                },
            }
        }
    }
}

/// Every net of a netlist is listed under its name with what it declares. Its class is the one that
/// it declares; where it declares none, power and ground nets are static, nets with an impedance
/// target are fast, and the others have none. The other net of a pair is found by its number.
pub proof fn nets_are_classified_by_what_they_declare(
    schematic: Schematic,
    r: Vec<(String, NetInfo)>,
    i: int,
) -> (at: int)
    requires
        classify_nets.ensures((&schematic,), r),
        0 <= i < schematic.nets@.len(),
        forall|a: int, b: int|
            0 <= a < b < schematic.nets@.len() ==> (#[trigger] schematic.nets@[a]).name@ != (
            #[trigger] schematic.nets@[b]).name@,
    ensures
        0 <= at < r@.len(),
        r@[at].0@ == schematic.nets@[i].name@,
        ({
            let net = schematic.nets@[i].deep_view();
            let info = r@[at].1;
            let supply = net.kind == "Power"@ || net.kind == "Ground"@;
            let stated = exists|c: SignalClass| declares(net, c);
            &&& forall|c: SignalClass| #[trigger] declares(net, c) ==> info.class == Some(c)
                && info.class_source == Some(ClassSource::Declared)
            &&& !stated && supply ==> info.class == Some(SignalClass::Static) && info.class_source
                == Some(ClassSource::ImpliedPowerGround)
            &&& !stated && !supply && asks_impedance(net) ==> info.class == Some(
                SignalClass::HighSpeed,
            ) && info.class_source == Some(ClassSource::ImpliedImpedance)
            &&& !stated && !supply && !asks_impedance(net) ==> info.class is None
                && info.class_source is None
            &&& info.is_power == (net.kind == "Power"@)
            &&& info.is_ground == (net.kind == "Ground"@)
            &&& is_given(net, "impedance"@, Unit::Ohms, info.impedance_ohms)
            &&& is_given(
                net,
                "differential_impedance"@,
                Unit::Ohms,
                info.differential_impedance_ohms,
            )
            &&& is_given(net, "current_sink_total"@, Unit::Amperes, info.sink_total_amps)
            &&& is_given(net, "current_source_total"@, Unit::Amperes, info.source_total_amps)
            &&& info.diff_pair_role.deep_view() == find_text(net.properties, "diff_pair_role"@)
            &&& info.matched_group.deep_view() == find_text(net.properties, "matched_group"@)
            &&& match find_attribute(net.properties, "diff_pair_peer"@) {
                Some(a) => match a.whole {
                    Some(id) => numbers(
                        schematic.deep_view().nets,
                        id,
                        info.diff_pair_peer.deep_view(),
                    ),
                    None => info.diff_pair_peer is None,
                },
                None => info.diff_pair_peer is None,
            }
        }),
{
    let s = schematic.deep_view();
    assert(s.nets.len() == schematic.nets@.len());
    let net = s.nets[i];
    assert(net == schematic.nets@[i].deep_view());
    assert forall|a: int, b: int| 0 <= a < b < s.nets.len() implies (#[trigger] s.nets[a]).name != (
    #[trigger] s.nets[b]).name by {
        assert(schematic.nets@[a].name@ != schematic.nets@[b].name@);
    }
    every_net_is_classified(s, i);
    class_names_differ();
    let rv = r.deep_view();
    assert(rv.len() == r@.len());
    let at = standing(rv, net.name);
    let info = rv[at].1;
    assert(info == info_of(s.nets, net));
    assert(info == r@[at].1.deep_view());
    assert(rv[at].0 == r@[at].0@);
    if let Some(a) = find_attribute(net.properties, "diff_pair_peer"@) {
        if let Some(id) = a.whole {
            named_by_number(s.nets, id);
        }
    }
    if info.impedance_ohms is Some {
        assert(gives(net, "impedance"@, Unit::Ohms, info.impedance_ohms->0));
    }
    if info.differential_impedance_ohms is Some {
        assert(gives(
            net,
            "differential_impedance"@,
            Unit::Ohms,
            info.differential_impedance_ohms->0,
        ));
    }
    if exists|c: SignalClass| declares(net, c) {
        let c = choose|c: SignalClass| declares(net, c);
        assert(names_class(find_text(net.properties, "signal"@)->0, c));
    } else if find_text(net.properties, "signal"@) is Some {
        let t = find_text(net.properties, "signal"@)->0;
        if let Some(c) = class_of(t) {
            assert(names_class(t, c));
            assert(declares(net, c));
        }
    }
    at
}

proof fn standing<A, B>(entries: Seq<(A, B)>, key: A) -> (k: int)
    requires
        map_find(entries, key) is Some,
    ensures
        0 <= k < entries.len(),
        entries[k].0 == key,
        map_find(entries, key) == Some(entries[k].1),
    decreases entries.len(),
{
    if entries[0].0 == key {
        0
    } else {
        let k = standing(entries.drop_first(), key);
        assert(entries[k + 1] == entries.drop_first()[k]);
        k + 1
    }
}

/// Which nets inject noise and which suffer from it goes by their class: digital, clock, fast and
/// switching nets inject it; analog, radio, clock and fast nets, and nets with an impedance target,
/// suffer. Static nets do neither. Clock, fast and radio nets, and nets with an impedance target, are
/// of high speed; analog and radio nets are sensitive.
pub proof fn noise_goes_by_class(
    i: NetInfo,
    fast: bool,
    injects: bool,
    suffers: bool,
    sensitive: bool,
)
    requires
        NetInfo::is_high_speed.ensures((&i,), fast),
        NetInfo::is_aggressor.ensures((&i,), injects),
        NetInfo::is_victim.ensures((&i,), suffers),
        NetInfo::is_sensitive.ensures((&i,), sensitive),
    ensures
        ({
            let target = i.impedance_ohms is Some || i.differential_impedance_ohms is Some;
            match i.class {
                None | Some(SignalClass::Static) => !injects && !sensitive && suffers == target
                    && fast == target,
                Some(SignalClass::Digital) | Some(SignalClass::SwitchingPower) => injects
                    && !sensitive && suffers == target && fast == target,
                Some(SignalClass::Clock) | Some(SignalClass::HighSpeed) => injects && suffers
                    && fast && !sensitive,
                Some(SignalClass::Analog) => !injects && suffers && sensitive && fast == target,
                Some(SignalClass::Rf) => !injects && suffers && sensitive && fast,
            }
        }),
{
}

/// What the families ask of a net is what the net declares.
pub proof fn traits_go_by_declarations(
    i: NetInfo,
    t: Trait,
    r: bool,
    fast: bool,
    injects: bool,
    suffers: bool,
    sensitive: bool,
)
    requires
        NetInfo::is.ensures((&i, t), r),
        NetInfo::is_high_speed.ensures((&i,), fast),
        NetInfo::is_aggressor.ensures((&i,), injects),
        NetInfo::is_victim.ensures((&i,), suffers),
        NetInfo::is_sensitive.ensures((&i,), sensitive),
    ensures
        t == Trait::Power ==> r == i.is_power,
        t == Trait::Ground ==> r == i.is_ground,
        t == Trait::Reference ==> r == (i.is_power || i.is_ground),
        t == Trait::Current ==> r == (i.sink_total_amps is Some || i.source_total_amps is Some),
        t == Trait::HighSpeed ==> r == fast,
        t == Trait::ImpedanceTarget ==> r == (i.impedance_ohms is Some),
        t == Trait::Aggressor ==> r == injects,
        t == Trait::Victim ==> r == suffers,
        t == Trait::Sensitive ==> r == sensitive,
{
}

/// The type names the role; types of no role of their own are others.
pub open spec fn names_role(t: Seq<char>, role: Role) -> bool {
    match role {
        Role::Tvs => t == "tvs"@,
        Role::Connector => t == "connector"@,
        Role::Capacitor => t == "capacitor"@,
        Role::Resistor => t == "resistor"@,
        Role::Inductor => t == "inductor"@,
        Role::FerriteBead => t == "ferrite_bead"@,
        Role::Led => t == "led"@,
        Role::Crystal => t == "crystal"@,
        Role::Other => t != "tvs"@ && t != "connector"@ && t != "capacitor"@ && t != "resistor"@
            && t != "inductor"@ && t != "ferrite_bead"@ && t != "led"@ && t != "crystal"@,
    }
}

proof fn role_names_differ()
    ensures
        forall|t: Seq<char>, role: Role| #[trigger] names_role(t, role) <==> role_of(t) == role,
{
    reveal_strlit("tvs");
    reveal_strlit("connector");
    reveal_strlit("capacitor");
    reveal_strlit("resistor");
    reveal_strlit("inductor");
    reveal_strlit("ferrite_bead");
    reveal_strlit("led");
    reveal_strlit("crystal");
    assert("tvs"@[0] == 't');
    assert("connector"@[0] == 'c' && "connector"@[1] == 'o');
    assert("capacitor"@[0] == 'c' && "capacitor"@[1] == 'a');
    assert("resistor"@[0] == 'r');
    assert("inductor"@[0] == 'i');
    assert("ferrite_bead"@[0] == 'f');
    assert("led"@[0] == 'l');
    assert("crystal"@[0] == 'c' && "crystal"@[1] == 'r');
}

/// The instance is a component with the reference and a declared type.
pub open spec fn is_typed(i: InstanceV, refdes: Seq<char>) -> bool {
    i.component && i.reference_designator == Some(refdes) && find_text(i.attributes, "type"@) is Some
}

proof fn role_is_listed(instances: Seq<InstanceV>, refdes: Seq<char>)
    ensures
        match map_find(roles_of(instances), refdes) {
            Some(role) => exists|k: int|
                0 <= k < instances.len() && is_typed(#[trigger] instances[k], refdes) && role
                    == role_of(find_text(instances[k].attributes, "type"@)->0) && forall|j: int|
                    k < j < instances.len() ==> !is_typed(#[trigger] instances[j], refdes),
            None => forall|k: int|
                0 <= k < instances.len() ==> !is_typed(#[trigger] instances[k], refdes),
        },
    decreases instances.len(),
{
    if instances.len() > 0 {
        let front = instances.drop_last();
        role_is_listed(front, refdes);
        let last = instances.last();
        let end = instances.len() - 1;
        assert(instances[end] == last);
        if let (Some(other), Some(t)) = (
            last.reference_designator,
            find_text(last.attributes, "type"@),
        ) {
            map_put_is_found::<String, Role>(roles_of(front), other, role_of(t), refdes);
        }
        if !is_typed(last, refdes) {
            match map_find(roles_of(front), refdes) {
                Some(role) => {
                    let k = choose|k: int|
                        0 <= k < front.len() && is_typed(#[trigger] front[k], refdes) && role
                            == role_of(find_text(front[k].attributes, "type"@)->0) && forall|j: int|
                            k < j < front.len() ==> !is_typed(#[trigger] front[j], refdes);
                    assert(is_typed(instances[k], refdes));
                    assert forall|j: int| k < j < instances.len() implies !is_typed(
                        #[trigger] instances[j],
                        refdes,
                    ) by {
                        if j < end {
                            assert(front[j] == instances[j]);
                        }
                    }
                },
                None => {
                    assert forall|k: int| 0 <= k < instances.len() implies !is_typed(
                        #[trigger] instances[k],
                        refdes,
                    ) by {
                        if k < end {
                            assert(front[k] == instances[k]);
                        }
                    }
                },
            }
        } else {
            assert(is_typed(instances[end], refdes));
        }
    }
}

/// The role listed under a reference designator is the one that the declared type of the last
/// component with that reference names; one without such a component is not listed.
pub proof fn roles_go_by_declared_types(schematic: Schematic, r: Vec<(String, Role)>, refdes: Seq<char>)
    requires
        component_roles.ensures((&schematic,), r),
    ensures
        ({
            let all = schematic.deep_view().instances;
            match map_find(r.deep_view(), refdes) {
                Some(role) => exists|k: int|
                    0 <= k < all.len() && is_typed(#[trigger] all[k], refdes) && names_role(
                        find_text(all[k].attributes, "type"@)->0,
                        role,
                    ) && forall|j: int| k < j < all.len() ==> !is_typed(#[trigger] all[j], refdes),
                None => forall|k: int| 0 <= k < all.len() ==> !is_typed(#[trigger] all[k], refdes),
            }
        }),
{
    let all = schematic.deep_view().instances;
    role_is_listed(all, refdes);
    role_names_differ();
    if let Some(role) = map_find(r.deep_view(), refdes) {
        let k = choose|k: int|
            0 <= k < all.len() && is_typed(#[trigger] all[k], refdes) && role == role_of(
                find_text(all[k].attributes, "type"@)->0,
            ) && forall|j: int| k < j < all.len() ==> !is_typed(#[trigger] all[j], refdes);
        assert(names_role(find_text(all[k].attributes, "type"@)->0, role));
        assert(is_typed(all[k], refdes));
    }
}

} // verus!
