//! Classes of nets, from what the netlist declares: net kinds, signal classes, impedance targets,
//! currents. Names of nets play no part; a net that declares nothing has no class.
use vstd::prelude::*;

use crate::json::{contents_are_json_values, json_find, json_find_text, Json, JsonV};
use crate::netlist::schematic::{
    attribute, attribute_physical, attribute_text, find_attribute, find_physical, find_text,
    Attribute, AttributeV, Net, NetV, Schematic, SchematicV, Unit,
};
use crate::number::Real;
use crate::signal_type::{signal_of, SignalType};
use crate::sorted_map::{
    keys_rise, map_find, map_put, map_put_is_found, map_put_keeps_order, put_entry,
};
use crate::text::same;

verus! {

/// The class of a net's signal.
#[derive(Clone, Copy, Debug, PartialEq, Eq, Structural)]
pub enum SignalClass {
    Static,
    Digital,
    Clock,
    HighSpeed,
    SwitchingPower,
    Analog,
    Rf,
}

/// The class of the given name.
pub open spec fn class_of(s: Seq<char>) -> Option<SignalClass> {
    if s == "static"@ {
        Some(SignalClass::Static)
    } else if s == "digital"@ {
        Some(SignalClass::Digital)
    } else if s == "clock"@ {
        Some(SignalClass::Clock)
    } else if s == "high_speed"@ {
        Some(SignalClass::HighSpeed)
    } else if s == "switching_power"@ {
        Some(SignalClass::SwitchingPower)
    } else if s == "analog"@ {
        Some(SignalClass::Analog)
    } else if s == "rf"@ {
        Some(SignalClass::Rf)
    } else {
        None
    }
}

/// Nets of the class inject noise into their neighbours.
pub open spec fn injects(c: SignalClass) -> bool {
    c == SignalClass::Digital || c == SignalClass::Clock || c == SignalClass::HighSpeed || c
        == SignalClass::SwitchingPower
}

/// Nets of the class are sensitive to injected noise.
pub open spec fn suffers(c: SignalClass) -> bool {
    c == SignalClass::Analog || c == SignalClass::Rf || c == SignalClass::HighSpeed || c
        == SignalClass::Clock
}

impl SignalClass {
    /// The class of the given name.
    pub fn parse(s: &str) -> (r: Option<SignalClass>)
        ensures
            r == class_of(s@),
    {
        if same(s, "static") {
            Some(SignalClass::Static)
        } else if same(s, "digital") {
            Some(SignalClass::Digital)
        } else if same(s, "clock") {
            Some(SignalClass::Clock)
        } else if same(s, "high_speed") {
            Some(SignalClass::HighSpeed)
        } else if same(s, "switching_power") {
            Some(SignalClass::SwitchingPower)
        } else if same(s, "analog") {
            Some(SignalClass::Analog)
        } else if same(s, "rf") {
            Some(SignalClass::Rf)
        } else {
            None
        }
    }

    /// Whether nets of the class inject noise into their neighbours.
    pub fn is_aggressor(self) -> (r: bool)
        ensures
            r == injects(self),
    {
        matches!(
            self,
            SignalClass::Digital | SignalClass::Clock | SignalClass::HighSpeed
                | SignalClass::SwitchingPower
        )
    }

    /// Whether nets of the class are sensitive to injected noise.
    pub fn is_victim(self) -> (r: bool)
        ensures
            r == suffers(self),
    {
        matches!(
            self,
            SignalClass::Analog | SignalClass::Rf | SignalClass::HighSpeed | SignalClass::Clock
        )
    }
}

/// Where the class of a net comes from.
#[derive(Clone, Copy, Debug, PartialEq, Eq, Structural)]
pub enum ClassSource {
    /// Declared on the net or its driving port.
    Declared,
    /// Implied by the kind of the net, power or ground.
    ImpliedPowerGround,
    /// Implied by a declared impedance target.
    ImpliedImpedance,
}

/// The current of a port of a net.
pub struct PortCurrent {
    pub port: String,
    pub is_sink: bool,
    /// A JSON number.
    pub amps: Json,
}

/// The value of a `PortCurrent`.
#[verifier::ext_equal]
pub struct PortCurrentV {
    pub port: Seq<char>,
    pub is_sink: bool,
    pub amps: JsonV,
}

impl DeepView for PortCurrent {
    type V = PortCurrentV;

    open spec fn deep_view(&self) -> PortCurrentV {
        PortCurrentV { port: self.port@, is_sink: self.is_sink, amps: self.amps.value() }
    }
}

/// What is known of a net.
pub struct NetInfo {
    pub class: Option<SignalClass>,
    pub class_source: Option<ClassSource>,
    pub is_power: bool,
    pub is_ground: bool,
    pub impedance_ohms: Option<Real>,
    pub differential_impedance_ohms: Option<Real>,
    /// The name of the other net of a differential pair.
    pub diff_pair_peer: Option<String>,
    /// The side of a differential pair that this net is.
    pub diff_pair_role: Option<String>,
    pub sink_total_amps: Option<Real>,
    pub source_total_amps: Option<Real>,
    pub current_ports: Vec<PortCurrent>,
    /// The group of nets that are to have equal lengths.
    pub matched_group: Option<String>,
}

/// The value of a `NetInfo`.
#[verifier::ext_equal]
pub struct NetInfoV {
    pub class: Option<SignalClass>,
    pub class_source: Option<ClassSource>,
    pub is_power: bool,
    pub is_ground: bool,
    pub impedance_ohms: Option<Real>,
    pub differential_impedance_ohms: Option<Real>,
    pub diff_pair_peer: Option<Seq<char>>,
    pub diff_pair_role: Option<Seq<char>>,
    pub sink_total_amps: Option<Real>,
    pub source_total_amps: Option<Real>,
    pub current_ports: Seq<PortCurrentV>,
    pub matched_group: Option<Seq<char>>,
}

impl DeepView for NetInfo {
    type V = NetInfoV;

    open spec fn deep_view(&self) -> NetInfoV {
        NetInfoV {
            class: self.class,
            class_source: self.class_source,
            is_power: self.is_power,
            is_ground: self.is_ground,
            impedance_ohms: self.impedance_ohms,
            differential_impedance_ohms: self.differential_impedance_ohms,
            diff_pair_peer: self.diff_pair_peer.deep_view(),
            diff_pair_role: self.diff_pair_role.deep_view(),
            sink_total_amps: self.sink_total_amps,
            source_total_amps: self.source_total_amps,
            current_ports: self.current_ports.deep_view(),
            matched_group: self.matched_group.deep_view(),
        }
    }
}

/// The net is fast: declared a clock, high-speed or radio net, or with an impedance target.
pub open spec fn fast(i: NetInfoV) -> bool {
    i.class == Some(SignalClass::Clock) || i.class == Some(SignalClass::HighSpeed) || i.class
        == Some(SignalClass::Rf) || i.impedance_ohms is Some || i.differential_impedance_ohms is Some
}

/// The net injects noise.
pub open spec fn aggressor(i: NetInfoV) -> bool {
    i.class is Some && injects(i.class->0)
}

/// The net is sensitive to noise.
pub open spec fn victim(i: NetInfoV) -> bool {
    (i.class is Some && suffers(i.class->0)) || i.impedance_ohms is Some
        || i.differential_impedance_ohms is Some
}

/// The net is declared analog or radio.
pub open spec fn sensitive(i: NetInfoV) -> bool {
    i.class == Some(SignalClass::Analog) || i.class == Some(SignalClass::Rf)
}

impl NetInfo {
    /// Whether the net is fast.
    pub fn is_high_speed(&self) -> (r: bool)
        ensures
            r == fast(self.deep_view()),
    {
        matches!(
            self.class,
            Some(SignalClass::Clock) | Some(SignalClass::HighSpeed) | Some(SignalClass::Rf)
        ) || self.impedance_ohms.is_some() || self.differential_impedance_ohms.is_some()
    }

    /// Whether the net injects noise.
    pub fn is_aggressor(&self) -> (r: bool)
        ensures
            r == aggressor(self.deep_view()),
    {
        match self.class {
            Some(c) => c.is_aggressor(),
            None => false,
        }
    }

    /// Whether the net is sensitive to noise.
    pub fn is_victim(&self) -> (r: bool)
        ensures
            r == victim(self.deep_view()),
    {
        let by_class: bool = match self.class {
            Some(c) => c.is_victim(),
            None => false,
        };
        by_class || self.impedance_ohms.is_some() || self.differential_impedance_ohms.is_some()
    }

    /// Whether the net is declared analog or radio.
    pub fn is_sensitive(&self) -> (r: bool)
        ensures
            r == sensitive(self.deep_view()),
    {
        matches!(self.class, Some(SignalClass::Analog) | Some(SignalClass::Rf))
    }
}

/// The nominal value of a property, where it has the given unit.
pub open spec fn in_unit(list: Seq<(Seq<char>, AttributeV)>, key: Seq<char>, unit: Unit) -> Option<
    Real,
> {
    match find_physical(list, key) {
        Some(p) => if p.unit == unit {
            p.real
        } else {
            None
        },
        None => None,
    }
}

fn value_in(list: &Vec<(String, Attribute)>, key: &str, unit: Unit) -> (r: Option<Real>)
    ensures
        r == in_unit(list.deep_view(), key@, unit),
{
    match attribute_physical(list, key) {
        Some(p) => if p.unit == unit {
            p.real
        } else {
            None
        },
        None => None,
    }
}

/// The name of the last net with the given number.
pub open spec fn name_of_id(nets: Seq<NetV>, id: u64) -> Option<Seq<char>>
    decreases nets.len(),
{
    if nets.len() == 0 {
        None
    } else if nets.last().id == id {
        Some(nets.last().name)
    } else {
        name_of_id(nets.drop_last(), id)
    }
}

/// The current that a JSON entry gives a port, where it names the port, its role and a number.
pub open spec fn port_current(j: JsonV) -> Option<PortCurrentV> {
    match (json_find_text(j, "port"@), json_find_text(j, "role"@), json_find(j, "amps"@)) {
        (Some(port), Some(role), Some(amps)) => if amps is Int || amps is Float {
            Some(PortCurrentV { port, is_sink: role == "sink"@, amps })
        } else {
            None
        },
        _ => None,
    }
}

/// The currents that JSON entries give to ports.
pub open spec fn port_currents(items: Seq<JsonV>) -> Seq<PortCurrentV>
    decreases items.len(),
{
    if items.len() == 0 {
        Seq::empty()
    } else {
        match port_current(items.last()) {
            Some(p) => port_currents(items.drop_last()).push(p),
            None => port_currents(items.drop_last()),
        }
    }
}

/// The currents of the ports of a net.
pub open spec fn declared_ports(list: Seq<(Seq<char>, AttributeV)>) -> Seq<PortCurrentV> {
    match find_attribute(list, "current_ports"@) {
        Some(a) => match a.json {
            Some(JsonV::Array(items)) => port_currents(items),
            _ => Seq::empty(),
        },
        None => Seq::empty(),
    }
}

/// The class that a net declares.
pub open spec fn declared_class(net: NetV) -> Option<SignalClass> {
    match find_text(net.properties, "signal"@) {
        Some(s) => class_of(s),
        None => None,
    }
}

/// The class of a net and where it comes from: the declared class; else static for power and
/// ground nets; else high speed for nets with an impedance target.
pub open spec fn classed(net: NetV) -> (Option<SignalClass>, Option<ClassSource>) {
    if declared_class(net) is Some {
        (declared_class(net), Some(ClassSource::Declared))
    } else if net.kind == "Power"@ || net.kind == "Ground"@ {
        (Some(SignalClass::Static), Some(ClassSource::ImpliedPowerGround))
    } else if in_unit(net.properties, "impedance"@, Unit::Ohms) is Some || in_unit(
        net.properties,
        "differential_impedance"@,
        Unit::Ohms,
    ) is Some {
        (Some(SignalClass::HighSpeed), Some(ClassSource::ImpliedImpedance))
    } else {
        (None, None)
    }
}

/// What is known of a net of the netlist.
pub open spec fn info_of(nets: Seq<NetV>, net: NetV) -> NetInfoV {
    NetInfoV {
        class: classed(net).0,
        class_source: classed(net).1,
        is_power: net.kind == "Power"@,
        is_ground: net.kind == "Ground"@,
        impedance_ohms: in_unit(net.properties, "impedance"@, Unit::Ohms),
        differential_impedance_ohms: in_unit(
            net.properties,
            "differential_impedance"@,
            Unit::Ohms,
        ),
        diff_pair_peer: match find_attribute(net.properties, "diff_pair_peer"@) {
            Some(a) => match a.whole {
                Some(id) => name_of_id(nets, id),
                None => None,
            },
            None => None,
        },
        diff_pair_role: find_text(net.properties, "diff_pair_role"@),
        sink_total_amps: in_unit(net.properties, "current_sink_total"@, Unit::Amperes),
        source_total_amps: in_unit(net.properties, "current_source_total"@, Unit::Amperes),
        current_ports: declared_ports(net.properties),
        matched_group: find_text(net.properties, "matched_group"@),
    }
}

/// What is known of the first `n` nets, by name.
pub open spec fn infos_of(nets: Seq<NetV>, n: int) -> Seq<(Seq<char>, NetInfoV)>
    decreases n,
{
    if n <= 0 {
        Seq::empty()
    } else {
        map_put::<String, NetInfo>(
            infos_of(nets, n - 1),
            nets[n - 1].name,
            info_of(nets, nets[n - 1]),
        )
    }
}

/// What is known of the nets, by name.
pub open spec fn net_infos(s: SchematicV) -> Seq<(Seq<char>, NetInfoV)> {
    infos_of(s.nets, s.nets.len() as int)
}

fn find_name(nets: &Vec<Net>, id: u64) -> (r: Option<String>)
    ensures
        r.deep_view() == name_of_id(nets.deep_view(), id),
{
    let ghost all = nets.deep_view();
    let mut i: usize = nets.len();
    assert(all.take(i as int) =~= all);
    while i > 0
        invariant
            i <= nets@.len(),
            all == nets.deep_view(),
            name_of_id(all, id) == name_of_id(all.take(i as int), id),
        decreases i,
    {
        i -= 1;
        assert(all.take(i + 1).drop_last() =~= all.take(i as int));
        assert(all.take(i + 1).last() == nets@[i as int].deep_view());
        if nets[i].id == id {
            return Some(nets[i].name.clone());
        }
    }
    None
}

fn read_port(j: &Json) -> (r: Option<PortCurrent>)
    ensures
        r.deep_view() == port_current(j.value()),
{
    match (j.get_text("port"), j.get_text("role"), j.get("amps")) {
        (Some(port), Some(role), Some(amps)) => match amps {
            Json::Int(_) | Json::Float(_, _) => Some(
                PortCurrent {
                    port: port.clone(),
                    is_sink: same(role.as_str(), "sink"),
                    amps: amps.copy(),
                },
            ),
            _ => None,
        },
        _ => None,
    }
}

fn read_ports(list: &Vec<(String, Attribute)>) -> (r: Vec<PortCurrent>)
    ensures
        r.deep_view() == declared_ports(list.deep_view()),
{
    let mut out: Vec<PortCurrent> = Vec::new();
    assert(out.deep_view() =~= Seq::empty());
    match attribute(list, "current_ports") {
        Some(a) => match &a.json {
            Some(j) => {
                proof {
                    contents_are_json_values(*j);
                }
                assert(a.deep_view().json == Some(j.value()));
                match j {
                    Json::Array(items) => {
                        let ghost iv = items.deep_view();
                        let n: usize = items.len();
                        let mut i: usize = 0;
                        assert(out.deep_view() =~= port_currents(iv.take(0)));
                        while i < n
                            invariant
                                n == items@.len(),
                                i <= n,
                                iv == items.deep_view(),
                                out.deep_view() == port_currents(iv.take(i as int)),
                            decreases n - i,
                        {
                            let ghost before = out.deep_view();
                            assert(iv.take(i + 1).drop_last() =~= iv.take(i as int));
                            assert(iv[i as int] == items@[i as int].value());
                            match read_port(&items[i]) {
                                Some(p) => {
                                    let ghost pv = p.deep_view();
                                    out.push(p);
                                    assert(out.deep_view() =~= before.push(pv));
                                },
                                None => {},
                            }
                            i += 1;
                        }
                        assert(iv.take(n as int) =~= iv);
                    },
                    _ => {},
                }
            },
            None => {},
        },
        None => {},
    }
    out
}

fn copy_text(list: &Vec<(String, Attribute)>, key: &str) -> (r: Option<String>)
    ensures
        r.deep_view() == find_text(list.deep_view(), key@),
{
    match attribute_text(list, key) {
        Some(s) => Some(s.clone()),
        None => None,
    }
}

fn classify_net(nets: &Vec<Net>, net: &Net) -> (r: NetInfo)
    ensures
        r.deep_view() == info_of(nets.deep_view(), net.deep_view()),
{
    let is_power: bool = same(net.kind.as_str(), "Power");
    let is_ground: bool = same(net.kind.as_str(), "Ground");
    let impedance_ohms = value_in(&net.properties, "impedance", Unit::Ohms);
    let differential_impedance_ohms = value_in(
        &net.properties,
        "differential_impedance",
        Unit::Ohms,
    );
    let declared = match attribute_text(&net.properties, "signal") {
        Some(s) => SignalClass::parse(s.as_str()),
        None => None,
    };
    assert(declared == declared_class(net.deep_view()));
    let (class, class_source) = if declared.is_some() {
        (declared, Some(ClassSource::Declared))
    } else if is_power || is_ground {
        (Some(SignalClass::Static), Some(ClassSource::ImpliedPowerGround))
    } else if impedance_ohms.is_some() || differential_impedance_ohms.is_some() {
        (Some(SignalClass::HighSpeed), Some(ClassSource::ImpliedImpedance))
    } else {
        (None, None)
    };
    let diff_pair_peer = match attribute(&net.properties, "diff_pair_peer") {
        Some(a) => match a.whole {
            Some(id) => find_name(nets, id),
            None => None,
        },
        None => None,
    };
    let r = NetInfo {
        class,
        class_source,
        is_power,
        is_ground,
        impedance_ohms,
        differential_impedance_ohms,
        diff_pair_peer,
        diff_pair_role: copy_text(&net.properties, "diff_pair_role"),
        sink_total_amps: value_in(&net.properties, "current_sink_total", Unit::Amperes),
        source_total_amps: value_in(&net.properties, "current_source_total", Unit::Amperes),
        current_ports: read_ports(&net.properties),
        matched_group: copy_text(&net.properties, "matched_group"),
    };
    assert(r.deep_view() =~= info_of(nets.deep_view(), net.deep_view()));
    r
}

/// What is known of the nets of a netlist, by name.
pub fn classify_nets(schematic: &Schematic) -> (r: Vec<(String, NetInfo)>)
    ensures
        r.deep_view() == net_infos(schematic.deep_view()),
{
    let ghost nv = schematic.deep_view().nets;
    let n: usize = schematic.nets.len();
    let mut out: Vec<(String, NetInfo)> = Vec::new();
    let mut i: usize = 0;
    assert(out.deep_view() =~= infos_of(nv, 0));
    while i < n
        invariant
            n == schematic.nets@.len(),
            i <= n,
            nv == schematic.deep_view().nets,
            out.deep_view() == infos_of(nv, i as int),
        decreases n - i,
    {
        assert(nv[i as int] == schematic.nets@[i as int].deep_view());
        let info = classify_net(&schematic.nets, &schematic.nets[i]);
        put_entry(&mut out, schematic.nets[i].name.clone(), info);
        i += 1;
    }
    out
}

/// The class that a declared signal type stands for.
pub open spec fn class_of_type(t: SignalType) -> SignalClass {
    match t {
        SignalType::Static => SignalClass::Static,
        SignalType::Digital => SignalClass::Digital,
        SignalType::Clock => SignalClass::Clock,
        SignalType::HighSpeed => SignalClass::HighSpeed,
        SignalType::SwitchingPower => SignalClass::SwitchingPower,
        SignalType::Analog => SignalClass::Analog,
        SignalType::Rf => SignalClass::Rf,
    }
}

/// Scoring reads a class from a text if and only if the language accepts the text as a signal
/// type, and it reads the same one.
pub proof fn classes_are_signal_types(s: Seq<char>)
    ensures
        class_of(s) == match signal_of(s) {
            Some(t) => Some(class_of_type(t)),
            None => None,
        },
{
}

proof fn infos_by_name(nets: Seq<NetV>, n: int, i: int)
    requires
        0 <= i < n <= nets.len(),
        forall|a: int, b: int|
            0 <= a < b < nets.len() ==> (#[trigger] nets[a]).name != (#[trigger] nets[b]).name,
    ensures
        map_find(infos_of(nets, n), nets[i].name) == Some(info_of(nets, nets[i])),
    decreases n,
{
    map_put_is_found::<String, NetInfo>(
        infos_of(nets, n - 1),
        nets[n - 1].name,
        info_of(nets, nets[n - 1]),
        nets[i].name,
    );
    if i < n - 1 {
        infos_by_name(nets, n - 1, i);
    }
}

/// Every net is found under its name, where no two nets share one.
pub proof fn every_net_is_classified(s: SchematicV, i: int)
    requires
        0 <= i < s.nets.len(),
        forall|a: int, b: int|
            0 <= a < b < s.nets.len() ==> (#[trigger] s.nets[a]).name != (#[trigger] s.nets[b]).name,
    ensures
        map_find(net_infos(s), s.nets[i].name) == Some(info_of(s.nets, s.nets[i])),
{
    infos_by_name(s.nets, s.nets.len() as int, i);
}

proof fn infos_rise(nets: Seq<NetV>, n: int)
    ensures
        keys_rise::<String, NetInfo>(infos_of(nets, n)),
    decreases n,
{
    if n > 0 {
        infos_rise(nets, n - 1);
        map_put_keeps_order::<String, NetInfo>(
            infos_of(nets, n - 1),
            nets[n - 1].name,
            info_of(nets, nets[n - 1]),
        );
    }
}

/// The classified nets stand in rising order of their names, each name once.
pub proof fn classified_names_rise(s: SchematicV)
    ensures
        keys_rise::<String, NetInfo>(net_infos(s)),
{
    infos_rise(s.nets, s.nets.len() as int);
}

/// A net without declarations that is neither power nor ground has no class.
pub proof fn undeclared_nets_stay_unclassified(nets: Seq<NetV>, net: NetV)
    requires
        net.kind != "Power"@,
        net.kind != "Ground"@,
        find_attribute(net.properties, "signal"@) is None,
        find_attribute(net.properties, "impedance"@) is None,
        find_attribute(net.properties, "differential_impedance"@) is None,
    ensures
        info_of(nets, net).class is None,
        info_of(nets, net).class_source is None,
        !fast(info_of(nets, net)),
        !aggressor(info_of(nets, net)),
        !victim(info_of(nets, net)),
{
}

} // verus!
