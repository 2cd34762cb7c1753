//! Static current inference over passive parts: which nets a direct current links, which groups
//! of nets can be solved, and what each net learns from the solution.
use vstd::prelude::*;

use crate::duplicate::Duplicate;
use crate::netlist::schematic::{
    attribute_physical, attribute_text, find_instance, find_physical, find_text, instance_at,
    Attribute, AttributeV, Instance, InstanceRef, InstanceRefV, InstanceV, Net, NetV, Port, PortV,
    Schematic,
};
use crate::number::{below, zero, Real};
use crate::order::{as_ints, in_order, picked, rank_order, ranking, sorted};
use crate::text::{holds, join, joined, same};

verus! {

/// What a part is to a direct current.
#[derive(Clone, Copy, Debug, PartialEq, Eq, Structural)]
pub enum DcModel {
    /// A resistance in ohms.
    Resistive(Real),
    /// Nearly no resistance: inductors and ferrite beads.
    Short,
    /// No current: capacitors.
    Open,
}

impl DeepView for DcModel {
    type V = DcModel;

    open spec fn deep_view(&self) -> DcModel {
        *self
    }
}

/// A two-pin part that conducts between two nets.
pub struct DcEdge {
    pub refdes: String,
    pub net_a: String,
    pub net_b: String,
    pub model: DcModel,
}

/// The value of a `DcEdge`.
#[verifier::ext_equal]
pub struct DcEdgeV {
    pub refdes: Seq<char>,
    pub net_a: Seq<char>,
    pub net_b: Seq<char>,
    pub model: DcModel,
}

impl DeepView for DcEdge {
    type V = DcEdgeV;

    open spec fn deep_view(&self) -> DcEdgeV {
        DcEdgeV {
            refdes: self.refdes@,
            net_a: self.net_a@,
            net_b: self.net_b@,
            model: self.model,
        }
    }
}

/// The nominal value of an attribute.
pub open spec fn nominal(list: Seq<(Seq<char>, AttributeV)>, key: Seq<char>) -> Option<Real> {
    match find_physical(list, key) {
        Some(p) => p.real,
        None => None,
    }
}

fn attr_nominal(list: &Vec<(String, Attribute)>, key: &str) -> (r: Option<Real>)
    ensures
        r == nominal(list.deep_view(), key@),
{
    match attribute_physical(list, key) {
        Some(p) => p.real,
        None => None,
    }
}

/// What an instance is to a direct current, by its declared type.
pub open spec fn dc_model_of(i: InstanceV) -> Option<DcModel> {
    match find_text(i.attributes, "type"@) {
        Some(t) => if t == "resistor"@ {
            match nominal(i.attributes, "resistance"@) {
                Some(ohms) => if below(zero(), ohms) {
                    Some(DcModel::Resistive(ohms))
                } else {
                    None
                },
                None => None,
            }
        } else if t == "inductor"@ || t == "ferrite_bead"@ {
            Some(DcModel::Short)
        } else if t == "capacitor"@ {
            Some(DcModel::Open)
        } else {
            None
        },
        None => None,
    }
}

/// What an instance is to a direct current, by its declared type.
pub fn dc_model(instance: &Instance) -> (r: Option<DcModel>)
    ensures
        r == dc_model_of(instance.deep_view()),
{
    match attribute_text(&instance.attributes, "type") {
        Some(t) => if same(t.as_str(), "resistor") {
            match attr_nominal(&instance.attributes, "resistance") {
                Some(ohms) => if Real::zero().less(&ohms) {
                    Some(DcModel::Resistive(ohms))
                } else {
                    None
                },
                None => None,
            }
        } else if same(t.as_str(), "inductor") || same(t.as_str(), "ferrite_bead") {
            Some(DcModel::Short)
        } else if same(t.as_str(), "capacitor") {
            Some(DcModel::Open)
        } else {
            None
        },
        None => None,
    }
}

/// The fixed potential of a net, if it has one: the declared voltage; zero for a ground net that
/// declares none.
pub open spec fn voltage_of(net: NetV) -> Option<Real> {
    match nominal(net.properties, "voltage"@) {
        Some(v) => Some(v),
        None => if net.kind == "Ground"@ {
            Some(zero())
        } else {
            None
        },
    }
}

/// The fixed potential of a net, if it has one.
pub fn fixed_voltage(net: &Net) -> (r: Option<Real>)
    ensures
        r == voltage_of(net.deep_view()),
{
    match attr_nominal(&net.properties, "voltage") {
        Some(v) => Some(v),
        None => if same(net.kind.as_str(), "Ground") {
            Some(Real::zero())
        } else {
            None
        },
    }
}

/// A declared current of a net, zero if it declares none.
pub open spec fn amps_of(net: NetV, key: Seq<char>) -> Real {
    match nominal(net.properties, key) {
        Some(a) => a,
        None => zero(),
    }
}

/// A declared current of a net, zero if it declares none.
pub fn declared_amps(net: &Net, key: &str) -> (r: Real)
    ensures
        r == amps_of(net.deep_view(), key@),
{
    match attr_nominal(&net.properties, key) {
        Some(a) => a,
        None => Real::zero(),
    }
}

/// The component whose pin the port is: its path is the port's path without the last segment.
pub open spec fn owner_of(port: PortV) -> Option<InstanceRefV> {
    if port.at.path.len() < 2 {
        None
    } else {
        Some(InstanceRefV { module: port.at.module, path: port.at.path.drop_last() })
    }
}

/// The component whose pin the port is.
pub fn port_owner(port: &Port) -> (r: Option<InstanceRef>)
    ensures
        r.deep_view() == owner_of(port.deep_view()),
{
    let n: usize = port.at.path.len();
    if n < 2 {
        return None;
    }
    let ghost pv = port.at.path.deep_view();
    let mut path: Vec<String> = Vec::new();
    let mut i: usize = 0;
    while i + 1 < n
        invariant
            n == port.at.path@.len(),
            n >= 2,
            i < n,
            pv == port.at.path.deep_view(),
            path.deep_view() == pv.take(i as int),
        decreases n - i,
    {
        let ghost before = path.deep_view();
        path.push(port.at.path[i].clone());
        assert(path.deep_view() =~= before.push(pv[i as int]));
        assert(path.deep_view() =~= pv.take(i + 1));
        i += 1;
    }
    assert(pv.take(n - 1) =~= pv.drop_last());
    Some(InstanceRef { module: port.at.module.clone(), path })
}

/// A component and the nets that it is on.
pub struct Attached {
    pub at: InstanceRef,
    pub nets: Vec<String>,
}

/// The value of an `Attached`.
#[verifier::ext_equal]
pub struct AttachedV {
    pub at: InstanceRefV,
    pub nets: Seq<Seq<char>>,
}

impl DeepView for Attached {
    type V = AttachedV;

    open spec fn deep_view(&self) -> AttachedV {
        AttachedV { at: self.at.deep_view(), nets: self.nets.deep_view() }
    }
}

/// The nets with one more, unless it is among them.
pub open spec fn with_net(nets: Seq<Seq<char>>, name: Seq<char>) -> Seq<Seq<char>> {
    if nets.contains(name) {
        nets
    } else {
        nets.push(name)
    }
}

/// The components with one of them noted to be on a net.
pub open spec fn note_attached(list: Seq<AttachedV>, at: InstanceRefV, name: Seq<char>) -> Seq<
    AttachedV,
>
    decreases list.len(),
{
    if list.len() == 0 {
        seq![AttachedV { at, nets: seq![name] }]
    } else if list[0].at == at {
        seq![AttachedV { at, nets: with_net(list[0].nets, name) }] + list.drop_first()
    } else {
        seq![list[0]] + note_attached(list.drop_first(), at, name)
    }
}

/// A component that was noted is updated in place, a new one stands at the end.
pub proof fn note_at(list: Seq<AttachedV>, at: InstanceRefV, name: Seq<char>, k: int)
    requires
        0 <= k <= list.len(),
        forall|i: int| 0 <= i < k ==> (#[trigger] list[i]).at != at,
        k < list.len() ==> list[k].at == at,
    ensures
        note_attached(list, at, name) == if k < list.len() {
            list.update(k, AttachedV { at, nets: with_net(list[k].nets, name) })
        } else {
            list.push(AttachedV { at, nets: seq![name] })
        },
    decreases list.len(),
{
    let want = if k < list.len() {
        list.update(k, AttachedV { at, nets: with_net(list[k].nets, name) })
    } else {
        list.push(AttachedV { at, nets: seq![name] })
    };
    if k == 0 {
        assert(note_attached(list, at, name) =~= want);
    } else {
        let rest = list.drop_first();
        assert(list[0].at != at);
        assert forall|i: int| 0 <= i < k - 1 implies (#[trigger] rest[i]).at != at by {
            assert(rest[i] == list[i + 1]);
        }
        note_at(rest, at, name, k - 1);
        assert(note_attached(list, at, name) =~= want);
    }
}

/// The components with those of the ports noted to be on a net.
pub open spec fn note_ports(list: Seq<AttachedV>, ports: Seq<PortV>, name: Seq<char>) -> Seq<
    AttachedV,
>
    decreases ports.len(),
{
    if ports.len() == 0 {
        list
    } else {
        let front = note_ports(list, ports.drop_last(), name);
        match owner_of(ports.last()) {
            Some(at) => note_attached(front, at, name),
            None => front,
        }
    }
}

/// The components on the nets, each with its nets, in the order in which they are met.
pub open spec fn component_nets(nets: Seq<NetV>) -> Seq<AttachedV>
    decreases nets.len(),
{
    if nets.len() == 0 {
        Seq::empty()
    } else {
        note_ports(component_nets(nets.drop_last()), nets.last().ports, nets.last().name)
    }
}

fn note(list: &mut Vec<Attached>, at: InstanceRef, name: &str)
    ensures
        final(list).deep_view() == note_attached(old(list).deep_view(), at.deep_view(), name@),
{
    let ghost all = list.deep_view();
    let ghost av = at.deep_view();
    let n: usize = list.len();
    let mut i: usize = 0;
    while i < n
        invariant
            *list == *old(list),
            n == list@.len(),
            all == list.deep_view(),
            av == at.deep_view(),
            i <= n,
            forall|j: int| 0 <= j < i ==> (#[trigger] all[j]).at != av,
        decreases n - i,
    {
        assert(all[i as int] == list@[i as int].deep_view());
        if list[i].at.same(&at) {
            proof {
                note_at(all, av, name@, i as int);
            }
            let mut nets = list[i].nets.duplicate();
            let ghost nv = nets.deep_view();
            if !holds(&nets, name) {
                nets.push(name.to_string());
                assert(nets.deep_view() =~= nv.push(name@));
            }
            let ghost want = all.update(
                i as int,
                AttachedV { at: av, nets: with_net(all[i as int].nets, name@) },
            );
            list.set(i, Attached { at, nets });
            assert(list.deep_view() =~= want);
            return ;
        }
        i += 1;
    }
    proof {
        note_at(all, av, name@, n as int);
    }
    let mut nets: Vec<String> = Vec::new();
    nets.push(name.to_string());
    assert(nets.deep_view() =~= seq![name@]);
    let ghost want = all.push(AttachedV { at: av, nets: seq![name@] });
    list.push(Attached { at, nets });
    assert(list.deep_view() =~= want);
}

fn attached_components(schematic: &Schematic) -> (r: Vec<Attached>)
    ensures
        r.deep_view() == component_nets(schematic.deep_view().nets),
{
    let ghost nv = schematic.deep_view().nets;
    let mut list: Vec<Attached> = Vec::new();
    let n: usize = schematic.nets.len();
    let mut i: usize = 0;
    assert(list.deep_view() =~= component_nets(nv.take(0)));
    while i < n
        invariant
            n == schematic.nets@.len(),
            i <= n,
            nv == schematic.deep_view().nets,
            list.deep_view() == component_nets(nv.take(i as int)),
        decreases n - i,
    {
        let ghost base = list.deep_view();
        assert(nv.take(i + 1).drop_last() =~= nv.take(i as int));
        assert(nv[i as int] == schematic.nets@[i as int].deep_view());
        let net = &schematic.nets[i];
        let ghost pv = net.deep_view().ports;
        let m: usize = net.ports.len();
        let mut k: usize = 0;
        assert(pv.take(0) =~= Seq::empty());
        while k < m
            invariant
                m == net.ports@.len(),
                k <= m,
                pv == net.deep_view().ports,
                list.deep_view() == note_ports(base, pv.take(k as int), net.name@),
            decreases m - k,
        {
            assert(pv.take(k + 1).drop_last() =~= pv.take(k as int));
            assert(pv[k as int] == net.ports@[k as int].deep_view());
            match port_owner(&net.ports[k]) {
                Some(at) => {
                    note(&mut list, at, net.name.as_str());
                },
                None => {},
            }
            k += 1;
        }
        assert(pv.take(m as int) =~= pv);
        i += 1;
    }
    assert(nv.take(n as int) =~= nv);
    list
}

/// What the components are sorted by: their dotted paths.
pub open spec fn attached_paths(list: Seq<AttachedV>) -> Seq<Seq<char>> {
    Seq::new(list.len(), |i: int| joined(list[i].at.path, "."@))
}

/// The components by dotted path.
pub open spec fn by_path(list: Seq<AttachedV>) -> Seq<AttachedV> {
    picked(list, ranking::<String>(attached_paths(list)))
}

/// What the components are to direct currents: the conducting edges, the nets on capacitors, the
/// nets on parts without a model.
#[verifier::ext_equal]
pub struct PartsV {
    pub edges: Seq<DcEdgeV>,
    pub capacitor_nets: Seq<Seq<char>>,
    pub opaque_nets: Seq<Seq<char>>,
}

/// The edge that a conducting part is.
pub open spec fn edge_of(a: AttachedV, i: InstanceV, model: DcModel) -> DcEdgeV {
    DcEdgeV {
        refdes: match i.reference_designator {
            Some(r) => r,
            None => joined(a.at.path, "."@),
        },
        net_a: sorted::<String>(a.nets)[0],
        net_b: sorted::<String>(a.nets)[1],
        model,
    }
}

/// The parts with one more component. A conducting part counts if it is on two nets; one that
/// shorts its own pins carries no current between nets.
pub open spec fn with_part(p: PartsV, a: AttachedV, instances: Seq<InstanceV>) -> PartsV {
    match instance_at(instances, a.at) {
        Some(i) => if i.component {
            match dc_model_of(i) {
                Some(DcModel::Open) => PartsV {
                    capacitor_nets: p.capacitor_nets + a.nets,
                    ..p
                },
                Some(model) => if a.nets.len() == 2 {
                    PartsV { edges: p.edges.push(edge_of(a, i, model)), ..p }
                } else {
                    p
                },
                None => PartsV { opaque_nets: p.opaque_nets + a.nets, ..p },
            }
        } else {
            p
        },
        None => p,
    }
}

/// What the components are to direct currents.
pub open spec fn parts_of(list: Seq<AttachedV>, instances: Seq<InstanceV>) -> PartsV
    decreases list.len(),
{
    if list.len() == 0 {
        PartsV { edges: Seq::empty(), capacitor_nets: Seq::empty(), opaque_nets: Seq::empty() }
    } else {
        with_part(parts_of(list.drop_last(), instances), list.last(), instances)
    }
}

/// What the components are to direct currents.
pub struct Parts {
    pub edges: Vec<DcEdge>,
    pub capacitor_nets: Vec<String>,
    pub opaque_nets: Vec<String>,
}

impl DeepView for Parts {
    type V = PartsV;

    open spec fn deep_view(&self) -> PartsV {
        PartsV {
            edges: self.edges.deep_view(),
            capacitor_nets: self.capacitor_nets.deep_view(),
            opaque_nets: self.opaque_nets.deep_view(),
        }
    }
}

fn add_names(out: &mut Vec<String>, names: &Vec<String>)
    ensures
        final(out).deep_view() == old(out).deep_view() + names.deep_view(),
{
    let ghost base = out.deep_view();
    let ghost nv = names.deep_view();
    let n: usize = names.len();
    let mut i: usize = 0;
    assert(base + nv.take(0) =~= base);
    while i < n
        invariant
            n == names@.len(),
            i <= n,
            nv == names.deep_view(),
            out.deep_view() == base + nv.take(i as int),
        decreases n - i,
    {
        let ghost before = out.deep_view();
        out.push(names[i].clone());
        assert(out.deep_view() =~= before.push(nv[i as int]));
        assert(out.deep_view() =~= base + nv.take(i + 1));
        i += 1;
    }
    assert(nv.take(n as int) =~= nv);
}

fn add_part(parts: &mut Parts, a: &Attached, instances: &Vec<Instance>)
    ensures
        final(parts).deep_view() == with_part(
            old(parts).deep_view(),
            a.deep_view(),
            instances.deep_view(),
        ),
{
    let ghost before = parts.deep_view();
    let ghost want = with_part(before, a.deep_view(), instances.deep_view());
    match find_instance(instances, &a.at) {
        Some(i) => {
            if i.component {
                match dc_model(i) {
                    Some(DcModel::Open) => {
                        add_names(&mut parts.capacitor_nets, &a.nets);
                    },
                    Some(model) => {
                        if a.nets.len() == 2 {
                            let nets = in_order(&a.nets);
                            proof {
                                crate::order::sorting_keeps_items::<String>(
                                    a.nets.deep_view(),
                                    Seq::empty(),
                                );
                            }
                            assert(nets.deep_view().len() == nets@.len());
                            assert(nets@.len() == 2);
                            assert(nets.deep_view()[0] == nets@[0]@);
                            assert(nets.deep_view()[1] == nets@[1]@);
                            let refdes = match &i.reference_designator {
                                Some(r) => r.clone(),
                                None => join(&a.at.path, "."),
                            };
                            let ghost ev = edge_of(a.deep_view(), i.deep_view(), model);
                            parts.edges.push(
                                DcEdge {
                                    refdes,
                                    net_a: nets[0].clone(),
                                    net_b: nets[1].clone(),
                                    model,
                                },
                            );
                            assert(parts.edges.deep_view() =~= before.edges.push(ev));
                        }
                    },
                    None => {
                        add_names(&mut parts.opaque_nets, &a.nets);
                    },
                }
            }
        },
        None => {},
    }
    assert(parts.deep_view() =~= want);
}

/// Finds what the components of a netlist are to direct currents.
pub fn collect_parts(schematic: &Schematic) -> (r: Parts)
    ensures
        r.deep_view() == parts_of(
            by_path(component_nets(schematic.deep_view().nets)),
            schematic.deep_view().instances,
        ),
{
    let list = attached_components(schematic);
    let ghost lv = list.deep_view();
    let ghost iv = schematic.deep_view().instances;
    let n: usize = list.len();
    let mut paths: Vec<String> = Vec::new();
    let mut i: usize = 0;
    while i < n
        invariant
            n == list@.len(),
            i <= n,
            lv == list.deep_view(),
            paths.deep_view() == attached_paths(lv).take(i as int),
        decreases n - i,
    {
        let ghost before = paths.deep_view();
        assert(lv[i as int] == list@[i as int].deep_view());
        paths.push(join(&list[i].at.path, "."));
        assert(paths.deep_view() =~= before.push(attached_paths(lv)[i as int]));
        assert(paths.deep_view() =~= attached_paths(lv).take(i + 1));
        i += 1;
    }
    assert(attached_paths(lv).take(n as int) =~= attached_paths(lv));
    assert(paths@.len() == paths.deep_view().len());
    let order = rank_order(&paths);
    let ghost bv = by_path(lv);
    let mut parts = Parts {
        edges: Vec::new(),
        capacitor_nets: Vec::new(),
        opaque_nets: Vec::new(),
    };
    assert(parts.deep_view() =~= parts_of(bv.take(0), iv));
    let mut k: usize = 0;
    while k < n
        invariant
            n == list@.len(),
            n == order@.len(),
            k <= n,
            lv == list.deep_view(),
            iv == schematic.deep_view().instances,
            bv == by_path(lv),
            as_ints(order@) == ranking::<String>(attached_paths(lv)),
            forall|j: int| 0 <= j < order@.len() ==> (#[trigger] order@[j]) < n,
            parts.deep_view() == parts_of(bv.take(k as int), iv),
        decreases n - k,
    {
        assert(as_ints(order@)[k as int] == order@[k as int]);
        assert(as_ints(order@).len() == n);
        assert(bv[k as int] == lv[order@[k as int] as int]);
        assert(bv.take(k + 1).drop_last() =~= bv.take(k as int));
        assert(lv[order@[k as int] as int] == list@[order@[k as int] as int].deep_view());
        add_part(&mut parts, &list[order[k]], &schematic.instances);
        k += 1;
    }
    assert(as_ints(order@).len() == n);
    assert(bv.take(n as int) =~= bv);
    parts
}

} // verus!
