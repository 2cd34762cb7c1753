//! Which parts carry a direct current, which nets they link, and which nets carry none.
use vstd::prelude::*;

use crate::netlist::dc::{
    attached_paths, by_path, component_nets, dc_model, dc_model_of, edge_of, fixed_voltage, note_at,
    note_attached, note_ports, owner_of, parts_of, AttachedV, DcEdgeV, DcModel,
};
use crate::netlist::dc_plan::{
    can_be_solved, edge_ends, edge_in, edge_pairs, edges_lie_in_the_graph, graph_nets, group_at,
    group_roots, groups_below, has_reference, is_active, is_quiet, is_root, net_named,
    place_is_found, place_of, plan_static_currents, DcPlan, DcPlanV,
};
use crate::netlist::schematic::{
    find_physical, find_text, instance_at, Instance, InstanceRefV, InstanceV, Net, NetV, PortV,
    Schematic, SchematicV,
};
use crate::number::{below, zero, Real};
use crate::order::{permutation_is_onto, ranking, ranking_is_stable, sorted, sorting_keeps_items};
use crate::select::{places, places_are_exact};
use crate::steps::{distinct, distinct_holds, only, only_holds};
use crate::union_find::{
    is_walk, join_sets, joined_sets, paired, pairs_within, reaches, sets_are_connected_parts,
};

verus! {

/// The port is a pin of the component: it stands right below it.
pub open spec fn is_pin_of(port: PortV, at: InstanceRefV) -> bool {
    &&& port.at.module == at.module
    &&& at.path.len() > 0
    &&& exists|pin: Seq<char>| port.at.path == #[trigger] at.path.push(pin)
}

/// Port `k` of net `j` is a pin of the component.
pub open spec fn pin_at(nets: Seq<NetV>, at: InstanceRefV, j: int, k: int) -> bool {
    0 <= j < nets.len() && 0 <= k < nets[j].ports.len() && is_pin_of(nets[j].ports[k], at)
}

/// A pin of the component is on a net of the given name.
pub open spec fn is_on(nets: Seq<NetV>, at: InstanceRefV, name: Seq<char>) -> bool {
    exists|j: int, k: int| #[trigger] pin_at(nets, at, j, k) && nets[j].name == name
}

/// The component is on the two nets, and on no other.
pub open spec fn is_between(
    nets: Seq<NetV>,
    at: InstanceRefV,
    a: Seq<char>,
    b: Seq<char>,
) -> bool {
    &&& a != b
    &&& is_on(nets, at, a)
    &&& is_on(nets, at, b)
    &&& forall|name: Seq<char>| #[trigger] is_on(nets, at, name) ==> name == a || name == b
}

proof fn owner_is_above(port: PortV, at: InstanceRefV)
    ensures
        owner_of(port) == Some(at) <==> is_pin_of(port, at),
{
    if owner_of(port) == Some(at) {
        assert(port.at.path =~= at.path.push(port.at.path.last()));
    }
    if is_pin_of(port, at) {
        let pin = choose|pin: Seq<char>| port.at.path == #[trigger] at.path.push(pin);
        assert(at.path.push(pin).drop_last() =~= at.path);
    }
}

/// The list has the component on the net.
spec fn has(list: Seq<AttachedV>, at: InstanceRefV, name: Seq<char>) -> bool {
    exists|x: int| 0 <= x < list.len() && (#[trigger] list[x]).at == at && list[x].nets.contains(
        name,
    )
}

/// Each component stands in the list once, with each of its nets once.
spec fn is_tidy(list: Seq<AttachedV>) -> bool {
    &&& forall|x: int, y: int|
        0 <= x < y < list.len() ==> (#[trigger] list[x]).at != (#[trigger] list[y]).at
    &&& forall|x: int| 0 <= x < list.len() ==> (#[trigger] list[x]).nets.no_duplicates()
}

proof fn first_of(list: Seq<AttachedV>, at: InstanceRefV) -> (k: int)
    ensures
        0 <= k <= list.len(),
        forall|i: int| 0 <= i < k ==> (#[trigger] list[i]).at != at,
        k < list.len() ==> list[k].at == at,
    decreases list.len(),
{
    if list.len() == 0 {
        0
    } else if list[0].at == at {
        0
    } else {
        let rest = list.drop_first();
        let k = first_of(rest, at);
        assert forall|i: int| 0 <= i < k + 1 implies (#[trigger] list[i]).at != at by {
            if i > 0 {
                assert(rest[i - 1] == list[i]);
            }
        }
        if k < rest.len() {
            assert(rest[k] == list[k + 1]);
        }
        k + 1
    }
}

proof fn noting(list: Seq<AttachedV>, at: InstanceRefV, name: Seq<char>)
    requires
        is_tidy(list),
    ensures
        is_tidy(note_attached(list, at, name)),
        forall|a: InstanceRefV, n: Seq<char>| #[trigger]
            has(note_attached(list, at, name), a, n) <==> has(list, a, n) || (a == at && n == name),
{
    let k = first_of(list, at);
    note_at(list, at, name, k);
    let r = note_attached(list, at, name);
    if k < list.len() {
        let old_nets = list[k].nets;
        let new_nets = r[k].nets;
        assert(r.len() == list.len());
        assert forall|n: Seq<char>| new_nets.contains(n) <==> old_nets.contains(n) || n == name by {
            if old_nets.contains(n) {
                let i = choose|i: int| 0 <= i < old_nets.len() && old_nets[i] == n;
                assert(new_nets[i] == n);
            }
            if n == name && !old_nets.contains(name) {
                assert(new_nets[new_nets.len() - 1] == name);
            }
        }
        assert forall|a: InstanceRefV, n: Seq<char>| #[trigger] has(r, a, n) <==> has(list, a, n)
            || (a == at && n == name) by {
            if has(r, a, n) {
                let x = choose|x: int|
                    0 <= x < r.len() && (#[trigger] r[x]).at == a && r[x].nets.contains(n);
                if x != k {
                    assert(r[x] == list[x]);
                    assert(list[x].at == a && list[x].nets.contains(n));
                } else if old_nets.contains(n) {
                    assert(list[k].at == a && list[k].nets.contains(n));
                }
            }
            if has(list, a, n) {
                let x = choose|x: int|
                    0 <= x < list.len() && (#[trigger] list[x]).at == a && list[x].nets.contains(n);
                if x != k {
                    assert(r[x] == list[x]);
                }
                assert(r[x].at == a && r[x].nets.contains(n));
            }
            if a == at && n == name {
                assert(r[k].at == a && r[k].nets.contains(n));
            }
        }
        assert forall|x: int| 0 <= x < r.len() implies (#[trigger] r[x]).nets.no_duplicates() by {
            assert(list[x].nets.no_duplicates());
            if x == k && !old_nets.contains(name) {
                assert forall|i: int, j: int| 0 <= i < new_nets.len() && 0 <= j < new_nets.len()
                    && i != j implies new_nets[i] != new_nets[j] by {
                    if i == old_nets.len() {
                        assert(old_nets.contains(old_nets[j]));
                    } else if j == old_nets.len() {
                        assert(old_nets.contains(old_nets[i]));
                    }
                }
            }
        }
        assert forall|x: int, y: int| 0 <= x < y < r.len() implies (#[trigger] r[x]).at != (
        #[trigger] r[y]).at by {
            assert(r[x].at == list[x].at);
            assert(r[y].at == list[y].at);
        }
    } else {
        assert(r == list.push(AttachedV { at, nets: seq![name] }));
        assert forall|a: InstanceRefV, n: Seq<char>| #[trigger] has(r, a, n) <==> has(list, a, n)
            || (a == at && n == name) by {
            if has(r, a, n) {
                let x = choose|x: int|
                    0 <= x < r.len() && (#[trigger] r[x]).at == a && r[x].nets.contains(n);
                if x < list.len() {
                    assert(list[x].at == a && list[x].nets.contains(n));
                }
            }
            if has(list, a, n) {
                let x = choose|x: int|
                    0 <= x < list.len() && (#[trigger] list[x]).at == a && list[x].nets.contains(n);
                assert(r[x].at == a && r[x].nets.contains(n));
            }
            if a == at && n == name {
                let last = r[list.len() as int];
                assert(last.nets[0] == name);
                assert(last.at == a && last.nets.contains(n));
            }
        }
    }
}

/// Some of the ports is a pin of the component.
spec fn any_pin(ports: Seq<PortV>, at: InstanceRefV) -> bool {
    exists|k: int| 0 <= k < ports.len() && is_pin_of(#[trigger] ports[k], at)
}

proof fn noting_ports(list: Seq<AttachedV>, ports: Seq<PortV>, name: Seq<char>)
    requires
        is_tidy(list),
    ensures
        is_tidy(note_ports(list, ports, name)),
        forall|a: InstanceRefV, n: Seq<char>| #[trigger]
            has(note_ports(list, ports, name), a, n) <==> has(list, a, n) || (n == name && any_pin(
                ports,
                a,
            )),
    decreases ports.len(),
{
    if ports.len() > 0 {
        let front = ports.drop_last();
        noting_ports(list, front, name);
        let before = note_ports(list, front, name);
        let r = note_ports(list, ports, name);
        match owner_of(ports.last()) {
            Some(at) => {
                noting(before, at, name);
            },
            None => {},
        }
        assert forall|a: InstanceRefV, n: Seq<char>| #[trigger] has(r, a, n) <==> has(list, a, n)
            || (n == name && any_pin(ports, a)) by {
            owner_is_above(ports.last(), a);
            assert(ports[ports.len() - 1] == ports.last());
            assert(has(before, a, n) <==> has(list, a, n) || (n == name && any_pin(front, a)));
            if any_pin(front, a) {
                let k = choose|k: int| 0 <= k < front.len() && is_pin_of(#[trigger] front[k], a);
                assert(is_pin_of(ports[k], a));
            }
            if any_pin(ports, a) && !is_pin_of(ports.last(), a) {
                let k = choose|k: int| 0 <= k < ports.len() && is_pin_of(#[trigger] ports[k], a);
                assert(is_pin_of(front[k], a));
            }
        }
    }
}

proof fn components_are_on_their_nets(nets: Seq<NetV>)
    ensures
        is_tidy(component_nets(nets)),
        forall|a: InstanceRefV, n: Seq<char>| #[trigger]
            has(component_nets(nets), a, n) <==> is_on(nets, a, n),
    decreases nets.len(),
{
    let r = component_nets(nets);
    if nets.len() > 0 {
        let front = nets.drop_last();
        components_are_on_their_nets(front);
        let before = component_nets(front);
        noting_ports(before, nets.last().ports, nets.last().name);
        let last = nets.len() - 1;
        assert forall|a: InstanceRefV, n: Seq<char>| #[trigger] has(r, a, n) <==> is_on(
            nets,
            a,
            n,
        ) by {
            assert(has(before, a, n) <==> is_on(front, a, n));
            if is_on(front, a, n) {
                let (j, k) = choose|j: int, k: int| #[trigger]
                    pin_at(front, a, j, k) && front[j].name == n;
                assert(pin_at(nets, a, j, k) && nets[j].name == n);
            }
            if n == nets.last().name && any_pin(nets.last().ports, a) {
                let k = choose|k: int|
                    0 <= k < nets.last().ports.len() && is_pin_of(
                        #[trigger] nets.last().ports[k],
                        a,
                    );
                assert(pin_at(nets, a, last, k));
            }
            if is_on(nets, a, n) {
                let (j, k) = choose|j: int, k: int| #[trigger]
                    pin_at(nets, a, j, k) && nets[j].name == n;
                if j < last {
                    assert(pin_at(front, a, j, k) && front[j].name == n);
                } else {
                    assert(is_pin_of(nets.last().ports[k], a));
                }
            }
        }
    } else {
        assert forall|a: InstanceRefV, n: Seq<char>| #[trigger] has(r, a, n) <==> is_on(
            nets,
            a,
            n,
        ) by {
            if is_on(nets, a, n) {
                let (j, k) = choose|j: int, k: int| #[trigger]
                    pin_at(nets, a, j, k) && nets[j].name == n;
            }
        }
    }
}

proof fn sorting_components(list: Seq<AttachedV>)
    requires
        is_tidy(list),
    ensures
        is_tidy(by_path(list)),
        forall|a: InstanceRefV, n: Seq<char>| #[trigger]
            has(by_path(list), a, n) <==> has(list, a, n),
{
    let p = ranking::<String>(attached_paths(list));
    ranking_is_stable::<String>(attached_paths(list));
    let r = by_path(list);
    assert forall|x: int| 0 <= x < r.len() implies #[trigger] r[x] == list[p[x]] && 0 <= p[x]
        < list.len() by {}
    assert forall|x: int, y: int| 0 <= x < y < r.len() implies (#[trigger] r[x]).at != (
    #[trigger] r[y]).at by {
        assert(p[x] != p[y]);
        if p[x] < p[y] {
            assert(list[p[x]].at != list[p[y]].at);
        } else {
            assert(list[p[y]].at != list[p[x]].at);
        }
    }
    assert forall|a: InstanceRefV, n: Seq<char>| #[trigger] has(r, a, n) <==> has(list, a, n) by {
        if has(r, a, n) {
            let x = choose|x: int|
                0 <= x < r.len() && (#[trigger] r[x]).at == a && r[x].nets.contains(n);
            assert(list[p[x]].at == a && list[p[x]].nets.contains(n));
        }
        if has(list, a, n) {
            let y = choose|y: int|
                0 <= y < list.len() && (#[trigger] list[y]).at == a && list[y].nets.contains(n);
            permutation_is_onto(p, list.len(), y);
            let x = choose|x: int| 0 <= x < p.len() && p[x] == y;
            assert(r[x].at == a && r[x].nets.contains(n));
        }
    }
}

/// The components of a netlist as the plan takes them.
spec fn listed(s: SchematicV) -> Seq<AttachedV> {
    by_path(component_nets(s.nets))
}

proof fn listed_are_on_their_nets(s: SchematicV)
    ensures
        is_tidy(listed(s)),
        forall|a: InstanceRefV, n: Seq<char>| #[trigger] has(listed(s), a, n) <==> is_on(
            s.nets,
            a,
            n,
        ),
{
    components_are_on_their_nets(s.nets);
    sorting_components(component_nets(s.nets));
    assert forall|a: InstanceRefV, n: Seq<char>| #[trigger] has(listed(s), a, n) <==> is_on(
        s.nets,
        a,
        n,
    ) by {
        assert(has(component_nets(s.nets), a, n) <==> is_on(s.nets, a, n));
    }
}

/// The component at the place is the instance.
pub open spec fn is_part(s: SchematicV, at: InstanceRefV, i: InstanceV) -> bool {
    instance_at(s.instances, at) == Some(i) && i.component
}

/// The declared type of the instance.
pub open spec fn has_type(i: InstanceV, t: Seq<char>) -> bool {
    find_text(i.attributes, "type"@) == Some(t)
}

/// The instance lets a direct current pass: a resistor by its resistance, which is above zero, an
/// inductor or a ferrite bead nearly without any.
pub open spec fn conducts(i: InstanceV, model: DcModel) -> bool {
    match model {
        DcModel::Resistive(ohms) => {
            &&& has_type(i, "resistor"@)
            &&& find_physical(i.attributes, "resistance"@) is Some
            &&& find_physical(i.attributes, "resistance"@)->0.real == Some(ohms)
            &&& below(zero(), ohms)
        },
        DcModel::Short => has_type(i, "inductor"@) || has_type(i, "ferrite_bead"@),
        DcModel::Open => false,
    }
}

/// The instance lets some direct current pass.
pub open spec fn is_conductor(i: InstanceV) -> bool {
    exists|model: DcModel| #[trigger] conducts(i, model)
}

proof fn types_differ()
    ensures
        "resistor"@ != "inductor"@,
        "resistor"@ != "ferrite_bead"@,
        "resistor"@ != "capacitor"@,
        "inductor"@ != "ferrite_bead"@,
        "inductor"@ != "capacitor"@,
        "ferrite_bead"@ != "capacitor"@,
{
    reveal_strlit("resistor");
    reveal_strlit("inductor");
    reveal_strlit("ferrite_bead");
    reveal_strlit("capacitor");
    assert("resistor"@[0] == 'r');
    assert("inductor"@[0] == 'i');
    assert("ferrite_bead"@[0] == 'f');
    assert("capacitor"@[0] == 'c');
}

/// What a component is to a direct current goes by its declared type: resistors of a resistance
/// above zero, inductors and ferrite beads conduct, capacitors block, and of any other part nothing
/// is known.
pub proof fn models_go_by_type(instance: Instance, r: Option<DcModel>)
    requires
        dc_model.ensures((&instance,), r),
    ensures
        forall|m: DcModel| m != DcModel::Open ==> (r == Some(m) <==> #[trigger] conducts(
            instance.deep_view(),
            m,
        )),
        r == Some(DcModel::Open) <==> has_type(instance.deep_view(), "capacitor"@),
        r is None <==> !is_conductor(instance.deep_view()) && !has_type(
            instance.deep_view(),
            "capacitor"@,
        ),
{
    types_differ();
    model_is_known(instance.deep_view());
}

proof fn model_is_known(i: InstanceV)
    ensures
        forall|m: DcModel| m != DcModel::Open ==> (dc_model_of(i) == Some(m) <==> #[trigger]
            conducts(i, m)),
        dc_model_of(i) == Some(DcModel::Open) <==> has_type(i, "capacitor"@),
        dc_model_of(i) is None <==> !is_conductor(i) && !has_type(i, "capacitor"@),
{
    types_differ();
    if let Some(m) = dc_model_of(i) {
        if m != DcModel::Open {
            assert(conducts(i, m));
        }
    }
    if is_conductor(i) {
        let m = choose|m: DcModel| #[trigger] conducts(i, m);
        assert(dc_model_of(i) == Some(m));
    }
}

/// The component is listed with two nets, and the edge is what it conducts between them.
spec fn makes_edge(a: AttachedV, instances: Seq<InstanceV>, e: DcEdgeV) -> bool {
    match instance_at(instances, a.at) {
        Some(i) => i.component && a.nets.len() == 2 && conducts(i, e.model) && e == edge_of(
            a,
            i,
            e.model,
        ),
        None => false,
    }
}

spec fn listed_at(list: Seq<AttachedV>, name: Seq<char>, x: int) -> bool {
    0 <= x < list.len() && list[x].nets.contains(name)
}

proof fn parts_are_exact(list: Seq<AttachedV>, instances: Seq<InstanceV>)
    ensures
        forall|e: DcEdgeV| #[trigger]
            parts_of(list, instances).edges.contains(e) <==> exists|x: int|
                0 <= x < list.len() && makes_edge(#[trigger] list[x], instances, e),
        forall|n: Seq<char>| #[trigger]
            parts_of(list, instances).capacitor_nets.contains(n) <==> exists|x: int| #[trigger]
                listed_at(list, n, x) && instance_at(instances, list[x].at) is Some && instance_at(
                    instances,
                    list[x].at,
                )->0.component && has_type(instance_at(instances, list[x].at)->0, "capacitor"@),
        forall|n: Seq<char>| #[trigger]
            parts_of(list, instances).opaque_nets.contains(n) <==> exists|x: int| #[trigger]
                listed_at(list, n, x) && instance_at(instances, list[x].at) is Some && instance_at(
                    instances,
                    list[x].at,
                )->0.component && !has_type(instance_at(instances, list[x].at)->0, "capacitor"@)
                    && !is_conductor(instance_at(instances, list[x].at)->0),
    decreases list.len(),
{
    let all = parts_of(list, instances);
    if list.len() > 0 {
        let front = list.drop_last();
        let last = list.last();
        let end = list.len() - 1;
        assert(list[end] == last);
        parts_are_exact(front, instances);
        let p = parts_of(front, instances);
        if let Some(i) = instance_at(instances, last.at) {
            model_is_known(i);
        }
        assert forall|e: DcEdgeV| #[trigger] all.edges.contains(e) <==> exists|x: int|
            0 <= x < list.len() && makes_edge(#[trigger] list[x], instances, e) by {
            let added = makes_edge(last, instances, e);
            assert(all.edges.contains(e) <==> p.edges.contains(e) || added) by {
                if p.edges.contains(e) {
                    let k = choose|k: int| 0 <= k < p.edges.len() && p.edges[k] == e;
                    assert(all.edges[k] == e);
                }
                if added {
                    assert(all.edges == p.edges.push(e));
                    assert(all.edges[all.edges.len() - 1] == e);
                }
                if all.edges.contains(e) {
                    let k = choose|k: int| 0 <= k < all.edges.len() && all.edges[k] == e;
                    if k < p.edges.len() {
                        assert(p.edges[k] == e);
                    }
                }
            }
            if exists|x: int| 0 <= x < front.len() && makes_edge(#[trigger] front[x], instances, e) {
                let x = choose|x: int|
                    0 <= x < front.len() && makes_edge(#[trigger] front[x], instances, e);
                assert(makes_edge(list[x], instances, e));
            }
            if exists|x: int| 0 <= x < list.len() && makes_edge(#[trigger] list[x], instances, e) {
                let x = choose|x: int|
                    0 <= x < list.len() && makes_edge(#[trigger] list[x], instances, e);
                if x < end {
                    assert(makes_edge(front[x], instances, e));
                }
            }
        }
        let cap = |x: AttachedV|
            instance_at(instances, x.at) is Some && instance_at(instances, x.at)->0.component
                && has_type(instance_at(instances, x.at)->0, "capacitor"@);
        let dim = |x: AttachedV|
            instance_at(instances, x.at) is Some && instance_at(instances, x.at)->0.component
                && !has_type(instance_at(instances, x.at)->0, "capacitor"@) && !is_conductor(
                instance_at(instances, x.at)->0,
            );
        assert(all.capacitor_nets == if cap(last) {
            p.capacitor_nets + last.nets
        } else {
            p.capacitor_nets
        });
        assert(all.opaque_nets == if dim(last) {
            p.opaque_nets + last.nets
        } else {
            p.opaque_nets
        });
        assert forall|n: Seq<char>| #[trigger] all.capacitor_nets.contains(n) <==> exists|x: int|
            #[trigger] listed_at(list, n, x) && cap(list[x]) by {
            joined_contains(p.capacitor_nets, last.nets, n);
            assert(p.capacitor_nets.contains(n) <==> exists|x: int| #[trigger]
                listed_at(front, n, x) && cap(front[x]));
            one_more_listed(list, n, cap);
        }
        assert forall|n: Seq<char>| #[trigger] all.opaque_nets.contains(n) <==> exists|x: int|
            #[trigger] listed_at(list, n, x) && dim(list[x]) by {
            joined_contains(p.opaque_nets, last.nets, n);
            assert(p.opaque_nets.contains(n) <==> exists|x: int| #[trigger] listed_at(front, n, x)
                && dim(front[x]));
            one_more_listed(list, n, dim);
        }
    }
}

proof fn joined_contains(a: Seq<Seq<char>>, b: Seq<Seq<char>>, n: Seq<char>)
    ensures
        (a + b).contains(n) <==> a.contains(n) || b.contains(n),
{
    let r = a + b;
    if a.contains(n) {
        let i = choose|i: int| 0 <= i < a.len() && a[i] == n;
        assert(r[i] == n);
    }
    if b.contains(n) {
        let i = choose|i: int| 0 <= i < b.len() && b[i] == n;
        assert(r[a.len() + i] == n);
    }
    if r.contains(n) {
        let i = choose|i: int| 0 <= i < r.len() && r[i] == n;
        if i < a.len() {
            assert(a[i] == n);
        } else {
            assert(b[i - a.len()] == n);
        }
    }
}

proof fn one_more_listed(list: Seq<AttachedV>, n: Seq<char>, test: spec_fn(AttachedV) -> bool)
    requires
        list.len() > 0,
    ensures
        (exists|x: int| #[trigger] listed_at(list, n, x) && test(list[x])) <==> (exists|x: int|
            #[trigger] listed_at(list.drop_last(), n, x) && test(list.drop_last()[x])) || (
        list.last().nets.contains(n) && test(list.last())),
{
    let front = list.drop_last();
    let end = list.len() - 1;
    if exists|x: int| #[trigger] listed_at(list, n, x) && test(list[x]) {
        let x = choose|x: int| #[trigger] listed_at(list, n, x) && test(list[x]);
        if x < end {
            assert(listed_at(front, n, x) && test(front[x]));
        }
    }
    if exists|x: int| #[trigger] listed_at(front, n, x) && test(front[x]) {
        let x = choose|x: int| #[trigger] listed_at(front, n, x) && test(front[x]);
        assert(listed_at(list, n, x) && test(list[x]));
    }
    if list.last().nets.contains(n) && test(list.last()) {
        assert(listed_at(list, n, end) && test(list[end]));
    }
}

proof fn two_nets(s: SchematicV, x: int)
    requires
        0 <= x < listed(s).len(),
        listed(s)[x].nets.len() == 2,
    ensures
        is_between(s.nets, listed(s)[x].at, listed(s)[x].nets[0], listed(s)[x].nets[1]),
{
    let list = listed(s);
    listed_are_on_their_nets(s);
    let a = list[x];
    assert(a.nets.no_duplicates());
    assert(a.nets.contains(a.nets[0]) && a.nets.contains(a.nets[1]));
    assert(has(list, a.at, a.nets[0]));
    assert(has(list, a.at, a.nets[1]));
    assert forall|name: Seq<char>| #[trigger] is_on(s.nets, a.at, name) implies name == a.nets[0]
        || name == a.nets[1] by {
        assert(has(list, a.at, name));
        let y = choose|y: int|
            0 <= y < list.len() && (#[trigger] list[y]).at == a.at && list[y].nets.contains(name);
        assert(y == x) by {
            if x < y {
                assert(list[x].at != list[y].at);
            } else if y < x {
                assert(list[y].at != list[x].at);
            }
        }
        let k = choose|k: int| 0 <= k < a.nets.len() && a.nets[k] == name;
        assert(k == 0 || k == 1);
    }
}

proof fn found_between(s: SchematicV, at: InstanceRefV, a: Seq<char>, b: Seq<char>) -> (x: int)
    requires
        is_between(s.nets, at, a, b),
    ensures
        0 <= x < listed(s).len(),
        listed(s)[x].at == at,
        listed(s)[x].nets.len() == 2,
        listed(s)[x].nets.contains(a),
        listed(s)[x].nets.contains(b),
{
    let list = listed(s);
    listed_are_on_their_nets(s);
    assert(has(list, at, a));
    assert(has(list, at, b));
    let x = choose|x: int|
        0 <= x < list.len() && (#[trigger] list[x]).at == at && list[x].nets.contains(a);
    let y = choose|y: int|
        0 <= y < list.len() && (#[trigger] list[y]).at == at && list[y].nets.contains(b);
    assert(y == x) by {
        if x < y {
            assert(list[x].at != list[y].at);
        } else if y < x {
            assert(list[y].at != list[x].at);
        }
    }
    let nets = list[x].nets;
    assert(nets.no_duplicates());
    assert forall|k: int| 0 <= k < nets.len() implies #[trigger] nets[k] == a || nets[k] == b by {
        assert(nets.contains(nets[k]));
        assert(has(list, at, nets[k]));
    }
    if nets.len() > 2 {
        assert(nets[0] != nets[1] && nets[1] != nets[2] && nets[0] != nets[2]);
    }
    if nets.len() == 1 {
        assert(nets[0] == a && nets[0] == b);
    }
    x
}

proof fn ends_are_the_nets(a: AttachedV, i: InstanceV, m: DcModel, x: Seq<char>, y: Seq<char>)
    requires
        a.nets.len() == 2,
        a.nets.contains(x),
        a.nets.contains(y),
        x != y,
    ensures
        ({
            let e = edge_of(a, i, m);
            (e.net_a == x && e.net_b == y) || (e.net_a == y && e.net_b == x)
        }),
{
    sorting_keeps_items::<String>(a.nets, x);
    sorting_keeps_items::<String>(a.nets, y);
    let t = sorted::<String>(a.nets);
    let p = choose|p: int| 0 <= p < t.len() && t[p] == x;
    let q = choose|q: int| 0 <= q < t.len() && t[q] == y;
    assert(p != q);
}

/// The nets at the two places of a group.
pub open spec fn grouped(plan: DcPlanV, g: int, a: Seq<char>, b: Seq<char>) -> bool {
    &&& 0 <= g < plan.groups.len()
    &&& exists|x: int| #[trigger] plan.groups[g].nets.contains(x) && 0 <= x < plan.nets.len()
        && plan.nets[x] == a
    &&& exists|y: int| #[trigger] plan.groups[g].nets.contains(y) && 0 <= y < plan.nets.len()
        && plan.nets[y] == b
}

proof fn roots_stand(n: nat, pairs: Seq<(int, int)>)
    requires
        pairs_within(n, pairs),
    ensures
        joined_sets(n, pairs).len() == n,
        forall|i: int| 0 <= i < n ==> 0 <= (#[trigger] joined_sets(n, pairs)[i]) < n,
        forall|i: int|
            0 <= i < n ==> joined_sets(n, pairs)[#[trigger] joined_sets(n, pairs)[i]]
                == joined_sets(n, pairs)[i],
    decreases pairs.len(),
{
    if pairs.len() > 0 {
        let front = pairs.drop_last();
        assert(pairs_within(n, front)) by {
            assert forall|i: int| 0 <= i < front.len() implies 0 <= (#[trigger] front[i]).0 < n
                && 0 <= front[i].1 < n by {
                assert(front[i] == pairs[i]);
            }
        }
        roots_stand(n, front);
        let r = joined_sets(n, front);
        let a = pairs.last().0;
        let b = pairs.last().1;
        assert(pairs[pairs.len() - 1] == pairs.last());
        assert(0 <= a < n && 0 <= b < n);
        let t = join_sets(r, a, b);
        assert forall|i: int| 0 <= i < n implies 0 <= (#[trigger] t[i]) < n by {
            assert(0 <= r[i] < n && 0 <= r[b] < n);
        }
        assert forall|i: int| 0 <= i < n implies t[#[trigger] t[i]] == t[i] by {
            assert(r[r[i]] == r[i]);
            assert(r[r[b]] == r[b]);
        }
    }
}

proof fn group_is_listed(all: Seq<NetV>, edges: Seq<DcEdgeV>, n: int, root: int) -> (g: int)
    requires
        0 <= root < n,
        group_roots(edges)[root] == root,
    ensures
        0 <= g < groups_below(all, edges, n).len(),
        groups_below(all, edges, n)[g] == group_at(all, edges, root),
    decreases n,
{
    if root == n - 1 {
        groups_below(all, edges, n).len() - 1
    } else {
        group_is_listed(all, edges, n - 1, root)
    }
}

proof fn listed_group(all: Seq<NetV>, edges: Seq<DcEdgeV>, n: int, g: int) -> (root: int)
    requires
        0 <= g < groups_below(all, edges, n).len(),
    ensures
        0 <= root < n,
        group_roots(edges)[root] == root,
        groups_below(all, edges, n)[g] == group_at(all, edges, root),
    decreases n,
{
    if group_roots(edges)[n - 1] == n - 1 && g == groups_below(all, edges, n).len() - 1 {
        n - 1
    } else {
        listed_group(all, edges, n - 1, g)
    }
}

proof fn pairs_lie_within(edges: Seq<DcEdgeV>)
    ensures
        pairs_within(graph_nets(edges).len(), edge_pairs(edges, graph_nets(edges))),
{
    let nets = graph_nets(edges);
    assert forall|i: int| 0 <= i < edge_pairs(edges, nets).len() implies 0 <= (
    #[trigger] edge_pairs(edges, nets)[i]).0 < nets.len() && 0 <= edge_pairs(edges, nets)[i].1
        < nets.len() by {
        edges_lie_in_the_graph(edges, i);
    }
}

/// A conducting part on exactly two nets is an edge of the plan between them: inductors and ferrite
/// beads of nearly no resistance, resistors of theirs. The two nets lie in one group, and the edge
/// belongs to it.
pub proof fn conductors_link_their_nets(
    schematic: Schematic,
    plan: DcPlan,
    at: InstanceRefV,
    i: InstanceV,
    model: DcModel,
    a: Seq<char>,
    b: Seq<char>,
) -> (r: (int, int))
    requires
        plan_static_currents.ensures((&schematic,), plan),
        is_part(schematic.deep_view(), at, i),
        conducts(i, model),
        is_between(schematic.deep_view().nets, at, a, b),
    ensures
        0 <= r.0 < plan.edges@.len(),
        plan.edges@[r.0].model == model,
        (plan.edges@[r.0].net_a@ == a && plan.edges@[r.0].net_b@ == b) || (plan.edges@[r.0].net_a@
            == b && plan.edges@[r.0].net_b@ == a),
        i.reference_designator is Some ==> plan.edges@[r.0].refdes@ == i.reference_designator->0,
        grouped(plan.deep_view(), r.1, a, b),
        plan.deep_view().groups[r.1].edges.contains(r.0),
{
    let s = schematic.deep_view();
    let p = plan.deep_view();
    let list = listed(s);
    let edges = p.edges;
    let nets = p.nets;
    let x = found_between(s, at, a, b);
    parts_are_exact(list, s.instances);
    let e = edge_of(list[x], i, model);
    assert(makes_edge(list[x], s.instances, e));
    assert(edges == parts_of(list, s.instances).edges);
    assert(edges.contains(e));
    let k = choose|k: int| 0 <= k < edges.len() && edges[k] == e;
    ends_are_the_nets(list[x], i, model, a, b);
    assert(edges.len() == plan.edges@.len());
    assert(edges[k] == plan.edges@[k].deep_view());
    pairs_lie_within(edges);
    let pairs = edge_pairs(edges, nets);
    let roots = group_roots(edges);
    let n = nets.len();
    roots_stand(n, pairs);
    edges_lie_in_the_graph(edges, k);
    place_is_found(nets, e.net_a);
    place_is_found(nets, e.net_b);
    let u = place_of(nets, e.net_a);
    let v = place_of(nets, e.net_b);
    assert(pairs[k] == (u, v));
    assert(paired(pairs, u, v));
    assert(is_walk(pairs, seq![u, v]));
    assert(seq![u, v].last() == v);
    assert(reaches(pairs, u, v));
    sets_are_connected_parts(n, pairs, u, v);
    let root = roots[u];
    assert(roots[root] == root);
    let g = group_is_listed(s.nets, edges, n as int, root);
    places_are_exact(roots, is_root(root));
    places_are_exact(pairs, edge_in(roots, root));
    let group = group_at(s.nets, edges, root);
    assert(group.nets.contains(u));
    assert(group.nets.contains(v));
    assert(group.edges.contains(k));
    assert(p.groups[g] == group);
    (k, g)
}

/// Every edge of the plan is a conducting part, on exactly the two nets that it links.
pub proof fn edges_are_conductors(schematic: Schematic, plan: DcPlan, k: int) -> (r: (
    InstanceRefV,
    InstanceV,
))
    requires
        plan_static_currents.ensures((&schematic,), plan),
        0 <= k < plan.edges@.len(),
    ensures
        is_part(schematic.deep_view(), r.0, r.1),
        conducts(r.1, plan.edges@[k].model),
        is_between(
            schematic.deep_view().nets,
            r.0,
            plan.edges@[k].net_a@,
            plan.edges@[k].net_b@,
        ),
{
    let s = schematic.deep_view();
    let list = listed(s);
    let edges = plan.deep_view().edges;
    assert(edges.len() == plan.edges@.len());
    let e = edges[k];
    assert(e == plan.edges@[k].deep_view());
    parts_are_exact(list, s.instances);
    assert(edges.contains(e));
    assert(parts_of(list, s.instances).edges.contains(e));
    let x = choose|x: int| 0 <= x < list.len() && makes_edge(#[trigger] list[x], s.instances, e);
    let i = instance_at(s.instances, list[x].at)->0;
    two_nets(s, x);
    let nets = list[x].nets;
    ends_are_the_nets(list[x], i, e.model, nets[0], nets[1]);
    (list[x].at, i)
}

/// Some component with the property is on the net.
pub open spec fn some_part_on(s: SchematicV, name: Seq<char>, test: spec_fn(InstanceV) -> bool) -> bool {
    exists|at: InstanceRefV, i: InstanceV| #[trigger]
        is_part(s, at, i) && is_on(s.nets, at, name) && test(i)
}

/// A conducting part links the net to another.
pub open spec fn is_linked(s: SchematicV, name: Seq<char>) -> bool {
    exists|at: InstanceRefV, i: InstanceV, other: Seq<char>| #[trigger]
        is_part(s, at, i) && is_conductor(i) && #[trigger] is_between(s.nets, at, name, other)
}

proof fn part_nets(s: SchematicV, name: Seq<char>, test: spec_fn(InstanceV) -> bool)
    ensures
        (exists|x: int| #[trigger]
            listed_at(listed(s), name, x) && instance_at(s.instances, listed(s)[x].at) is Some
                && instance_at(s.instances, listed(s)[x].at)->0.component && test(
                instance_at(s.instances, listed(s)[x].at)->0,
            )) <==> some_part_on(s, name, test),
{
    let list = listed(s);
    listed_are_on_their_nets(s);
    if some_part_on(s, name, test) {
        let (at, i) = choose|at: InstanceRefV, i: InstanceV| #[trigger]
            is_part(s, at, i) && is_on(s.nets, at, name) && test(i);
        assert(has(list, at, name));
        let x = choose|x: int|
            0 <= x < list.len() && (#[trigger] list[x]).at == at && list[x].nets.contains(name);
        assert(listed_at(list, name, x));
    }
    if exists|x: int| #[trigger]
        listed_at(list, name, x) && instance_at(s.instances, list[x].at) is Some && instance_at(
            s.instances,
            list[x].at,
        )->0.component && test(instance_at(s.instances, list[x].at)->0) {
        let x = choose|x: int| #[trigger]
            listed_at(list, name, x) && instance_at(s.instances, list[x].at) is Some
                && instance_at(s.instances, list[x].at)->0.component && test(
                instance_at(s.instances, list[x].at)->0,
            );
        let at = list[x].at;
        let i = instance_at(s.instances, at)->0;
        assert(has(list, at, name));
        assert(is_part(s, at, i));
        assert(is_on(s.nets, at, name));
    }
}

proof fn linked_nets(schematic: Schematic, plan: DcPlan, name: Seq<char>)
    requires
        plan_static_currents.ensures((&schematic,), plan),
    ensures
        plan.deep_view().nets.contains(name) <==> is_linked(schematic.deep_view(), name),
{
    let s = schematic.deep_view();
    let p = plan.deep_view();
    let edges = p.edges;
    let nets = p.nets;
    if is_linked(s, name) {
        let (at, i, other) = choose|at: InstanceRefV, i: InstanceV, other: Seq<char>| #[trigger]
            is_part(s, at, i) && is_conductor(i) && #[trigger] is_between(s.nets, at, name, other);
        let m = choose|m: DcModel| #[trigger] conducts(i, m);
        let r = conductors_link_their_nets(schematic, plan, at, i, m, name, other);
        let x = choose|x: int| #[trigger]
            p.groups[r.1].nets.contains(x) && 0 <= x < p.nets.len() && p.nets[x] == name;
        assert(nets.contains(name));
    }
    if nets.contains(name) {
        let ends = edge_ends(edges);
        sorting_keeps_items::<String>(distinct(ends), name);
        distinct_holds(ends, name);
        let k = end_of_edge(edges, name);
        assert(edges.len() == plan.edges@.len());
        assert(edges[k] == plan.edges@[k].deep_view());
        let (at, i) = edges_are_conductors(schematic, plan, k);
        let other = if edges[k].net_a == name {
            edges[k].net_b
        } else {
            edges[k].net_a
        };
        assert(conducts(i, edges[k].model));
        assert(is_between(s.nets, at, name, other));
        assert(is_part(s, at, i));
    }
}

proof fn end_of_edge(edges: Seq<DcEdgeV>, name: Seq<char>) -> (k: int)
    requires
        edge_ends(edges).contains(name),
    ensures
        0 <= k < edges.len(),
        edges[k].net_a == name || edges[k].net_b == name,
    decreases edges.len(),
{
    let all = edge_ends(edges);
    let front = edge_ends(edges.drop_last());
    let i = choose|i: int| 0 <= i < all.len() && all[i] == name;
    if i < front.len() {
        assert(front[i] == name);
        end_of_edge(edges.drop_last(), name)
    } else {
        edges.len() - 1
    }
}

/// The plan links exactly the nets that a conducting part links to another, and takes a net to carry
/// no current exactly where a capacitor is on it, no conducting part links it, and no part on it is
/// of another type.
pub proof fn quiet_nets_are_blocked(schematic: Schematic, plan: DcPlan, name: Seq<char>)
    requires
        plan_static_currents.ensures((&schematic,), plan),
    ensures
        ({
            let s = schematic.deep_view();
            &&& plan.nets.deep_view().contains(name) <==> is_linked(s, name)
            &&& plan.quiet.deep_view().contains(name) <==> {
                &&& some_part_on(s, name, |i: InstanceV| has_type(i, "capacitor"@))
                &&& !is_linked(s, name)
                &&& !some_part_on(
                    s,
                    name,
                    |i: InstanceV| !has_type(i, "capacitor"@) && !is_conductor(i),
                )
            }
        }),
{
    let s = schematic.deep_view();
    let p = plan.deep_view();
    let list = listed(s);
    let parts = parts_of(list, s.instances);
    linked_nets(schematic, plan, name);
    parts_are_exact(list, s.instances);
    let cap = |i: InstanceV| has_type(i, "capacitor"@);
    let dim = |i: InstanceV| !has_type(i, "capacitor"@) && !is_conductor(i);
    part_nets(s, name, cap);
    part_nets(s, name, dim);
    only_holds(parts.capacitor_nets, is_quiet(parts, p.nets), name);
    assert(p.quiet == only(parts.capacitor_nets, is_quiet(parts, p.nets)));
}

/// The net has a fixed potential: it declares a voltage, or is the ground.
pub open spec fn is_fixed(net: NetV) -> bool {
    ||| net.kind == "Ground"@
    ||| find_physical(net.properties, "voltage"@) is Some && find_physical(
        net.properties,
        "voltage"@,
    )->0.real is Some
}

/// The net declares to source a current.
pub open spec fn sources(net: NetV) -> bool {
    &&& find_physical(net.properties, "current_source_total"@) is Some
    &&& find_physical(net.properties, "current_source_total"@)->0.real is Some
    &&& below(zero(), find_physical(net.properties, "current_source_total"@)->0.real->0)
}

/// The first net of the name is `net`.
pub open spec fn names_net(nets: Seq<NetV>, name: Seq<char>, net: NetV) -> bool {
    exists|j: int|
        0 <= j < nets.len() && #[trigger] nets[j] == net && net.name == name && forall|k: int|
            0 <= k < j ==> (#[trigger] nets[k]).name != name
}

proof fn named_net(nets: Seq<NetV>, name: Seq<char>, net: NetV)
    ensures
        net_named(nets, name) == Some(net) <==> names_net(
            nets,
            name,
            net,
        ),
    decreases nets.len(),
{
    if nets.len() > 0 {
        let rest = nets.drop_first();
        named_net(rest, name, net);
        if nets[0].name == name {
            if nets[0] == net {
                assert(nets[0] == net);
            }
            if names_net(nets, name, net) {
                let j = choose|j: int|
                    0 <= j < nets.len() && #[trigger] nets[j] == net && net.name == name && forall|
                        k: int,
                    |
                        0 <= k < j ==> (#[trigger] nets[k]).name != name;
                assert(j == 0) by {
                    if j > 0 {
                        assert(nets[0].name != name);
                    }
                }
            }
        } else {
            if names_net(rest, name, net) {
                let j = choose|j: int|
                    0 <= j < rest.len() && #[trigger] rest[j] == net && net.name == name && forall|
                        k: int,
                    |
                        0 <= k < j ==> (#[trigger] rest[k]).name != name;
                assert(nets[j + 1] == net);
                assert forall|k: int| 0 <= k < j + 1 implies (#[trigger] nets[k]).name != name by {
                    if k > 0 {
                        assert(rest[k - 1] == nets[k]);
                    }
                }
            }
            if names_net(nets, name, net) {
                let j = choose|j: int|
                    0 <= j < nets.len() && #[trigger] nets[j] == net && net.name == name && forall|
                        k: int,
                    |
                        0 <= k < j ==> (#[trigger] nets[k]).name != name;
                assert(rest[j - 1] == net);
                assert forall|k: int| 0 <= k < j - 1 implies (#[trigger] rest[k]).name != name by {
                    assert(nets[k + 1] == rest[k]);
                }
            }
        }
    }
}

/// A net of the group has the property.
pub open spec fn some_net_in(
    s: SchematicV,
    plan: DcPlanV,
    g: int,
    test: spec_fn(NetV) -> bool,
) -> bool {
    exists|x: int, net: NetV| #[trigger]
        names_net(s.nets, plan.nets[x], net) && #[trigger] plan.groups[g].nets.contains(x) && test(
            net,
        )
}

proof fn some_member(s: SchematicV, plan: DcPlanV, g: int, test: spec_fn(NetV) -> bool)
    requires
        0 <= g < plan.groups.len(),
    ensures
        some_net_in(s, plan, g, test) <==> exists|i: int|
            0 <= i < plan.groups[g].nets.len() && net_named(
                s.nets,
                plan.nets[#[trigger] plan.groups[g].nets[i]],
            ) is Some && test(
                net_named(
                    s.nets,
                    plan.nets[plan.groups[g].nets[i]],
                )->0,
            ),
{
    let m = plan.groups[g].nets;
    if some_net_in(s, plan, g, test) {
        let (x, net) = choose|x: int, net: NetV| #[trigger]
            names_net(s.nets, plan.nets[x], net) && #[trigger] plan.groups[g].nets.contains(x)
                && test(net);
        named_net(s.nets, plan.nets[x], net);
        let i = choose|i: int| 0 <= i < m.len() && m[i] == x;
        assert(m[i] == x);
    }
    if exists|i: int|
        0 <= i < m.len() && net_named(
            s.nets,
            plan.nets[#[trigger] m[i]],
        ) is Some && test(net_named(s.nets, plan.nets[m[i]])->0) {
        let i = choose|i: int|
            0 <= i < m.len() && net_named(
                s.nets,
                plan.nets[#[trigger] m[i]],
            ) is Some && test(net_named(s.nets, plan.nets[m[i]])->0);
        let net = net_named(s.nets, plan.nets[m[i]])->0;
        named_net(s.nets, plan.nets[m[i]], net);
        assert(m.contains(m[i]));
        assert(names_net(s.nets, plan.nets[m[i]], net));
    }
}

/// A group can be solved exactly where one of its nets has a fixed potential and none of them
/// sources a current at a potential that is not fixed.
pub proof fn groups_need_a_reference(schematic: Schematic, plan: DcPlan, g: int)
    requires
        plan_static_currents.ensures((&schematic,), plan),
        0 <= g < plan.groups@.len(),
    ensures
        ({
            let s = schematic.deep_view();
            let p = plan.deep_view();
            plan.groups@[g].solvable <==> some_net_in(s, p, g, |n: NetV| is_fixed(n))
                && !some_net_in(s, p, g, |n: NetV| !is_fixed(n) && sources(n))
        }),
{
    let s = schematic.deep_view();
    let p = plan.deep_view();
    assert(p.groups.len() == plan.groups@.len());
    assert(p.groups[g] == plan.groups@[g].deep_view());
    let root = listed_group(s.nets, p.edges, p.nets.len() as int, g);
    some_member(s, p, g, |n: NetV| is_fixed(n));
    some_member(s, p, g, |n: NetV| !is_fixed(n) && sources(n));
    let m = p.groups[g].nets;
    assert(p.groups[g].solvable == can_be_solved(s.nets, p.nets, m));
    assert forall|i: int| 0 <= i < m.len() implies {
        let net = net_named(s.nets, p.nets[#[trigger] m[i]]);
        &&& has_reference(s.nets, p.nets[m[i]]) == (net is Some
            && is_fixed(net->0))
        &&& is_active(s.nets, p.nets[m[i]]) == (net is Some && !is_fixed(
            net->0,
        ) && sources(net->0))
    } by {}
}

/// Two linked nets lie in one group exactly where conducting parts lead from one to the other.
pub proof fn groups_are_connected_parts(schematic: Schematic, plan: DcPlan, x: int, y: int)
    requires
        plan_static_currents.ensures((&schematic,), plan),
        0 <= x < plan.nets@.len(),
        0 <= y < plan.nets@.len(),
    ensures
        ({
            let p = plan.deep_view();
            (exists|g: int|
                0 <= g < p.groups.len() && (#[trigger] p.groups[g]).nets.contains(x)
                    && p.groups[g].nets.contains(y)) <==> reaches(
                Seq::new(
                    p.edges.len(),
                    |k: int| (place_of(p.nets, p.edges[k].net_a), place_of(p.nets, p.edges[k].net_b)),
                ),
                x,
                y,
            )
        }),
{
    let s = schematic.deep_view();
    let p = plan.deep_view();
    let edges = p.edges;
    let nets = p.nets;
    let n = nets.len();
    assert(n == plan.nets@.len());
    let pairs = edge_pairs(edges, nets);
    assert(pairs =~= Seq::new(
        p.edges.len(),
        |k: int| (place_of(p.nets, p.edges[k].net_a), place_of(p.nets, p.edges[k].net_b)),
    ));
    pairs_lie_within(edges);
    roots_stand(n, pairs);
    let roots = group_roots(edges);
    sets_are_connected_parts(n, pairs, x, y);
    if roots[x] == roots[y] {
        let root = roots[x];
        assert(roots[root] == root);
        let g = group_is_listed(s.nets, edges, n as int, root);
        places_are_exact(roots, is_root(root));
        assert(p.groups[g].nets.contains(x) && p.groups[g].nets.contains(y));
    }
    if exists|g: int|
        0 <= g < p.groups.len() && (#[trigger] p.groups[g]).nets.contains(x)
            && p.groups[g].nets.contains(y) {
        let g = choose|g: int|
            0 <= g < p.groups.len() && (#[trigger] p.groups[g]).nets.contains(x)
                && p.groups[g].nets.contains(y);
        let root = listed_group(s.nets, edges, n as int, g);
        places_are_exact(roots, is_root(root));
    }
}

/// A net has the potential that it declares; a ground net that declares none is at zero, and any other
/// net without a declared voltage has none.
pub proof fn potentials_are_declared(net: Net, r: Option<Real>)
    requires
        fixed_voltage.ensures((&net,), r),
    ensures
        ({
            let n = net.deep_view();
            let declared = if find_physical(n.properties, "voltage"@) is Some {
                find_physical(n.properties, "voltage"@)->0.real
            } else {
                None
            };
            &&& declared is Some ==> r == declared
            &&& declared is None && n.kind == "Ground"@ ==> r == Some(zero())
            &&& declared is None && n.kind != "Ground"@ ==> r is None
        }),
{
}

} // verus!
