//! What nets learn from solved currents, and that what is written on them is read back.
use vstd::prelude::*;

use crate::json::{member_put, put_is_found, put_keeps_others, JsonV};
use crate::netlist::annotate::{
    annotated, entries_at, entries_of, existing_ports, group_holds, group_of, port_json,
    settle_static_currents, NetNote, NetNoteV, PortEntryV,
};
use crate::netlist::dc::DcEdgeV;
use crate::netlist::dc_plan::{DcPlan, DcPlanV};
use crate::netlist::schematic::{
    find_attribute, find_text, flag_attribute, json_attribute, set_attribute,
    set_attribute_is_found, text_attribute, AttributeV, Schematic,
};
use crate::number::{place, Real};
use crate::score::classify::{port_current, PortCurrentV};

verus! {

/// The current is large enough to count, which a billionth of an ampere just is.
pub open spec fn counts(current: Real) -> bool {
    place(current) >= 0x3e11_2e0b_e826_d695 || place(current) <= -0x3e11_2e0b_e826_d695
}

/// The current flows from the first net of its edge to the second.
pub open spec fn runs_forward(current: Real) -> bool {
    place(current) > 0
}

/// The number without its sign.
pub open spec fn is_size_of(amps: Real, current: Real) -> bool {
    place(amps) == if place(current) < 0 {
        -place(current)
    } else {
        place(current)
    }
}

/// The entry is what the current through the edge is to the net: the part draws it from the net
/// where it leaves, and feeds it to the net where it arrives.
pub open spec fn is_entry(e: DcEdgeV, current: Real, name: Seq<char>, p: PortEntryV) -> bool {
    &&& counts(current)
    &&& p.refdes == e.refdes
    &&& is_size_of(p.amps, current)
    &&& p.is_sink ==> name == if runs_forward(current) {
        e.net_a
    } else {
        e.net_b
    }
    &&& !p.is_sink ==> name == if runs_forward(current) {
        e.net_b
    } else {
        e.net_a
    }
}

/// The bits stand for a number.
pub open spec fn is_number(x: Real) -> bool {
    -0x7ff0_0000_0000_0000 <= place(x) <= 0x7ff0_0000_0000_0000
}

proof fn entries_of_edge(e: DcEdgeV, current: Real, name: Seq<char>)
    requires
        is_number(current),
    ensures
        forall|k: int|
            0 <= k < entries_of(e, current, name).len() ==> is_entry(
                e,
                current,
                name,
                #[trigger] entries_of(e, current, name)[k],
            ),
        counts(current) && (name == e.net_a || name == e.net_b) && e.net_a != e.net_b
            ==> entries_of(e, current, name).len() == 1,
        counts(current) && name != e.net_a && name != e.net_b ==> entries_of(
            e,
            current,
            name,
        ).len() == 0,
        !counts(current) ==> entries_of(e, current, name).len() == 0,
{
}

/// An edge that carries a current has one entry at each of its two nets: where the current leaves it
/// draws, where it arrives it feeds, both by as much as the current is. A current too small to count
/// has none, and other nets have none of it.
pub proof fn parts_draw_where_current_leaves(
    e: DcEdgeV,
    current: Real,
    name: Seq<char>,
)
    requires
        is_number(current),
        e.net_a != e.net_b,
    ensures
        ({
            let list = entries_of(e, current, name);
            let from = if runs_forward(current) {
                e.net_a
            } else {
                e.net_b
            };
            let to = if runs_forward(current) {
                e.net_b
            } else {
                e.net_a
            };
            &&& !counts(current) ==> list.len() == 0
            &&& counts(current) && name == from ==> list.len() == 1 && list[0].is_sink
                && list[0].refdes == e.refdes && is_size_of(list[0].amps, current)
            &&& counts(current) && name == to ==> list.len() == 1 && !list[0].is_sink
                && list[0].refdes == e.refdes && is_size_of(list[0].amps, current)
            &&& name != from && name != to ==> list.len() == 0
        }),
{
    entries_of_edge(e, current, name);
}

/// The group has the net.
pub open spec fn has_net(plan: DcPlanV, g: int, name: Seq<char>) -> bool {
    &&& 0 <= g < plan.groups.len()
    &&& exists|x: int| #[trigger] plan.groups[g].nets.contains(x) && plan.nets[x] == name
}

proof fn group_has_net(plan: DcPlanV, g: int, name: Seq<char>)
    requires
        0 <= g < plan.groups.len(),
    ensures
        group_holds(plan.nets, plan.groups[g], name) <==> has_net(plan, g, name),
{
    let m = plan.groups[g].nets;
    if group_holds(plan.nets, plan.groups[g], name) {
        let i = choose|i: int| 0 <= i < m.len() && plan.nets[#[trigger] m[i]] == name;
        assert(m.contains(m[i]));
    }
    if has_net(plan, g, name) {
        let x = choose|x: int| #[trigger] m.contains(x) && plan.nets[x] == name;
        let i = choose|i: int| 0 <= i < m.len() && m[i] == x;
        assert(plan.nets[m[i]] == name);
    }
}

proof fn group_is_found(plan: DcPlanV, name: Seq<char>, from: int)
    requires
        0 <= from <= plan.groups.len(),
    ensures
        match group_of(plan, name, from) {
            Some(g) => from <= g && has_net(plan, g, name),
            None => forall|g: int| from <= g ==> !#[trigger] has_net(plan, g, name),
        },
    decreases plan.groups.len() - from,
{
    if from < plan.groups.len() {
        group_has_net(plan, from, name);
        if !group_holds(plan.nets, plan.groups[from], name) {
            group_is_found(plan, name, from + 1);
        }
    }
}

/// A net of a solved group learns its currents; one of a group without a solution learns that they
/// cannot be inferred; one outside all groups learns that it carries none where the plan says so, and
/// nothing otherwise.
pub proof fn nets_learn_from_their_group(
    plan: DcPlan,
    schematic: Schematic,
    solved: Vec<Option<Vec<Real>>>,
    r: Vec<NetNote>,
    i: int,
)
    requires
        settle_static_currents.ensures((&plan, &schematic, &solved), r),
        0 <= i < schematic.nets@.len(),
        forall|g: int, h: int|
            #[trigger] has_net(plan.deep_view(), g, schematic.nets@[i].name@) && #[trigger] has_net(
                plan.deep_view(),
                h,
                schematic.nets@[i].name@,
            ) ==> g == h,
    ensures
        r@.len() == schematic.nets@.len(),
        ({
            let p = plan.deep_view();
            let name = schematic.nets@[i].name@;
            let note = r@[i].deep_view();
            &&& forall|g: int| #[trigger]
                has_net(p, g, name) ==> match solved.deep_view()[g] {
                    Some(currents) => note == NetNoteV::Known(
                        entries_at(
                            p.edges,
                            p.groups[g].edges,
                            currents,
                            name,
                            p.groups[g].edges.len() as int,
                        ),
                    ),
                    None => note is Uninferable,
                }
            &&& (forall|g: int| !#[trigger] has_net(p, g, name)) && p.quiet.contains(name) ==> note
                == NetNoteV::Known(Seq::empty())
            &&& (forall|g: int| !#[trigger] has_net(p, g, name)) && !p.quiet.contains(name) ==> note
                is Untouched
        }),
{
    let p = plan.deep_view();
    let nv = schematic.deep_view().nets;
    assert(nv.len() == schematic.nets@.len());
    assert(nv[i] == schematic.nets@[i].deep_view());
    let name = nv[i].name;
    assert(r.deep_view().len() == r@.len());
    assert(r.deep_view()[i] == r@[i].deep_view());
    group_is_found(p, name, 0);
}

/// The entries of a net are those of the edges of its group, edge by edge.
pub proof fn entries_come_from_edges(
    edges: Seq<DcEdgeV>,
    listed: Seq<int>,
    currents: Seq<Real>,
    name: Seq<char>,
    n: int,
    p: PortEntryV,
)
    requires
        0 <= n <= listed.len(),
        n <= currents.len(),
        forall|k: int| 0 <= k < n ==> is_number(#[trigger] currents[k]),
    ensures
        entries_at(edges, listed, currents, name, n).contains(p) ==> exists|k: int|
            0 <= k < n && is_entry(edges[#[trigger] listed[k]], currents[k], name, p),
        forall|k: int|
            0 <= k < n && counts(currents[k]) && (edges[#[trigger] listed[k]].net_a == name
                || edges[listed[k]].net_b == name) ==> exists|x: int|
                0 <= x < entries_at(edges, listed, currents, name, n).len() && is_entry(
                    edges[listed[k]],
                    currents[k],
                    name,
                    #[trigger] entries_at(edges, listed, currents, name, n)[x],
                ),
    decreases n,
{
    if n > 0 {
        entries_come_from_edges(edges, listed, currents, name, n - 1, p);
        let a = entries_at(edges, listed, currents, name, n - 1);
        let b = entries_of(edges[listed[n - 1]], currents[n - 1], name);
        let r = entries_at(edges, listed, currents, name, n);
        assert(r == a + b);
        entries_of_edge(edges[listed[n - 1]], currents[n - 1], name);
        if r.contains(p) {
            let x = choose|x: int| 0 <= x < r.len() && r[x] == p;
            if x < a.len() {
                assert(a[x] == p);
                assert(a.contains(p));
            } else {
                assert(b[x - a.len()] == p);
                assert(is_entry(edges[listed[n - 1]], currents[n - 1], name, p));
            }
        }
        assert forall|k: int|
            0 <= k < n && counts(currents[k]) && (edges[#[trigger] listed[k]].net_a == name
                || edges[listed[k]].net_b == name) implies exists|x: int|
            0 <= x < r.len() && is_entry(edges[listed[k]], currents[k], name, #[trigger] r[x]) by {
            if k < n - 1 {
                let x = choose|x: int|
                    0 <= x < a.len() && is_entry(
                        edges[listed[k]],
                        currents[k],
                        name,
                        #[trigger] a[x],
                    );
                assert(r[x] == a[x]);
            } else {
                assert(b.len() > 0);
                assert(is_entry(edges[listed[k]], currents[k], name, b[0]));
                assert(r[a.len() as int] == b[0]);
            }
        }
    }
}

proof fn keys_differ()
    ensures
        "current_sink_static"@ != "current_source_static"@,
        "current_sink_static"@ != "current_ports"@,
        "current_source_static"@ != "current_ports"@,
        "port"@ != "role"@,
        "port"@ != "amps"@,
        "role"@ != "amps"@,
        "sink"@ != "source"@,
{
    reveal_strlit("current_sink_static");
    reveal_strlit("current_source_static");
    reveal_strlit("current_ports");
    reveal_strlit("port");
    reveal_strlit("role");
    reveal_strlit("amps");
    reveal_strlit("sink");
    reveal_strlit("source");
    assert("current_sink_static"@.len() == 19);
    assert("current_source_static"@.len() == 21);
    assert("current_ports"@.len() == 13);
    assert("port"@[0] == 'p');
    assert("role"@[0] == 'r');
    assert("amps"@[0] == 'a');
    assert("sink"@.len() == 4);
    assert("source"@.len() == 6);
}

/// What is written of a part is read back: the port by its reference, whether it draws, and how much.
pub proof fn ports_are_read_back(e: PortEntryV, amps: JsonV)
    requires
        amps is Int || amps is Float,
    ensures
        port_current(port_json(e, amps)) == Some(
            PortCurrentV { port: "component:"@ + e.refdes, is_sink: e.is_sink, amps },
        ),
{
    keys_differ();
    let a = member_put(
        Seq::empty(),
        "port"@,
        JsonV::Str("component:"@ + e.refdes),
    );
    let role = JsonV::Str(
        if e.is_sink {
            "sink"@
        } else {
            "source"@
        },
    );
    let b = member_put(a, "role"@, role);
    let c = member_put(b, "amps"@, amps);
    assert(port_json(e, amps) == JsonV::Object(c));
    put_is_found(Seq::empty(), "port"@, JsonV::Str("component:"@ + e.refdes));
    put_is_found(a, "role"@, role);
    put_is_found(b, "amps"@, amps);
    put_keeps_others(a, "role"@, role, "port"@);
    put_keeps_others(b, "amps"@, amps, "port"@);
    put_keeps_others(b, "amps"@, amps, "role"@);
}

/// A net whose currents are known says so on both sides, keeps the ports that it had, adds one for
/// each entry, and keeps all its other properties.
pub proof fn known_currents_are_written(
    properties: Seq<(Seq<char>, AttributeV)>,
    entries: Seq<PortEntryV>,
    sink: Seq<char>,
    source: Seq<char>,
    amps: Seq<JsonV>,
    key: Seq<char>,
)
    ensures
        ({
            let r = annotated(properties, NetNoteV::Known(entries), sink, source, amps);
            &&& find_text(r, "current_sink_static"@) == Some(sink)
            &&& find_text(r, "current_source_static"@) == Some(source)
            &&& existing_ports(r).len() == existing_ports(properties).len() + entries.len()
            &&& forall|k: int|
                0 <= k < existing_ports(properties).len() ==> #[trigger] existing_ports(r)[k]
                    == existing_ports(properties)[k]
            &&& forall|k: int|
                0 <= k < entries.len() ==> existing_ports(r)[existing_ports(properties).len() + k]
                    == port_json(#[trigger] entries[k], amps[k])
            &&& key != "current_sink_static"@ && key != "current_source_static"@ && key
                != "current_ports"@ ==> find_attribute(r, key) == find_attribute(properties, key)
        }),
{
    keys_differ();
    let one = set_attribute(
        properties,
        "current_sink_static"@,
        text_attribute(sink),
    );
    let two = set_attribute(
        one,
        "current_source_static"@,
        text_attribute(source),
    );
    let ports = json_attribute(
        JsonV::Array(
            existing_ports(two) + Seq::new(entries.len(), |i: int| port_json(entries[i], amps[i])),
        ),
    );
    let names = seq![key, "current_sink_static"@, "current_source_static"@, "current_ports"@];
    assert forall|k: int| 0 <= k < 4 implies {
        let n = #[trigger] names[k];
        &&& find_attribute(one, n) == if n == "current_sink_static"@ {
            Some(text_attribute(sink))
        } else {
            find_attribute(properties, n)
        }
        &&& find_attribute(two, n) == if n == "current_source_static"@ {
            Some(text_attribute(source))
        } else {
            find_attribute(one, n)
        }
        &&& find_attribute(
            set_attribute(two, "current_ports"@, ports),
            n,
        ) == if n == "current_ports"@ {
            Some(ports)
        } else {
            find_attribute(two, n)
        }
    } by {
        let n = names[k];
        set_attribute_is_found(
            properties,
            "current_sink_static"@,
            text_attribute(sink),
            n,
        );
        set_attribute_is_found(
            one,
            "current_source_static"@,
            text_attribute(source),
            n,
        );
        set_attribute_is_found(two, "current_ports"@, ports, n);
    }
    assert(names[0] == key && names[1] == "current_sink_static"@ && names[2]
        == "current_source_static"@ && names[3] == "current_ports"@);
}

/// A net whose currents cannot be inferred says just that; one that learned nothing stays as it is.
pub proof fn unknown_currents_are_marked(
    properties: Seq<(Seq<char>, AttributeV)>,
    sink: Seq<char>,
    source: Seq<char>,
    amps: Seq<JsonV>,
    key: Seq<char>,
)
    ensures
        annotated(properties, NetNoteV::Untouched, sink, source, amps) == properties,
        find_attribute(
            annotated(properties, NetNoteV::Uninferable, sink, source, amps),
            "current_static_uninferable"@,
        ) matches Some(a) && a.flag == Some(true),
        key != "current_static_uninferable"@ ==> find_attribute(
            annotated(properties, NetNoteV::Uninferable, sink, source, amps),
            key,
        ) == find_attribute(properties, key),
{
    let f = flag_attribute(true);
    set_attribute_is_found(properties, "current_static_uninferable"@, f, key);
    set_attribute_is_found(
        properties,
        "current_static_uninferable"@,
        f,
        "current_static_uninferable"@,
    );
}

} // verus!
