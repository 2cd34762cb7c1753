//! What the nets learn from the static currents through the parts on them.
use vstd::prelude::*;

use crate::duplicate::Duplicate;
use crate::json::{contents_are_json_values, member_put, put, Json, JsonV};
use crate::netlist::dc::DcEdgeV;
use crate::netlist::dc_plan::{
    dc_plan, edge_in, edge_pairs, edges_lie_in_the_graph, graph_nets, group_at, group_roots,
    groups_below, is_root, DcGroupV, DcPlan, DcPlanV,
};
use crate::netlist::schematic::{
    attribute, find_attribute, flag_attribute, json_attribute, put_attribute, set_attribute,
    text_attribute, Attribute, AttributeV, Schematic, SchematicV,
};
use crate::number::{below, place, zero, Real, SIGN};
use crate::select::{places, places_are_exact};
use crate::text::{holds, same};
use crate::union_find::{joined_sets_sized, reaches, sets_are_connected_parts};

verus! {

/// Below this magnitude a current counts as zero: one nanoampere.
pub const CURRENT_EPS: u64 = 0x3e11_2e0b_e826_d695;

/// The current is below the magnitude that counts.
pub open spec fn is_idle(current: Real) -> bool {
    -(CURRENT_EPS as int) < place(current) < CURRENT_EPS
}

/// The number with the other sign.
pub open spec fn negated(x: Real) -> Real {
    Real {
        bits: if x.bits < SIGN {
            (x.bits + SIGN) as u64
        } else {
            (x.bits - SIGN) as u64
        },
    }
}

/// The current of an edge: whether it flows from the first net to the second, and its size.
/// `None` where it counts as zero.
pub open spec fn flow_of(current: Real) -> Option<(bool, Real)> {
    if is_idle(current) {
        None
    } else if below(zero(), current) {
        Some((true, current))
    } else {
        Some((false, negated(current)))
    }
}

fn read_flow(current: Real) -> (r: Option<(bool, Real)>)
    ensures
        r == flow_of(current),
{
    let eps: i64 = CURRENT_EPS as i64;
    let at: i64 = current.rank();
    if -eps < at && at < eps {
        None
    } else if Real::zero().less(&current) {
        Some((true, current))
    } else {
        let bits: u64 = if current.bits < SIGN {
            current.bits + SIGN
        } else {
            current.bits - SIGN
        };
        Some((false, Real { bits }))
    }
}

/// A part that draws current from a net or feeds it.
pub struct PortEntry {
    pub refdes: String,
    pub is_sink: bool,
    pub amps: Real,
}

/// The value of a `PortEntry`.
#[verifier::ext_equal]
pub struct PortEntryV {
    pub refdes: Seq<char>,
    pub is_sink: bool,
    pub amps: Real,
}

impl DeepView for PortEntry {
    type V = PortEntryV;

    open spec fn deep_view(&self) -> PortEntryV {
        PortEntryV { refdes: self.refdes@, is_sink: self.is_sink, amps: self.amps }
    }
}

/// What an edge is to a net, given the current through it: it draws from the net that the
/// current leaves and feeds the net that it enters.
pub open spec fn entries_of(e: DcEdgeV, current: Real, name: Seq<char>) -> Seq<PortEntryV> {
    match flow_of(current) {
        Some((forward, amps)) => {
            let from = if forward {
                e.net_a
            } else {
                e.net_b
            };
            let to = if forward {
                e.net_b
            } else {
                e.net_a
            };
            (if from == name {
                seq![PortEntryV { refdes: e.refdes, is_sink: true, amps }]
            } else {
                Seq::empty()
            }) + (if to == name {
                seq![PortEntryV { refdes: e.refdes, is_sink: false, amps }]
            } else {
                Seq::empty()
            })
        },
        None => Seq::empty(),
    }
}

/// What the first `n` of the listed edges are to a net.
pub open spec fn entries_at(
    edges: Seq<DcEdgeV>,
    listed: Seq<int>,
    currents: Seq<Real>,
    name: Seq<char>,
    n: int,
) -> Seq<PortEntryV>
    decreases n,
{
    if n <= 0 {
        Seq::empty()
    } else {
        entries_at(edges, listed, currents, name, n - 1) + entries_of(
            edges[listed[n - 1]],
            currents[n - 1],
            name,
        )
    }
}

/// What a net learns.
pub enum NetNote {
    /// Nothing.
    Untouched,
    /// It belongs to a group that cannot be solved.
    Uninferable,
    /// The parts that draw from it and feed it; none where its static current is zero.
    Known(Vec<PortEntry>),
}

/// The value of a `NetNote`.
pub enum NetNoteV {
    Untouched,
    Uninferable,
    Known(Seq<PortEntryV>),
}

impl DeepView for NetNote {
    type V = NetNoteV;

    open spec fn deep_view(&self) -> NetNoteV {
        match self {
            NetNote::Untouched => NetNoteV::Untouched,
            NetNote::Uninferable => NetNoteV::Uninferable,
            NetNote::Known(e) => NetNoteV::Known(e.deep_view()),
        }
    }
}

/// The group holds the net.
pub open spec fn group_holds(nets: Seq<Seq<char>>, g: DcGroupV, name: Seq<char>) -> bool {
    exists|i: int| 0 <= i < g.nets.len() && nets[#[trigger] g.nets[i]] == name
}

/// The first group that holds the net.
pub open spec fn group_of(plan: DcPlanV, name: Seq<char>, from: int) -> Option<int>
    decreases plan.groups.len() - from,
{
    if from < 0 || from >= plan.groups.len() {
        None
    } else if group_holds(plan.nets, plan.groups[from], name) {
        Some(from)
    } else {
        group_of(plan, name, from + 1)
    }
}

/// What a net learns from the currents of the solved groups. A group without currents could not
/// be solved.
pub open spec fn note_for(
    plan: DcPlanV,
    solved: Seq<Option<Seq<Real>>>,
    name: Seq<char>,
) -> NetNoteV {
    match group_of(plan, name, 0) {
        Some(g) => match solved[g] {
            Some(currents) => NetNoteV::Known(
                entries_at(
                    plan.edges,
                    plan.groups[g].edges,
                    currents,
                    name,
                    plan.groups[g].edges.len() as int,
                ),
            ),
            None => NetNoteV::Uninferable,
        },
        None => if plan.quiet.contains(name) {
            NetNoteV::Known(Seq::empty())
        } else {
            NetNoteV::Untouched
        },
    }
}

/// The places that the groups name exist.
pub open spec fn plan_valid(plan: DcPlanV) -> bool {
    forall|g: int|
        0 <= g < plan.groups.len() ==> {
            &&& forall|i: int|
                0 <= i < (#[trigger] plan.groups[g]).nets.len() ==> 0 <= #[trigger] plan.groups[g].nets[i]
                    < plan.nets.len()
            &&& forall|i: int|
                0 <= i < plan.groups[g].edges.len() ==> 0 <= #[trigger] plan.groups[g].edges[i]
                    < plan.edges.len()
        }
}

/// One result per group; a solved group has one current per edge.
pub open spec fn solution_fits(plan: DcPlanV, solved: Seq<Option<Seq<Real>>>) -> bool {
    &&& solved.len() == plan.groups.len()
    &&& forall|g: int|
        0 <= g < plan.groups.len() ==> ((#[trigger] solved[g]) is Some ==> solved[g]->0.len()
            == plan.groups[g].edges.len())
}

fn find_group(plan: &DcPlan, name: &str) -> (r: Option<usize>)
    requires
        plan_valid(plan.deep_view()),
    ensures
        match r {
            Some(g) => group_of(plan.deep_view(), name@, 0) == Some(g as int) && g
                < plan.groups@.len(),
            None => group_of(plan.deep_view(), name@, 0) is None,
        },
{
    let ghost pv = plan.deep_view();
    let n: usize = plan.groups.len();
    let mut g: usize = 0;
    while g < n
        invariant
            n == plan.groups@.len(),
            g <= n,
            pv == plan.deep_view(),
            plan_valid(pv),
            group_of(pv, name@, 0) == group_of(pv, name@, g as int),
        decreases n - g,
    {
        let group = &plan.groups[g];
        let ghost gv = pv.groups[g as int];
        assert(gv == group.deep_view());
        let m: usize = group.nets.len();
        let mut found: bool = false;
        let mut i: usize = 0;
        while i < m && !found
            invariant
                m == group.nets@.len(),
                i <= m,
                pv == plan.deep_view(),
                plan_valid(pv),
                g < n,
                n == plan.groups@.len(),
                gv == pv.groups[g as int],
                gv == group.deep_view(),
                found ==> group_holds(pv.nets, gv, name@),
                !found ==> forall|j: int| 0 <= j < i ==> pv.nets[#[trigger] gv.nets[j]] != name@,
            decreases m - i + if found { 0int } else { 1int },
        {
            let k: usize = group.nets[i];
            assert(pv.groups[g as int].nets[i as int] == k);
            assert(pv.nets[k as int] == plan.nets@[k as int]@);
            if same(plan.nets[k].as_str(), name) {
                assert(pv.nets[gv.nets[i as int]] == name@);
                found = true;
            } else {
                i += 1;
            }
        }
        if found {
            return Some(g);
        }
        assert(!group_holds(pv.nets, gv, name@));
        g += 1;
    }
    None
}

fn gather_entries(plan: &DcPlan, g: usize, currents: &Vec<Real>, name: &str) -> (r: Vec<
    PortEntry,
>)
    requires
        plan_valid(plan.deep_view()),
        g < plan.groups@.len(),
        currents@.len() == plan.groups@[g as int].edges@.len(),
    ensures
        r.deep_view() == entries_at(
            plan.deep_view().edges,
            plan.deep_view().groups[g as int].edges,
            currents.deep_view(),
            name@,
            plan.deep_view().groups[g as int].edges.len() as int,
        ),
{
    let ghost pv = plan.deep_view();
    let ghost cv = currents.deep_view();
    let group = &plan.groups[g];
    let ghost gv = pv.groups[g as int];
    assert(gv == group.deep_view());
    let n: usize = group.edges.len();
    let mut out: Vec<PortEntry> = Vec::new();
    let mut i: usize = 0;
    assert(out.deep_view() =~= entries_at(pv.edges, gv.edges, cv, name@, 0));
    while i < n
        invariant
            n == group.edges@.len(),
            n == currents@.len(),
            i <= n,
            pv == plan.deep_view(),
            cv == currents.deep_view(),
            plan_valid(pv),
            g < plan.groups@.len(),
            gv == pv.groups[g as int],
            gv == group.deep_view(),
            out.deep_view() == entries_at(pv.edges, gv.edges, cv, name@, i as int),
        decreases n - i,
    {
        let ghost before = out.deep_view();
        let k: usize = group.edges[i];
        assert(pv.groups[g as int].edges[i as int] == k);
        assert(pv.edges[k as int] == plan.edges@[k as int].deep_view());
        assert(cv[i as int] == currents@[i as int]);
        let e = &plan.edges[k];
        let ghost ev = e.deep_view();
        let ghost more = entries_of(ev, cv[i as int], name@);
        match read_flow(currents[i]) {
            Some((forward, amps)) => {
                let from = if forward {
                    &e.net_a
                } else {
                    &e.net_b
                };
                let to = if forward {
                    &e.net_b
                } else {
                    &e.net_a
                };
                if same(from.as_str(), name) {
                    out.push(PortEntry { refdes: e.refdes.clone(), is_sink: true, amps });
                }
                if same(to.as_str(), name) {
                    out.push(PortEntry { refdes: e.refdes.clone(), is_sink: false, amps });
                }
            },
            None => {},
        }
        assert(out.deep_view() =~= before + more);
        i += 1;
    }
    out
}

/// What each net of a netlist learns from the currents of the solved groups.
pub fn settle_static_currents(
    plan: &DcPlan,
    schematic: &Schematic,
    solved: &Vec<Option<Vec<Real>>>,
) -> (r: Vec<NetNote>)
    requires
        plan_valid(plan.deep_view()),
        solution_fits(plan.deep_view(), solved.deep_view()),
    ensures
        r.deep_view() == Seq::new(
            schematic.deep_view().nets.len(),
            |i: int|
                note_for(
                    plan.deep_view(),
                    solved.deep_view(),
                    schematic.deep_view().nets[i].name,
                ),
        ),
{
    let ghost pv = plan.deep_view();
    let ghost sv = solved.deep_view();
    let ghost nv = schematic.deep_view().nets;
    let n: usize = schematic.nets.len();
    let mut out: Vec<NetNote> = Vec::new();
    let mut i: usize = 0;
    while i < n
        invariant
            n == schematic.nets@.len(),
            i <= n,
            pv == plan.deep_view(),
            sv == solved.deep_view(),
            nv == schematic.deep_view().nets,
            plan_valid(pv),
            solution_fits(pv, sv),
            out@.len() == i,
            forall|j: int|
                0 <= j < i ==> (#[trigger] out@[j]).deep_view() == note_for(pv, sv, nv[j].name),
        decreases n - i,
    {
        assert(nv[i as int] == schematic.nets@[i as int].deep_view());
        let name = schematic.nets[i].name.as_str();
        match find_group(plan, name) {
            Some(g) => {
                assert(sv[g as int] == solved@[g as int].deep_view());
                match &solved[g] {
                    Some(currents) => {
                        assert(sv[g as int] == Some(currents.deep_view()));
                        assert(currents.deep_view().len() == currents@.len());
                        assert(pv.groups[g as int] == plan.groups@[g as int].deep_view());
                        assert(currents@.len() == plan.groups@[g as int].edges@.len());
                        out.push(NetNote::Known(gather_entries(plan, g, currents, name)));
                    },
                    None => {
                        out.push(NetNote::Uninferable);
                    },
                }
            },
            None => {
                if holds(&plan.quiet, name) {
                    let none: Vec<PortEntry> = Vec::new();
                    assert(none.deep_view() =~= Seq::empty());
                    out.push(NetNote::Known(none));
                } else {
                    out.push(NetNote::Untouched);
                }
            },
        }
        i += 1;
    }
    assert(out.deep_view() =~= Seq::new(nv.len(), |i: int| note_for(pv, sv, nv[i].name)));
    out
}

/// The JSON entry of a part that draws from a net or feeds it.
pub open spec fn port_json(e: PortEntryV, amps: JsonV) -> JsonV {
    JsonV::Object(
        member_put(
            member_put(
                member_put(Seq::empty(), "port"@, JsonV::Str("component:"@ + e.refdes)),
                "role"@,
                JsonV::Str(
                    if e.is_sink {
                        "sink"@
                    } else {
                        "source"@
                    },
                ),
            ),
            "amps"@,
            amps,
        ),
    )
}

/// The JSON entries that a net has already.
pub open spec fn existing_ports(properties: Seq<(Seq<char>, AttributeV)>) -> Seq<JsonV> {
    match find_attribute(properties, "current_ports"@) {
        Some(a) => match a.json {
            Some(JsonV::Array(items)) => items,
            _ => Seq::empty(),
        },
        None => Seq::empty(),
    }
}

/// The properties of a net with what it learned. `sink` and `source` are the summed currents as
/// texts, `amps` the current of each entry as JSON.
pub open spec fn annotated(
    properties: Seq<(Seq<char>, AttributeV)>,
    note: NetNoteV,
    sink: Seq<char>,
    source: Seq<char>,
    amps: Seq<JsonV>,
) -> Seq<(Seq<char>, AttributeV)> {
    match note {
        NetNoteV::Untouched => properties,
        NetNoteV::Uninferable => set_attribute(
            properties,
            "current_static_uninferable"@,
            flag_attribute(true),
        ),
        NetNoteV::Known(entries) => {
            let totals = set_attribute(
                set_attribute(properties, "current_sink_static"@, text_attribute(sink)),
                "current_source_static"@,
                text_attribute(source),
            );
            if entries.len() == 0 {
                totals
            } else {
                set_attribute(
                    totals,
                    "current_ports"@,
                    json_attribute(
                        JsonV::Array(
                            existing_ports(totals) + Seq::new(
                                entries.len(),
                                |i: int| port_json(entries[i], amps[i]),
                            ),
                        ),
                    ),
                )
            }
        },
    }
}

fn make_port_json(e: &PortEntry, amps: Json) -> (r: Json)
    ensures
        r.value() == port_json(e.deep_view(), amps.value()),
{
    let mut members: Vec<(String, Json)> = Vec::new();
    assert(members.deep_view() =~= Seq::empty());
    put(
        &mut members,
        "port".to_string(),
        Json::Str("component:".to_string().concat(e.refdes.as_str())),
    );
    let role = if e.is_sink {
        "sink".to_string()
    } else {
        "source".to_string()
    };
    put(&mut members, "role".to_string(), Json::Str(role));
    put(&mut members, "amps".to_string(), amps);
    let r = Json::Object(members);
    proof {
        contents_are_json_values(r);
    }
    r
}

fn ports_before(properties: &Vec<(String, Attribute)>) -> (r: Vec<Json>)
    ensures
        r.deep_view() == existing_ports(properties.deep_view()),
{
    match attribute(properties, "current_ports") {
        Some(a) => match &a.json {
            Some(j) => {
                proof {
                    contents_are_json_values(*j);
                }
                assert(a.deep_view().json == Some(j.value()));
                match j {
                    Json::Array(items) => items.duplicate(),
                    _ => {
                        let none: Vec<Json> = Vec::new();
                        assert(none.deep_view() =~= Seq::empty());
                        none
                    },
                }
            },
            None => {
                let none: Vec<Json> = Vec::new();
                assert(none.deep_view() =~= Seq::empty());
                none
            },
        },
        None => {
            let none: Vec<Json> = Vec::new();
            assert(none.deep_view() =~= Seq::empty());
            none
        },
    }
}

/// Writes what a net learned onto its properties.
pub fn annotate_net(
    properties: &mut Vec<(String, Attribute)>,
    note: &NetNote,
    sink: String,
    source: String,
    amps: &Vec<Json>,
)
    requires
        note matches NetNote::Known(entries) ==> amps@.len() == entries@.len(),
    ensures
        final(properties).deep_view() == annotated(
            old(properties).deep_view(),
            note.deep_view(),
            sink@,
            source@,
            amps.deep_view(),
        ),
{
    match note {
        NetNote::Untouched => {},
        NetNote::Uninferable => {
            put_attribute(properties, "current_static_uninferable", Attribute::from_flag(true));
        },
        NetNote::Known(entries) => {
            let ghost ev = entries.deep_view();
            let ghost av = amps.deep_view();
            put_attribute(properties, "current_sink_static", Attribute::from_text(sink));
            put_attribute(properties, "current_source_static", Attribute::from_text(source));
            let n: usize = entries.len();
            assert(ev.len() == n);
            if n > 0 {
                let mut ports = ports_before(properties);
                let ghost base = ports.deep_view();
                let ghost more = Seq::new(ev.len(), |i: int| port_json(ev[i], av[i]));
                let mut i: usize = 0;
                assert(base + more.take(0) =~= base);
                while i < n
                    invariant
                        n == entries@.len(),
                        n == amps@.len(),
                        i <= n,
                        ev == entries.deep_view(),
                        av == amps.deep_view(),
                        more == Seq::new(ev.len(), |i: int| port_json(ev[i], av[i])),
                        ports.deep_view() == base + more.take(i as int),
                    decreases n - i,
                {
                    let ghost before = ports.deep_view();
                    assert(ev[i as int] == entries@[i as int].deep_view());
                    assert(av[i as int] == amps@[i as int].value());
                    ports.push(make_port_json(&entries[i], amps[i].copy()));
                    assert(ports.deep_view() =~= before.push(more[i as int]));
                    assert(ports.deep_view() =~= base + more.take(i + 1));
                    i += 1;
                }
                assert(more.take(n as int) =~= more);
                let j = Json::Array(ports);
                proof {
                    contents_are_json_values(j);
                }
                put_attribute(properties, "current_ports", Attribute::from_json(j));
            }
        },
    }
}

/// A current that counts draws from one net of its edge and feeds the other: as much arrives as
/// leaves.
pub proof fn current_is_conserved(e: DcEdgeV, current: Real, forward: bool, amps: Real)
    requires
        e.net_a != e.net_b,
        flow_of(current) == Some((forward, amps)),
    ensures
        entries_of(
            e,
            current,
            if forward {
                e.net_a
            } else {
                e.net_b
            },
        ) == seq![PortEntryV { refdes: e.refdes, is_sink: true, amps }],
        entries_of(
            e,
            current,
            if forward {
                e.net_b
            } else {
                e.net_a
            },
        ) == seq![PortEntryV { refdes: e.refdes, is_sink: false, amps }],
{
    let from = if forward {
        e.net_a
    } else {
        e.net_b
    };
    let to = if forward {
        e.net_b
    } else {
        e.net_a
    };
    assert(entries_of(e, current, from) =~= seq![
        PortEntryV { refdes: e.refdes, is_sink: true, amps },
    ]);
    assert(entries_of(e, current, to) =~= seq![
        PortEntryV { refdes: e.refdes, is_sink: false, amps },
    ]);
}

proof fn groups_are_valid(s: SchematicV, n: int)
    requires
        0 <= n <= dc_plan(s).nets.len(),
    ensures
        plan_valid(DcPlanV { groups: groups_below(s.nets, dc_plan(s).edges, n), ..dc_plan(s) }),
    decreases n,
{
    let plan = dc_plan(s);
    let edges = plan.edges;
    let all = groups_below(s.nets, edges, n);
    if n > 0 {
        groups_are_valid(s, n - 1);
        let front = groups_below(s.nets, edges, n - 1);
        let fp = DcPlanV { groups: front, ..plan };
        let np = DcPlanV { groups: all, ..plan };
        assert(plan_valid(fp));
        let roots = group_roots(edges);
        let pairs = edge_pairs(edges, plan.nets);
        joined_sets_sized(plan.nets.len(), pairs);
        places_are_exact(roots, is_root(n - 1));
        places_are_exact(pairs, edge_in(roots, n - 1));
        assert forall|g: int| 0 <= g < np.groups.len() implies {
            &&& forall|i: int|
                0 <= i < (#[trigger] np.groups[g]).nets.len() ==> 0 <= #[trigger] np.groups[g].nets[i]
                    < np.nets.len()
            &&& forall|i: int|
                0 <= i < np.groups[g].edges.len() ==> 0 <= #[trigger] np.groups[g].edges[i]
                    < np.edges.len()
        } by {
            if g < front.len() {
                assert(np.groups[g] == fp.groups[g]);
            } else {
                let group = group_at(s.nets, edges, n - 1);
                assert(np.groups[g] == group);
                assert forall|i: int| 0 <= i < group.nets.len() implies 0
                    <= #[trigger] group.nets[i] < plan.nets.len() by {
                    assert(places(roots, is_root(n - 1)).contains(group.nets[i]));
                }
                assert forall|i: int| 0 <= i < group.edges.len() implies 0
                    <= #[trigger] group.edges[i] < plan.edges.len() by {
                    assert(places(pairs, edge_in(roots, n - 1)).contains(group.edges[i]));
                }
            }
        }
    }
}

/// The plan of a netlist names only nets and edges that exist.
pub proof fn plans_are_valid(s: SchematicV)
    ensures
        plan_valid(dc_plan(s)),
{
    groups_are_valid(s, dc_plan(s).nets.len() as int);
    assert(dc_plan(s) =~= DcPlanV {
        groups: groups_below(s.nets, dc_plan(s).edges, dc_plan(s).nets.len() as int),
        ..dc_plan(s)
    });
}

/// Two nets belong to one group if and only if a chain of conducting parts leads from one to the
/// other.
pub proof fn groups_are_linked_nets(edges: Seq<DcEdgeV>, a: int, b: int)
    requires
        0 <= a < graph_nets(edges).len(),
        0 <= b < graph_nets(edges).len(),
    ensures
        group_roots(edges)[a] == group_roots(edges)[b] <==> reaches(
            edge_pairs(edges, graph_nets(edges)),
            a,
            b,
        ),
{
    let nets = graph_nets(edges);
    let pairs = edge_pairs(edges, nets);
    assert forall|i: int| 0 <= i < pairs.len() implies 0 <= (#[trigger] pairs[i]).0 < nets.len()
        && 0 <= pairs[i].1 < nets.len() by {
        edges_lie_in_the_graph(edges, i);
    }
    sets_are_connected_parts(nets.len(), pairs, a, b);
}

} // verus!
