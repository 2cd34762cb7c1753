//! The groups of nets that conducting parts link, and which of them can be solved.
use vstd::prelude::*;

use crate::netlist::dc::{
    amps_of, by_path, collect_parts, component_nets, declared_amps, fixed_voltage, parts_of,
    voltage_of, DcEdge, DcEdgeV, PartsV,
};
use crate::netlist::schematic::{Net, NetV, Schematic, SchematicV};
use crate::number::{below, zero, Real};
use crate::order::{as_ints, in_order, sorted, sorting_keeps_items};
use crate::select::places;
use crate::steps::{distinct, distinct_holds, only, only_one_more};
use crate::text::{holds, same};
use crate::union_find::{joined_sets, joined_sets_sized, UnionFind};

verus! {

/// The nets at the two ends of the edges.
pub open spec fn edge_ends(edges: Seq<DcEdgeV>) -> Seq<Seq<char>>
    decreases edges.len(),
{
    if edges.len() == 0 {
        Seq::empty()
    } else {
        edge_ends(edges.drop_last()).push(edges.last().net_a).push(edges.last().net_b)
    }
}

/// The nets that conducting parts link, each once, in order.
pub open spec fn graph_nets(edges: Seq<DcEdgeV>) -> Seq<Seq<char>> {
    sorted::<String>(distinct(edge_ends(edges)))
}

/// Where the text first stands in the list; the length of the list if it does not.
pub open spec fn place_of(list: Seq<Seq<char>>, s: Seq<char>) -> int
    decreases list.len(),
{
    if list.len() == 0 || list[0] == s {
        0
    } else {
        1 + place_of(list.drop_first(), s)
    }
}

/// The edges by the places of their nets.
pub open spec fn edge_pairs(edges: Seq<DcEdgeV>, nets: Seq<Seq<char>>) -> Seq<(int, int)> {
    Seq::new(edges.len(), |i: int| (place_of(nets, edges[i].net_a), place_of(nets, edges[i].net_b)))
}

/// The representative of the group of each net.
pub open spec fn group_roots(edges: Seq<DcEdgeV>) -> Seq<int> {
    joined_sets(graph_nets(edges).len(), edge_pairs(edges, graph_nets(edges)))
}

/// A text of the list is found where it stands.
pub proof fn place_is_found(list: Seq<Seq<char>>, s: Seq<char>)
    ensures
        0 <= place_of(list, s) <= list.len(),
        place_of(list, s) < list.len() <==> list.contains(s),
        place_of(list, s) < list.len() ==> list[place_of(list, s)] == s,
    decreases list.len(),
{
    if list.len() > 0 {
        let rest = list.drop_first();
        place_is_found(rest, s);
        if list[0] == s {
            assert(list.contains(s));
        } else {
            if rest.contains(s) {
                let i = choose|i: int| 0 <= i < rest.len() && rest[i] == s;
                assert(list[i + 1] == s);
            }
            if list.contains(s) {
                let i = choose|i: int| 0 <= i < list.len() && list[i] == s;
                assert(rest[i - 1] == s);
            }
        }
    }
}

proof fn ends_are_held(edges: Seq<DcEdgeV>, i: int)
    requires
        0 <= i < edges.len(),
    ensures
        edge_ends(edges).contains(edges[i].net_a),
        edge_ends(edges).contains(edges[i].net_b),
    decreases edges.len(),
{
    let all = edge_ends(edges);
    let front = edge_ends(edges.drop_last());
    if i < edges.len() - 1 {
        ends_are_held(edges.drop_last(), i);
        let a = choose|k: int| 0 <= k < front.len() && front[k] == edges[i].net_a;
        let b = choose|k: int| 0 <= k < front.len() && front[k] == edges[i].net_b;
        assert(all[a] == edges[i].net_a);
        assert(all[b] == edges[i].net_b);
    } else {
        assert(all[all.len() - 2] == edges[i].net_a);
        assert(all[all.len() - 1] == edges[i].net_b);
    }
}

/// Both nets of an edge are among the linked nets.
pub proof fn edges_lie_in_the_graph(edges: Seq<DcEdgeV>, i: int)
    requires
        0 <= i < edges.len(),
    ensures
        0 <= place_of(graph_nets(edges), edges[i].net_a) < graph_nets(edges).len(),
        0 <= place_of(graph_nets(edges), edges[i].net_b) < graph_nets(edges).len(),
{
    let ends = edge_ends(edges);
    ends_are_held(edges, i);
    distinct_holds(ends, edges[i].net_a);
    distinct_holds(ends, edges[i].net_b);
    sorting_keeps_items::<String>(distinct(ends), edges[i].net_a);
    sorting_keeps_items::<String>(distinct(ends), edges[i].net_b);
    place_is_found(graph_nets(edges), edges[i].net_a);
    place_is_found(graph_nets(edges), edges[i].net_b);
}

/// The net of the given name.
pub open spec fn net_named(nets: Seq<NetV>, name: Seq<char>) -> Option<NetV>
    decreases nets.len(),
{
    if nets.len() == 0 {
        None
    } else if nets[0].name == name {
        Some(nets[0])
    } else {
        net_named(nets.drop_first(), name)
    }
}

/// The net of the given name.
pub fn find_net<'a>(nets: &'a Vec<Net>, name: &str) -> (r: Option<&'a Net>)
    ensures
        match r {
            Some(x) => net_named(nets.deep_view(), name@) == Some(x.deep_view()),
            None => net_named(nets.deep_view(), name@) is None,
        },
{
    let ghost all = nets.deep_view();
    let n: usize = nets.len();
    let mut i: usize = 0;
    assert(all.skip(0) =~= all);
    while i < n
        invariant
            n == nets@.len(),
            all == nets.deep_view(),
            i <= n,
            net_named(all, name@) == net_named(all.skip(i as int), name@),
        decreases n - i,
    {
        assert(all.skip(i as int).drop_first() =~= all.skip(i + 1));
        assert(all.skip(i as int)[0] == nets@[i as int].deep_view());
        if same(nets[i].name.as_str(), name) {
            return Some(&nets[i]);
        }
        i += 1;
    }
    None
}

/// The net has a fixed potential.
pub open spec fn has_reference(nets: Seq<NetV>, name: Seq<char>) -> bool {
    match net_named(nets, name) {
        Some(n) => voltage_of(n) is Some,
        None => false,
    }
}

/// The net sources current at a voltage that is not declared: a supply sets it, not the passive
/// parts.
pub open spec fn is_active(nets: Seq<NetV>, name: Seq<char>) -> bool {
    match net_named(nets, name) {
        Some(n) => voltage_of(n) is None && below(zero(), amps_of(n, "current_source_total"@)),
        None => false,
    }
}

/// A group of linked nets: the places of its nets and edges, and whether it can be solved.
pub struct DcGroup {
    pub nets: Vec<usize>,
    pub edges: Vec<usize>,
    pub solvable: bool,
}

/// The value of a `DcGroup`.
#[verifier::ext_equal]
pub struct DcGroupV {
    pub nets: Seq<int>,
    pub edges: Seq<int>,
    pub solvable: bool,
}

impl DeepView for DcGroup {
    type V = DcGroupV;

    open spec fn deep_view(&self) -> DcGroupV {
        DcGroupV {
            nets: as_ints(self.nets@),
            edges: as_ints(self.edges@),
            solvable: self.solvable,
        }
    }
}

/// The item is the given number.
pub open spec fn is_root(root: int) -> spec_fn(int) -> bool {
    |x: int| x == root
}

/// One end of the edge lies in the group of the given representative.
pub open spec fn edge_in(roots: Seq<int>, root: int) -> spec_fn((int, int)) -> bool {
    |p: (int, int)| roots[p.0] == root || roots[p.1] == root
}

/// Some net of the group, by place, has a fixed potential, and none is active.
pub open spec fn can_be_solved(
    all: Seq<NetV>,
    nets: Seq<Seq<char>>,
    members: Seq<int>,
) -> bool {
    (exists|i: int| 0 <= i < members.len() && has_reference(all, nets[#[trigger] members[i]])) && (
    forall|i: int| 0 <= i < members.len() ==> !is_active(all, nets[#[trigger] members[i]]))
}

/// The group of the given representative.
pub open spec fn group_at(all: Seq<NetV>, edges: Seq<DcEdgeV>, root: int) -> DcGroupV {
    let nets = graph_nets(edges);
    let roots = group_roots(edges);
    let members = places(roots, is_root(root));
    DcGroupV {
        nets: members,
        edges: places(edge_pairs(edges, nets), edge_in(roots, root)),
        solvable: can_be_solved(all, nets, members),
    }
}

/// The groups of the representatives below `n`.
pub open spec fn groups_below(all: Seq<NetV>, edges: Seq<DcEdgeV>, n: int) -> Seq<DcGroupV>
    decreases n,
{
    if n <= 0 {
        Seq::empty()
    } else if group_roots(edges)[n - 1] == n - 1 {
        groups_below(all, edges, n - 1).push(group_at(all, edges, n - 1))
    } else {
        groups_below(all, edges, n - 1)
    }
}

/// A net that carries no static current: on capacitors alone.
pub open spec fn is_quiet(parts: PartsV, nets: Seq<Seq<char>>) -> spec_fn(Seq<char>) -> bool {
    |name: Seq<char>| !parts.opaque_nets.contains(name) && !nets.contains(name)
}

/// How the static currents of a netlist are found.
pub struct DcPlan {
    pub edges: Vec<DcEdge>,
    pub nets: Vec<String>,
    pub groups: Vec<DcGroup>,
    pub quiet: Vec<String>,
}

/// The value of a `DcPlan`.
#[verifier::ext_equal]
pub struct DcPlanV {
    pub edges: Seq<DcEdgeV>,
    pub nets: Seq<Seq<char>>,
    pub groups: Seq<DcGroupV>,
    pub quiet: Seq<Seq<char>>,
}

impl DeepView for DcPlan {
    type V = DcPlanV;

    open spec fn deep_view(&self) -> DcPlanV {
        DcPlanV {
            edges: self.edges.deep_view(),
            nets: self.nets.deep_view(),
            groups: self.groups.deep_view(),
            quiet: self.quiet.deep_view(),
        }
    }
}

/// What the components of the netlist are to direct currents.
pub open spec fn netlist_parts(s: SchematicV) -> PartsV {
    parts_of(by_path(component_nets(s.nets)), s.instances)
}

/// How the static currents of a netlist are found.
pub open spec fn dc_plan(s: SchematicV) -> DcPlanV {
    let parts = netlist_parts(s);
    let nets = graph_nets(parts.edges);
    DcPlanV {
        edges: parts.edges,
        nets,
        groups: groups_below(s.nets, parts.edges, nets.len() as int),
        quiet: only(parts.capacitor_nets, is_quiet(parts, nets)),
    }
}

fn linked_nets(edges: &Vec<DcEdge>) -> (r: Vec<String>)
    ensures
        r.deep_view() == graph_nets(edges.deep_view()),
{
    let ghost ev = edges.deep_view();
    let n: usize = edges.len();
    let mut out: Vec<String> = Vec::new();
    let mut i: usize = 0;
    assert(out.deep_view() =~= distinct(edge_ends(ev.take(0))));
    while i < n
        invariant
            n == edges@.len(),
            i <= n,
            ev == edges.deep_view(),
            out.deep_view() == distinct(edge_ends(ev.take(i as int))),
        decreases n - i,
    {
        let ghost base = edge_ends(ev.take(i as int));
        assert(ev.take(i + 1).drop_last() =~= ev.take(i as int));
        assert(ev[i as int] == edges@[i as int].deep_view());
        let ghost one = base.push(ev[i as int].net_a);
        let ghost two = one.push(ev[i as int].net_b);
        assert(one.drop_last() =~= base);
        assert(two.drop_last() =~= one);
        assert(edge_ends(ev.take(i + 1)) == two);
        let ghost before = out.deep_view();
        if !holds(&out, edges[i].net_a.as_str()) {
            out.push(edges[i].net_a.clone());
            assert(out.deep_view() =~= before.push(ev[i as int].net_a));
        }
        assert(out.deep_view() == distinct(one));
        let ghost mid = out.deep_view();
        if !holds(&out, edges[i].net_b.as_str()) {
            out.push(edges[i].net_b.clone());
            assert(out.deep_view() =~= mid.push(ev[i as int].net_b));
        }
        assert(out.deep_view() == distinct(two));
        i += 1;
    }
    assert(ev.take(n as int) =~= ev);
    in_order(&out)
}

fn find_place(list: &Vec<String>, s: &str) -> (r: usize)
    ensures
        r == place_of(list.deep_view(), s@),
{
    let ghost all = list.deep_view();
    let n: usize = list.len();
    let mut i: usize = 0;
    assert(all.skip(0) =~= all);
    while i < n
        invariant
            n == list@.len(),
            all == list.deep_view(),
            i <= n,
            place_of(all, s@) == i + place_of(all.skip(i as int), s@),
        decreases n - i,
    {
        assert(all.skip(i as int).drop_first() =~= all.skip(i + 1));
        assert(all.skip(i as int)[0] == list@[i as int]@);
        if same(list[i].as_str(), s) {
            return i;
        }
        i += 1;
    }
    n
}

/// The pairs as mathematical integers.
pub open spec fn int_pairs(p: Seq<(usize, usize)>) -> Seq<(int, int)> {
    Seq::new(p.len(), |i: int| (p[i].0 as int, p[i].1 as int))
}

fn pairs_of(edges: &Vec<DcEdge>, nets: &Vec<String>) -> (r: Vec<(usize, usize)>)
    requires
        nets.deep_view() == graph_nets(edges.deep_view()),
    ensures
        int_pairs(r@) == edge_pairs(edges.deep_view(), nets.deep_view()),
        forall|i: int|
            0 <= i < r@.len() ==> (#[trigger] r@[i]).0 < nets@.len() && r@[i].1 < nets@.len(),
{
    let ghost ev = edges.deep_view();
    let ghost nv = nets.deep_view();
    let n: usize = edges.len();
    let mut out: Vec<(usize, usize)> = Vec::new();
    let mut i: usize = 0;
    while i < n
        invariant
            n == edges@.len(),
            i <= n,
            ev == edges.deep_view(),
            nv == nets.deep_view(),
            nv == graph_nets(ev),
            out@.len() == i,
            forall|j: int|
                0 <= j < i ==> (#[trigger] out@[j]).0 == edge_pairs(ev, nv)[j].0 && out@[j].1
                    == edge_pairs(ev, nv)[j].1 && out@[j].0 < nets@.len() && out@[j].1
                    < nets@.len(),
        decreases n - i,
    {
        assert(ev[i as int] == edges@[i as int].deep_view());
        let a: usize = find_place(nets, edges[i].net_a.as_str());
        let b: usize = find_place(nets, edges[i].net_b.as_str());
        proof {
            edges_lie_in_the_graph(ev, i as int);
        }
        out.push((a, b));
        i += 1;
    }
    assert(int_pairs(out@) =~= edge_pairs(ev, nv));
    out
}

fn roots_of(n: usize, pairs: &Vec<(usize, usize)>) -> (r: Vec<usize>)
    requires
        forall|i: int| 0 <= i < pairs@.len() ==> (#[trigger] pairs@[i]).0 < n && pairs@[i].1 < n,
    ensures
        as_ints(r@) == joined_sets(n as nat, int_pairs(pairs@)),
{
    let ghost pv = int_pairs(pairs@);
    let mut sets = UnionFind::new(n);
    let m: usize = pairs.len();
    let mut i: usize = 0;
    assert(sets@ =~= joined_sets(n as nat, pv.take(0)));
    while i < m
        invariant
            m == pairs@.len(),
            i <= m,
            pv == int_pairs(pairs@),
            forall|j: int|
                0 <= j < pairs@.len() ==> (#[trigger] pairs@[j]).0 < n && pairs@[j].1 < n,
            sets.wf(),
            sets@ == joined_sets(n as nat, pv.take(i as int)),
        decreases m - i,
    {
        proof {
            joined_sets_sized(n as nat, pv.take(i as int));
        }
        assert(pv.take(i + 1).drop_last() =~= pv.take(i as int));
        assert(pairs@[i as int].0 < n && pairs@[i as int].1 < n);
        sets.union(pairs[i].0, pairs[i].1);
        i += 1;
    }
    assert(pv.take(m as int) =~= pv);
    proof {
        joined_sets_sized(n as nat, pv);
    }
    let mut out: Vec<usize> = Vec::new();
    let mut k: usize = 0;
    let ghost want = sets@;
    while k < n
        invariant
            k <= n,
            sets.wf(),
            sets@ == want,
            want.len() == n,
            out@.len() == k,
            forall|j: int| 0 <= j < k ==> (#[trigger] out@[j]) == want[j],
        decreases n - k,
    {
        let root: usize = sets.find(k);
        out.push(root);
        k += 1;
    }
    assert(as_ints(out@) =~= want);
    out
}

fn members_of(roots: &Vec<usize>, root: usize) -> (r: Vec<usize>)
    ensures
        as_ints(r@) == places(as_ints(roots@), is_root(root as int)),
        forall|i: int| 0 <= i < r@.len() ==> (#[trigger] r@[i]) < roots@.len(),
{
    let n: usize = roots.len();
    let ghost rv = as_ints(roots@);
    let ghost test = is_root(root as int);
    let mut out: Vec<usize> = Vec::new();
    let mut i: usize = 0;
    assert(as_ints(out@) =~= places(rv.take(0), test));
    while i < n
        invariant
            n == roots@.len(),
            i <= n,
            rv == as_ints(roots@),
            test == is_root(root as int),
            as_ints(out@) == places(rv.take(i as int), test),
            forall|j: int| 0 <= j < out@.len() ==> (#[trigger] out@[j]) < i,
        decreases n - i,
    {
        let ghost before = as_ints(out@);
        assert(rv.take(i + 1).drop_last() =~= rv.take(i as int));
        assert(rv.take(i + 1).last() == roots@[i as int]);
        if roots[i] == root {
            out.push(i);
            assert(as_ints(out@) =~= before.push(i as int));
        }
        i += 1;
    }
    assert(rv.take(n as int) =~= rv);
    out
}

fn edges_of(pairs: &Vec<(usize, usize)>, roots: &Vec<usize>, root: usize) -> (r: Vec<usize>)
    requires
        forall|i: int|
            0 <= i < pairs@.len() ==> (#[trigger] pairs@[i]).0 < roots@.len() && pairs@[i].1
                < roots@.len(),
    ensures
        as_ints(r@) == places(int_pairs(pairs@), edge_in(as_ints(roots@), root as int)),
        forall|i: int| 0 <= i < r@.len() ==> (#[trigger] r@[i]) < pairs@.len(),
{
    let n: usize = pairs.len();
    let ghost pv = int_pairs(pairs@);
    let ghost rv = as_ints(roots@);
    let ghost test = edge_in(rv, root as int);
    let mut out: Vec<usize> = Vec::new();
    let mut i: usize = 0;
    assert(as_ints(out@) =~= places(pv.take(0), test));
    while i < n
        invariant
            n == pairs@.len(),
            i <= n,
            pv == int_pairs(pairs@),
            rv == as_ints(roots@),
            test == edge_in(rv, root as int),
            forall|j: int|
                0 <= j < pairs@.len() ==> (#[trigger] pairs@[j]).0 < roots@.len() && pairs@[j].1
                    < roots@.len(),
            as_ints(out@) == places(pv.take(i as int), test),
            forall|j: int| 0 <= j < out@.len() ==> (#[trigger] out@[j]) < i,
        decreases n - i,
    {
        let ghost before = as_ints(out@);
        assert(pv.take(i + 1).drop_last() =~= pv.take(i as int));
        assert(pairs@[i as int].0 < roots@.len() && pairs@[i as int].1 < roots@.len());
        let a: usize = pairs[i].0;
        let b: usize = pairs[i].1;
        assert(pv.take(i + 1).last() == (a as int, b as int));
        assert(rv[a as int] == roots@[a as int]);
        assert(rv[b as int] == roots@[b as int]);
        if roots[a] == root || roots[b] == root {
            out.push(i);
            assert(as_ints(out@) =~= before.push(i as int));
        }
        i += 1;
    }
    assert(pv.take(n as int) =~= pv);
    out
}

fn check_reference(all: &Vec<Net>, name: &str) -> (r: bool)
    ensures
        r == has_reference(all.deep_view(), name@),
{
    match find_net(all, name) {
        Some(n) => fixed_voltage(n).is_some(),
        None => false,
    }
}

fn check_active(all: &Vec<Net>, name: &str) -> (r: bool)
    ensures
        r == is_active(all.deep_view(), name@),
{
    match find_net(all, name) {
        Some(n) => {
            let fixed: bool = fixed_voltage(n).is_some();
            let amps = declared_amps(n, "current_source_total");
            !fixed && Real::zero().less(&amps)
        },
        None => false,
    }
}

fn check_solvable(all: &Vec<Net>, nets: &Vec<String>, members: &Vec<usize>) -> (r: bool)
    requires
        forall|i: int| 0 <= i < members@.len() ==> (#[trigger] members@[i]) < nets@.len(),
    ensures
        r == can_be_solved(all.deep_view(), nets.deep_view(), as_ints(members@)),
{
    let ghost av = all.deep_view();
    let ghost nv = nets.deep_view();
    let ghost mv = as_ints(members@);
    let n: usize = members.len();
    let mut reference: bool = false;
    let mut i: usize = 0;
    while i < n
        invariant
            n == members@.len(),
            i <= n,
            av == all.deep_view(),
            nv == nets.deep_view(),
            mv == as_ints(members@),
            forall|j: int| 0 <= j < members@.len() ==> (#[trigger] members@[j]) < nets@.len(),
            reference == (exists|j: int| 0 <= j < i && has_reference(av, nv[#[trigger] mv[j]])),
            forall|j: int| 0 <= j < i ==> !is_active(av, nv[#[trigger] mv[j]]),
        decreases n - i,
    {
        let k: usize = members[i];
        assert(mv[i as int] == k);
        assert(nv[k as int] == nets@[k as int]@);
        if check_active(all, nets[k].as_str()) {
            assert(is_active(av, nv[mv[i as int]]));
            return false;
        }
        if check_reference(all, nets[k].as_str()) {
            reference = true;
            assert(has_reference(av, nv[mv[i as int]]));
        }
        i += 1;
    }
    reference
}

fn quiet_nets(names: &Vec<String>, opaque: &Vec<String>, nets: &Vec<String>, parts: Ghost<PartsV>) -> (r:
    Vec<String>)
    requires
        opaque.deep_view() == parts@.opaque_nets,
    ensures
        r.deep_view() == only(
            names.deep_view(),
            is_quiet(parts@, nets.deep_view()),
        ),
{
    let ghost nv = names.deep_view();
    let ghost test = is_quiet(parts@, nets.deep_view());
    let n: usize = names.len();
    let mut out: Vec<String> = Vec::new();
    let mut i: usize = 0;
    assert(out.deep_view() =~= only(nv.take(0), test));
    while i < n
        invariant
            n == names@.len(),
            i <= n,
            nv == names.deep_view(),
            test == is_quiet(parts@, nets.deep_view()),
            opaque.deep_view() == parts@.opaque_nets,
            out.deep_view() == only(nv.take(i as int), test),
        decreases n - i,
    {
        let ghost before = out.deep_view();
        proof {
            only_one_more(nv, test, i as int);
        }
        assert(nv[i as int] == names@[i as int]@);
        let a: bool = holds(opaque, names[i].as_str());
        let b: bool = holds(nets, names[i].as_str());
        if !a && !b {
            out.push(names[i].clone());
            assert(out.deep_view() =~= before.push(nv[i as int]));
        }
        i += 1;
    }
    assert(nv.take(n as int) =~= nv);
    out
}

/// Finds how the static currents of a netlist are to be found: the conducting edges, the groups
/// of nets that they link, which groups can be solved, and the nets known to carry no current.
pub fn plan_static_currents(schematic: &Schematic) -> (r: DcPlan)
    ensures
        r.deep_view() == dc_plan(schematic.deep_view()),
{
    let ghost sv = schematic.deep_view();
    let parts = collect_parts(schematic);
    let ghost pv = parts.deep_view();
    let ghost ev = parts.edges.deep_view();
    let nets = linked_nets(&parts.edges);
    let pairs = pairs_of(&parts.edges, &nets);
    let n: usize = nets.len();
    assert(nets.deep_view().len() == n);
    let roots = roots_of(n, &pairs);
    assert(as_ints(roots@) == group_roots(ev));
    proof {
        joined_sets_sized(n as nat, int_pairs(pairs@));
    }
    assert(roots@.len() == as_ints(roots@).len());
    assert(int_pairs(pairs@).len() == pairs@.len());
    let mut groups: Vec<DcGroup> = Vec::new();
    let mut k: usize = 0;
    assert(groups.deep_view() =~= groups_below(sv.nets, ev, 0));
    while k < n
        invariant
            k <= n,
            n == nets@.len(),
            n == roots@.len(),
            sv == schematic.deep_view(),
            ev == parts.edges.deep_view(),
            nets.deep_view() == graph_nets(ev),
            int_pairs(pairs@) == edge_pairs(ev, nets.deep_view()),
            as_ints(roots@) == group_roots(ev),
            forall|i: int|
                0 <= i < pairs@.len() ==> (#[trigger] pairs@[i]).0 < roots@.len() && pairs@[i].1
                    < roots@.len(),
            groups.deep_view() == groups_below(sv.nets, ev, k as int),
        decreases n - k,
    {
        let ghost before = groups.deep_view();
        assert(group_roots(ev)[k as int] == roots@[k as int]);
        if roots[k] == k {
            let members = members_of(&roots, k);
            let edges = edges_of(&pairs, &roots, k);
            let solvable: bool = check_solvable(&schematic.nets, &nets, &members);
            groups.push(DcGroup { nets: members, edges, solvable });
            assert(groups.deep_view() =~= before.push(group_at(sv.nets, ev, k as int)));
        }
        k += 1;
    }
    let quiet = quiet_nets(&parts.capacitor_nets, &parts.opaque_nets, &nets, Ghost(pv));
    DcPlan { edges: parts.edges, nets, groups, quiet }
}

} // verus!
