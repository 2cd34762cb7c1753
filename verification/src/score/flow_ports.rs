//! Where declared currents enter and leave the copper of a net.
use vstd::prelude::*;

use crate::netlist::dc_plan::{find_net, net_named};
use crate::netlist::schematic::{
    find_instance, instance_at, InstanceRef, InstanceRefV, InstanceV, Net, Port, PortV, Schematic,
    SchematicV,
};
use crate::score::airwires::pads_in;
use crate::score::board::{BoardModel, BoardModelV, FootprintV, Pad};
use crate::score::classify::{PortCurrent, PortCurrentV};
use crate::score::metrics::esd_select::{on_board, pad_at, PadAt};
use crate::score::metrics::si_select::{find_net_place, net_place};
use crate::text::{begins_with, chars_of, ends_in, ends_with, holds, same, starts_with};

verus! {

/// The parts of a text between dots.
pub open spec fn segments(s: Seq<char>) -> Seq<Seq<char>>
    decreases s.len(),
{
    if s.len() == 0 {
        seq![Seq::<char>::empty()]
    } else {
        let front = segments(s.drop_last());
        if s.last() == '.' {
            front.push(Seq::empty())
        } else {
            front.drop_last().push(front.last().push(s.last()))
        }
    }
}

/// The parts of a text between dots.
pub fn split_dots(s: &str) -> (r: Vec<String>)
    ensures
        r.deep_view() == segments(s@),
        r@.len() > 0,
{
    let cs = chars_of(s);
    let n: usize = cs.len();
    let mut out: Vec<String> = Vec::new();
    let mut start: usize = 0;
    let mut i: usize = 0;
    assert(cs@.subrange(0, 0) =~= Seq::empty());
    assert(out.deep_view().push(cs@.subrange(0, 0)) =~= segments(cs@.take(0)));
    while i < n
        invariant
            n == cs@.len(),
            cs@ == s@,
            start <= i,
            i <= n,
            out.deep_view().push(cs@.subrange(start as int, i as int)) == segments(
                cs@.take(i as int),
            ),
        decreases n - i,
    {
        assert(cs@.take(i + 1).drop_last() =~= cs@.take(i as int));
        let ghost before = out.deep_view();
        let ghost whole = segments(cs@.take(i as int));
        let ghost part = cs@.subrange(start as int, i as int);
        assert(whole.drop_last() =~= before);
        assert(whole.last() == part);
        let c: char = cs[i];
        if c == '.' {
            out.push(s.substring_char(start, i).to_string());
            assert(out.deep_view() =~= before.push(part));
            start = i + 1;
            assert(cs@.subrange(start as int, i + 1) =~= Seq::empty());
            assert(out.deep_view().push(Seq::empty()) =~= whole.push(Seq::empty()));
        } else {
            assert(cs@.subrange(start as int, i + 1) =~= part.push(c));
            assert(out.deep_view().push(part.push(c)) =~= whole.drop_last().push(
                whole.last().push(c),
            ));
        }
        i += 1;
    }
    assert(cs@.take(n as int) =~= cs@);
    let ghost before = out.deep_view();
    out.push(s.substring_char(start, n).to_string());
    assert(out.deep_view() =~= before.push(cs@.subrange(start as int, n as int)));
    out
}

/// The copper layer of a pad: the first of its layers that is one, else the front.
pub open spec fn copper_layer(layers: Seq<Seq<char>>) -> Seq<char>
    decreases layers.len(),
{
    if layers.len() == 0 {
        "F.Cu"@
    } else if ends_in(layers[0], ".Cu"@) {
        layers[0]
    } else {
        copper_layer(layers.drop_first())
    }
}

/// The copper layer of a pad: the first of its layers that is one, else the front.
pub fn pad_copper_layer(pad: &Pad) -> (r: String)
    ensures
        r@ == copper_layer(pad.deep_view().layers),
{
    let ghost all = pad.layers.deep_view();
    let n: usize = pad.layers.len();
    let mut i: usize = 0;
    assert(all.skip(0) =~= all);
    while i < n
        invariant
            n == pad.layers@.len(),
            all == pad.layers.deep_view(),
            i <= n,
            copper_layer(all) == copper_layer(all.skip(i as int)),
        decreases n - i,
    {
        assert(all.skip(i as int).drop_first() =~= all.skip(i + 1));
        assert(all.skip(i as int)[0] == pad.layers@[i as int]@);
        if ends_with(pad.layers[i].as_str(), ".Cu") {
            return pad.layers[i].clone();
        }
        i += 1;
    }
    "F.Cu".to_string()
}

/// A component with a pin on a net.
pub struct Owner {
    pub path: Vec<String>,
    pub refdes: String,
}

/// The value of an `Owner`.
#[verifier::ext_equal]
pub struct OwnerV {
    pub path: Seq<Seq<char>>,
    pub refdes: Seq<char>,
}

impl DeepView for Owner {
    type V = OwnerV;

    open spec fn deep_view(&self) -> OwnerV {
        OwnerV { path: self.path.deep_view(), refdes: self.refdes@ }
    }
}

/// The component that a port of a net is a pin of.
pub open spec fn owner_of(instances: Seq<InstanceV>, p: PortV) -> Option<OwnerV> {
    if p.at.path.len() < 2 {
        None
    } else {
        let path = p.at.path.drop_last();
        match instance_at(instances, InstanceRefV { module: p.at.module, path }) {
            Some(x) => match x.reference_designator {
                Some(refdes) => if x.component {
                    Some(OwnerV { path, refdes })
                } else {
                    None
                },
                None => None,
            },
            None => None,
        }
    }
}

/// The components with pins on a net.
pub open spec fn owners_of(instances: Seq<InstanceV>, ports: Seq<PortV>) -> Seq<OwnerV>
    decreases ports.len(),
{
    if ports.len() == 0 {
        Seq::empty()
    } else {
        let front = owners_of(instances, ports.drop_last());
        match owner_of(instances, ports.last()) {
            Some(o) => front.push(o),
            None => front,
        }
    }
}

fn copy_front(path: &Vec<String>) -> (r: Vec<String>)
    requires
        path@.len() > 0,
    ensures
        r.deep_view() == path.deep_view().drop_last(),
{
    let ghost pv = path.deep_view();
    let n: usize = path.len() - 1;
    let mut out: Vec<String> = Vec::new();
    let mut i: usize = 0;
    while i < n
        invariant
            n == path@.len() - 1,
            i <= n,
            pv == path.deep_view(),
            out.deep_view() == pv.take(i as int),
        decreases n - i,
    {
        let ghost before = out.deep_view();
        out.push(path[i].clone());
        assert(out.deep_view() =~= before.push(pv[i as int]));
        assert(out.deep_view() =~= pv.take(i + 1));
        i += 1;
    }
    assert(pv.take(n as int) =~= pv.drop_last());
    out
}

fn find_owner(schematic: &Schematic, port: &Port) -> (r: Option<Owner>)
    ensures
        r.deep_view() == owner_of(schematic.deep_view().instances, port.deep_view()),
{
    assert(port.deep_view().at.path.len() == port.at.path@.len());
    if port.at.path.len() < 2 {
        return None;
    }
    let path = copy_front(&port.at.path);
    let at = InstanceRef { module: port.at.module.clone(), path };
    assert(at.deep_view() =~= InstanceRefV {
        module: port.deep_view().at.module,
        path: port.deep_view().at.path.drop_last(),
    });
    match find_instance(&schematic.instances, &at) {
        Some(x) => match &x.reference_designator {
            Some(refdes) => if x.component {
                Some(Owner { path: at.path, refdes: refdes.clone() })
            } else {
                None
            },
            None => None,
        },
        None => None,
    }
}

fn find_owners(schematic: &Schematic, net: &Net) -> (r: Vec<Owner>)
    ensures
        r.deep_view() == owners_of(schematic.deep_view().instances, net.deep_view().ports),
{
    let ghost xv = schematic.deep_view().instances;
    let ghost pv = net.ports.deep_view();
    let n: usize = net.ports.len();
    let mut out: Vec<Owner> = Vec::new();
    let mut i: usize = 0;
    assert(out.deep_view() =~= owners_of(xv, pv.take(0)));
    while i < n
        invariant
            n == net.ports@.len(),
            i <= n,
            xv == schematic.deep_view().instances,
            pv == net.ports.deep_view(),
            out.deep_view() == owners_of(xv, pv.take(i as int)),
        decreases n - i,
    {
        let ghost before = out.deep_view();
        assert(pv.take(i + 1).drop_last() =~= pv.take(i as int));
        assert(pv[i as int] == net.ports@[i as int].deep_view());
        match find_owner(schematic, &net.ports[i]) {
            Some(o) => {
                let ghost ov = o.deep_view();
                out.push(o);
                assert(out.deep_view() =~= before.push(ov));
            },
            None => {},
        }
        i += 1;
    }
    assert(pv.take(n as int) =~= pv);
    out
}

/// The component lies inside the module at the given path.
pub open spec fn lies_in(path: Seq<Seq<char>>, within: Seq<Seq<char>>) -> bool {
    path.len() > within.len() && forall|i: int|
        0 <= i < within.len() ==> #[trigger] path[i] == within[i]
}

fn check_lies_in(path: &Vec<String>, segs: &Vec<String>) -> (r: bool)
    requires
        segs@.len() > 0,
    ensures
        r == lies_in(path.deep_view(), segs.deep_view().drop_last()),
{
    let ghost pv = path.deep_view();
    let ghost wv = segs.deep_view().drop_last();
    let n: usize = segs.len() - 1;
    if path.len() <= n {
        return false;
    }
    let mut i: usize = 0;
    while i < n
        invariant
            n == segs@.len() - 1,
            n < path@.len(),
            i <= n,
            pv == path.deep_view(),
            wv == segs.deep_view().drop_last(),
            forall|j: int| 0 <= j < i ==> #[trigger] pv[j] == wv[j],
        decreases n - i,
    {
        assert(pv[i as int] == path@[i as int]@);
        assert(wv[i as int] == segs@[i as int]@);
        if !same(path[i].as_str(), segs[i].as_str()) {
            return false;
        }
        i += 1;
    }
    true
}

/// The references of the components inside of a module, each where it first occurs.
pub open spec fn owners_in(owners: Seq<OwnerV>, within: Seq<Seq<char>>) -> Seq<Seq<char>>
    decreases owners.len(),
{
    if owners.len() == 0 {
        Seq::empty()
    } else {
        let front = owners_in(owners.drop_last(), within);
        if lies_in(owners.last().path, within) && !front.contains(owners.last().refdes) {
            front.push(owners.last().refdes)
        } else {
            front
        }
    }
}

/// The start of the labels that name a component itself.
pub open spec fn component_label() -> Seq<char> {
    "component:"@
}

/// The components that a declared current attaches to: the one that the label names, else all
/// with a pin on the net inside of the module that declares it, each once.
pub open spec fn attached(owners: Seq<OwnerV>, label: Seq<char>) -> Seq<Seq<char>> {
    if begins_with(label, component_label()) {
        seq![label.skip(component_label().len() as int)]
    } else {
        owners_in(owners, segments(label).drop_last())
    }
}

fn find_attached(owners: &Vec<Owner>, label: &str) -> (r: Vec<String>)
    ensures
        r.deep_view() == attached(owners.deep_view(), label@),
{
    if starts_with(label, "component:") {
        let n: usize = chars_of(label).len();
        proof {
            reveal_strlit("component:");
        }
        let name = label.substring_char(10, n).to_string();
        assert(name@ =~= label@.skip(10));
        let mut out: Vec<String> = Vec::new();
        out.push(name);
        assert(out.deep_view() =~= attached(owners.deep_view(), label@));
        return out;
    }
    let segs = split_dots(label);
    let ghost wv = segs.deep_view().drop_last();
    let ghost ov = owners.deep_view();
    let n: usize = owners.len();
    let mut out: Vec<String> = Vec::new();
    let mut i: usize = 0;
    assert(out.deep_view() =~= owners_in(ov.take(0), wv));
    while i < n
        invariant
            n == owners@.len(),
            i <= n,
            segs@.len() > 0,
            wv == segs.deep_view().drop_last(),
            ov == owners.deep_view(),
            out.deep_view() == owners_in(ov.take(i as int), wv),
        decreases n - i,
    {
        let ghost before = out.deep_view();
        assert(ov.take(i + 1).drop_last() =~= ov.take(i as int));
        assert(ov[i as int] == owners@[i as int].deep_view());
        if check_lies_in(&owners[i].path, &segs) && !holds(&out, owners[i].refdes.as_str()) {
            out.push(owners[i].refdes.clone());
            assert(out.deep_view() =~= before.push(ov[i as int].refdes));
        }
        i += 1;
    }
    assert(ov.take(n as int) =~= ov);
    out
}

/// The place of the first footprint of the given reference.
pub open spec fn footprint_place(footprints: Seq<FootprintV>, refdes: Seq<char>) -> Option<int>
    decreases footprints.len(),
{
    if footprints.len() == 0 {
        None
    } else {
        match footprint_place(footprints.drop_last(), refdes) {
            Some(k) => Some(k),
            None => if footprints.last().reference == refdes {
                Some(footprints.len() - 1)
            } else {
                None
            },
        }
    }
}

fn find_footprint(board: &BoardModel, refdes: &str) -> (r: Option<usize>)
    ensures
        match r {
            Some(k) => footprint_place(board.deep_view().footprints, refdes@) == Some(k as int)
                && k < board.footprints@.len(),
            None => footprint_place(board.deep_view().footprints, refdes@) is None,
        },
{
    let ghost fv = board.footprints.deep_view();
    let n: usize = board.footprints.len();
    let mut best: Option<usize> = None;
    let mut i: usize = 0;
    while i < n
        invariant
            n == board.footprints@.len(),
            i <= n,
            fv == board.footprints.deep_view(),
            match best {
                Some(k) => footprint_place(fv.take(i as int), refdes@) == Some(k as int) && k < n,
                None => footprint_place(fv.take(i as int), refdes@) is None,
            },
        decreases n - i,
    {
        assert(fv.take(i + 1).drop_last() =~= fv.take(i as int));
        assert(fv[i as int] == board.footprints@[i as int].deep_view());
        if best.is_none() && same(board.footprints[i].reference.as_str(), refdes) {
            best = Some(i);
        }
        i += 1;
    }
    assert(fv.take(n as int) =~= fv);
    best
}

/// The pads on the net of the components with the given references.
pub open spec fn pads_of_refs(b: BoardModelV, net: i64, refs: Seq<Seq<char>>) -> Seq<PadAt>
    decreases refs.len(),
{
    if refs.len() == 0 {
        Seq::empty()
    } else {
        let front = pads_of_refs(b, net, refs.drop_last());
        match footprint_place(b.footprints, refs.last()) {
            Some(f) => front + pads_in(
                b.footprints[f].pads,
                f,
                Some(net),
                b.footprints[f].pads.len() as int,
            ),
            None => front,
        }
    }
}

fn find_pads_of_refs(board: &BoardModel, net: i64, refs: &Vec<String>) -> (r: Vec<PadAt>)
    ensures
        r@ == pads_of_refs(board.deep_view(), net, refs.deep_view()),
        forall|i: int| 0 <= i < r@.len() ==> on_board(board.deep_view(), #[trigger] r@[i]),
{
    let ghost bv = board.deep_view();
    let ghost rv = refs.deep_view();
    let n: usize = refs.len();
    let mut out: Vec<PadAt> = Vec::new();
    let mut i: usize = 0;
    while i < n
        invariant
            n == refs@.len(),
            i <= n,
            bv == board.deep_view(),
            rv == refs.deep_view(),
            out@ == pads_of_refs(bv, net, rv.take(i as int)),
            forall|j: int| 0 <= j < out@.len() ==> on_board(bv, #[trigger] out@[j]),
        decreases n - i,
    {
        assert(rv.take(i + 1).drop_last() =~= rv.take(i as int));
        assert(rv[i as int] == refs@[i as int]@);
        match find_footprint(board, refs[i].as_str()) {
            Some(f) => {
                let pads = &board.footprints[f].pads;
                let ghost pv = bv.footprints[f as int].pads;
                assert(bv.footprints[f as int] == board.footprints@[f as int].deep_view());
                let ghost base = out@;
                let m: usize = pads.len();
                assert(pv.len() == m);
                let mut k: usize = 0;
                while k < m
                    invariant
                        m == pads@.len(),
                        k <= m,
                        f < bv.footprints.len(),
                        pv == bv.footprints[f as int].pads,
                        pv == pads.deep_view(),
                        out@ == base + pads_in(pv, f as int, Some(net), k as int),
                        forall|j: int| 0 <= j < out@.len() ==> on_board(bv, #[trigger] out@[j]),
                    decreases m - k,
                {
                    assert(pv[k as int] == pads@[k as int].deep_view());
                    let on: bool = match pads[k].net {
                        Some(own) => own == net,
                        None => false,
                    };
                    if on {
                        out.push(PadAt { footprint: f, pad: k });
                        assert(out@ =~= base + pads_in(pv, f as int, Some(net), k + 1));
                    }
                    k += 1;
                }
            },
            None => {},
        }
        i += 1;
    }
    assert(rv.take(n as int) =~= rv);
    out
}

/// A place where current enters or leaves the copper.
pub struct Injection {
    pub pad: PadAt,
    pub layer: String,
    /// The place of the declared current.
    pub port: usize,
    /// In how many equal parts that current is split; this is one of them.
    pub parts: usize,
    /// The current leaves the copper here.
    pub is_sink: bool,
}

/// The value of an `Injection`.
#[verifier::ext_equal]
pub struct InjectionV {
    pub pad: PadAt,
    pub layer: Seq<char>,
    pub port: usize,
    pub parts: usize,
    pub is_sink: bool,
}

impl DeepView for Injection {
    type V = InjectionV;

    open spec fn deep_view(&self) -> InjectionV {
        InjectionV {
            pad: self.pad,
            layer: self.layer@,
            port: self.port,
            parts: self.parts,
            is_sink: self.is_sink,
        }
    }
}

/// The pads that a declared current attaches to.
pub open spec fn port_pads(b: BoardModelV, owners: Seq<OwnerV>, net: i64, port: PortCurrentV) -> Seq<
    PadAt,
> {
    pads_of_refs(b, net, attached(owners, port.port))
}

/// The declared current at place `k`, split equally over its pads.
pub open spec fn split_over(b: BoardModelV, pads: Seq<PadAt>, k: int, is_sink: bool) -> Seq<
    InjectionV,
> {
    Seq::new(
        pads.len(),
        |i: int|
            InjectionV {
                pad: pads[i],
                layer: copper_layer(pad_at(b, pads[i]).layers),
                port: k as usize,
                parts: pads.len() as usize,
                is_sink,
            },
    )
}

/// The injections of the first `n` declared currents; nothing where one of them attaches to no
/// pad.
pub open spec fn injections_of(
    b: BoardModelV,
    owners: Seq<OwnerV>,
    net: i64,
    ports: Seq<PortCurrentV>,
    n: int,
) -> Option<Seq<InjectionV>>
    decreases n,
{
    if n <= 0 {
        Some(Seq::empty())
    } else {
        let pads = port_pads(b, owners, net, ports[n - 1]);
        match injections_of(b, owners, net, ports, n - 1) {
            Some(front) => if pads.len() == 0 {
                None
            } else {
                Some(front + split_over(b, pads, n - 1, ports[n - 1].is_sink))
            },
            None => None,
        }
    }
}

/// The injections of the declared currents of a net.
pub open spec fn mapped_currents(
    b: BoardModelV,
    s: SchematicV,
    name: Seq<char>,
    ports: Seq<PortCurrentV>,
) -> Option<Seq<InjectionV>> {
    match (net_named(s.nets, name), net_place(b.nets, name)) {
        (Some(net), Some(k)) => {
            let owners = owners_of(s.instances, net.ports);
            if owners.len() == 0 {
                None
            } else {
                injections_of(b, owners, b.nets[k].0, ports, ports.len() as int)
            }
        },
        _ => None,
    }
}

/// Each declared current is split whole: there are as many injections of it as it has parts, all
/// of the same size and direction.
pub proof fn currents_are_split_whole(
    b: BoardModelV,
    pads: Seq<PadAt>,
    k: int,
    is_sink: bool,
    i: int,
)
    requires
        0 <= i < pads.len() <= usize::MAX,
    ensures
        split_over(b, pads, k, is_sink)[i].parts == split_over(b, pads, k, is_sink).len(),
        split_over(b, pads, k, is_sink)[i].is_sink == is_sink,
{
}

/// No component is attached to twice.
pub proof fn owners_attach_once(owners: Seq<OwnerV>, within: Seq<Seq<char>>)
    ensures
        owners_in(owners, within).no_duplicates(),
    decreases owners.len(),
{
    if owners.len() > 0 {
        owners_attach_once(owners.drop_last(), within);
    }
}

/// Maps the declared currents of a net onto the pads of the board. Nothing where the net is
/// unknown or has no component, or a current attaches to no pad.
pub fn map_port_currents(
    board: &BoardModel,
    schematic: &Schematic,
    net_name: &str,
    ports: &Vec<PortCurrent>,
) -> (r: Option<Vec<Injection>>)
    ensures
        r.deep_view() == mapped_currents(
            board.deep_view(),
            schematic.deep_view(),
            net_name@,
            ports.deep_view(),
        ),
{
    let ghost bv = board.deep_view();
    let ghost sv = schematic.deep_view();
    let ghost pv = ports.deep_view();
    let net = match find_net(&schematic.nets, net_name) {
        Some(net) => net,
        None => {
            return None;
        },
    };
    let owners = find_owners(schematic, net);
    let ghost ov = owners.deep_view();
    assert(ov.len() == owners@.len());
    if owners.len() == 0 {
        return None;
    }
    let id: i64 = match find_net_place(&board.nets, net_name) {
        Some(k) => {
            assert(bv.nets[k as int] == (board.nets@[k as int].0, board.nets@[k as int].1@));
            board.nets[k].0
        },
        None => {
            return None;
        },
    };
    let n: usize = ports.len();
    assert(pv.len() == n);
    let mut out: Vec<Injection> = Vec::new();
    let mut i: usize = 0;
    assert(out.deep_view() =~= Seq::empty());
    while i < n
        invariant
            n == ports@.len(),
            i <= n,
            bv == board.deep_view(),
            pv == ports.deep_view(),
            ov == owners.deep_view(),
            board.deep_view() == bv,
            schematic.deep_view() == sv,
            mapped_currents(bv, sv, net_name@, pv) == injections_of(bv, ov, id, pv, n as int),
            injections_of(bv, ov, id, pv, i as int) == Some(out.deep_view()),
        decreases n - i,
    {
        assert(pv[i as int] == ports@[i as int].deep_view());
        let refs = find_attached(&owners, ports[i].port.as_str());
        let pads = find_pads_of_refs(board, id, &refs);
        let m: usize = pads.len();
        if m == 0 {
            proof {
                no_pads_no_currents(bv, ov, id, pv, i as int, n as int);
            }
            assert(pv.len() == n);
            return None;
        }
        let ghost base = out.deep_view();
        let ghost want = split_over(bv, pads@, i as int, ports@[i as int].is_sink);
        let mut k: usize = 0;
        assert(base + want.take(0) =~= base);
        while k < m
            invariant
                m == pads@.len(),
                k <= m,
                i < ports@.len(),
                bv == board.deep_view(),
                want == split_over(bv, pads@, i as int, ports@[i as int].is_sink),
                forall|j: int| 0 <= j < pads@.len() ==> on_board(bv, #[trigger] pads@[j]),
                out.deep_view() == base + want.take(k as int),
            decreases m - k,
        {
            let p = pads[k];
            assert(on_board(bv, pads@[k as int]));
            assert(bv.footprints[p.footprint as int]
                == board.footprints@[p.footprint as int].deep_view());
            assert(pad_at(bv, p)
                == board.footprints@[p.footprint as int].pads@[p.pad as int].deep_view());
            let layer = pad_copper_layer(&board.footprints[p.footprint].pads[p.pad]);
            let ghost before = out.deep_view();
            let injection = Injection {
                pad: p,
                layer,
                port: i,
                parts: m,
                is_sink: ports[i].is_sink,
            };
            assert(injection.deep_view() =~= want[k as int]);
            out.push(injection);
            assert(out.deep_view() =~= before.push(want[k as int]));
            assert(want.take(k + 1) =~= want.take(k as int).push(want[k as int]));
            assert(out.deep_view() =~= base + want.take(k + 1));
            k += 1;
        }
        assert(want.take(m as int) =~= want);
        i += 1;
    }
    assert(pv.len() == n);
    Some(out)
}

proof fn no_pads_no_currents(
    b: BoardModelV,
    owners: Seq<OwnerV>,
    net: i64,
    ports: Seq<PortCurrentV>,
    i: int,
    n: int,
)
    requires
        0 <= i < n,
        port_pads(b, owners, net, ports[i]).len() == 0,
    ensures
        injections_of(b, owners, net, ports, n) is None,
    decreases n,
{
    if i < n - 1 {
        no_pads_no_currents(b, owners, net, ports, i, n - 1);
    }
}

/// Some declared current enters and some leaves.
pub open spec fn is_circuit(ports: Seq<PortCurrentV>) -> bool {
    (exists|i: int| 0 <= i < ports.len() && (#[trigger] ports[i]).is_sink) && (exists|i: int|
        0 <= i < ports.len() && !(#[trigger] ports[i]).is_sink)
}

/// Whether some declared current enters and some leaves; else there is no circuit to solve.
pub fn has_circuit(ports: &Vec<PortCurrent>) -> (r: bool)
    ensures
        r == is_circuit(ports.deep_view()),
{
    let ghost pv = ports.deep_view();
    let n: usize = ports.len();
    let mut sink: bool = false;
    let mut source: bool = false;
    let mut i: usize = 0;
    while i < n
        invariant
            n == ports@.len(),
            i <= n,
            pv == ports.deep_view(),
            sink == exists|j: int| 0 <= j < i && (#[trigger] pv[j]).is_sink,
            source == exists|j: int| 0 <= j < i && !(#[trigger] pv[j]).is_sink,
        decreases n - i,
    {
        assert(pv[i as int] == ports@[i as int].deep_view());
        if ports[i].is_sink {
            sink = true;
        } else {
            source = true;
        }
        i += 1;
    }
    sink && source
}

} // verus!
