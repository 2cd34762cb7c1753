//! Airwires: the straight connections that would join the pads of each net.
use vstd::prelude::*;

use crate::number::Real;
use crate::score::board::{BoardModel, BoardModelV, PadV};
use crate::score::metrics::esd_select::{on_board, PadAt};
use crate::score::spanning::{edges_as_ints, is_table, spanning_edges, spanning_tree};

verus! {

/// Those of the first `k` pads of footprint `f` that are on the net; all of them without a net.
pub open spec fn pads_in(pads: Seq<PadV>, f: int, net: Option<i64>, k: int) -> Seq<PadAt>
    decreases k,
{
    if k <= 0 {
        Seq::empty()
    } else {
        let front = pads_in(pads, f, net, k - 1);
        if net is None || pads[k - 1].net == net {
            front.push(PadAt { footprint: f as usize, pad: (k - 1) as usize })
        } else {
            front
        }
    }
}

/// The pads of the first `n` footprints that are on the net; all of them without a net.
pub open spec fn pads_of(b: BoardModelV, net: Option<i64>, n: int) -> Seq<PadAt>
    decreases n,
{
    if n <= 0 {
        Seq::empty()
    } else {
        let pads = b.footprints[n - 1].pads;
        pads_of(b, net, n - 1) + pads_in(pads, n - 1, net, pads.len() as int)
    }
}

/// The pads on a net; all pads without a net.
pub open spec fn net_pads(b: BoardModelV, net: Option<i64>) -> Seq<PadAt> {
    pads_of(b, net, b.footprints.len() as int)
}

/// The pads on a net, in the order of the footprints; all pads without a net.
pub fn find_net_pads(board: &BoardModel, net: Option<i64>) -> (r: Vec<PadAt>)
    ensures
        r@ == net_pads(board.deep_view(), net),
        forall|i: int| 0 <= i < r@.len() ==> on_board(board.deep_view(), #[trigger] r@[i]),
{
    let ghost bv = board.deep_view();
    let n: usize = board.footprints.len();
    let mut out: Vec<PadAt> = Vec::new();
    let mut f: usize = 0;
    while f < n
        invariant
            n == board.footprints@.len(),
            f <= n,
            bv == board.deep_view(),
            out@ == pads_of(bv, net, f as int),
            forall|i: int| 0 <= i < out@.len() ==> on_board(bv, #[trigger] out@[i]),
        decreases n - f,
    {
        let pads = &board.footprints[f].pads;
        let ghost pv = bv.footprints[f as int].pads;
        assert(bv.footprints[f as int] == board.footprints@[f as int].deep_view());
        let ghost base = out@;
        let m: usize = pads.len();
        assert(pv.len() == m);
        let mut k: usize = 0;
        while k < m
            invariant
                m == pads@.len(),
                k <= m,
                f < bv.footprints.len(),
                pv == bv.footprints[f as int].pads,
                pv == pads.deep_view(),
                forall|i: int| 0 <= i < out@.len() ==> on_board(bv, #[trigger] out@[i]),
                out@ == base + pads_in(pv, f as int, net, k as int),
            decreases m - k,
        {
            assert(pv[k as int] == pads@[k as int].deep_view());
            let on: bool = match net {
                Some(id) => match pads[k].net {
                    Some(own) => own == id,
                    None => false,
                },
                None => true,
            };
            if on {
                out.push(PadAt { footprint: f, pad: k });
                assert(out@ =~= base + pads_in(pv, f as int, net, k + 1));
            }
            k += 1;
        }
        f += 1;
    }
    assert(bv.footprints.len() == n);
    out
}

/// A connection between two pads of a net.
#[derive(Clone, Copy, Debug, PartialEq, Eq, Structural)]
pub struct Airwire {
    pub net: i64,
    pub from: PadAt,
    pub to: PadAt,
}

/// The connections between pads by their places.
pub open spec fn wires(net: i64, pads: Seq<PadAt>, edges: Seq<(int, int)>) -> Seq<Airwire> {
    Seq::new(
        edges.len(),
        |i: int| Airwire { net, from: pads[edges[i].0], to: pads[edges[i].1] },
    )
}

/// The airwires of one net, from the distances between its pads.
pub open spec fn wires_of_net(b: BoardModelV, net: i64, d: Seq<Seq<Real>>) -> Seq<Airwire> {
    let pads = net_pads(b, Some(net));
    if pads.len() < 2 {
        Seq::empty()
    } else {
        wires(net, pads, spanning_tree(d))
    }
}

/// The airwires of the first `n` nets.
pub open spec fn wires_of_nets(b: BoardModelV, distances: Seq<Seq<Seq<Real>>>, n: int) -> Seq<
    Airwire,
>
    decreases n,
{
    if n <= 0 {
        Seq::empty()
    } else {
        wires_of_nets(b, distances, n - 1) + wires_of_net(
            b,
            b.nets[n - 1].0,
            distances[n - 1],
        )
    }
}

/// The airwires of the board.
pub open spec fn all_wires(b: BoardModelV, distances: Seq<Seq<Seq<Real>>>) -> Seq<Airwire> {
    wires_of_nets(b, distances, b.nets.len() as int)
}

/// There is a table of the distances between the pads of each net.
pub open spec fn distances_fit(b: BoardModelV, distances: Seq<Seq<Seq<Real>>>) -> bool {
    distances.len() == b.nets.len() && forall|i: int|
        0 <= i < b.nets.len() ==> is_table(#[trigger] distances[i]) && distances[i].len()
            == net_pads(b, Some(b.nets[i].0)).len()
}

/// The airwires of the board, from the distances between the pads of each net.
pub fn airwire_edges(board: &BoardModel, distances: &Vec<Vec<Vec<Real>>>) -> (r: Vec<Airwire>)
    requires
        distances_fit(board.deep_view(), distances.deep_view()),
    ensures
        r@ == all_wires(board.deep_view(), distances.deep_view()),
{
    let ghost bv = board.deep_view();
    let ghost dv = distances.deep_view();
    let n: usize = board.nets.len();
    assert(bv.nets.len() == n);
    let mut out: Vec<Airwire> = Vec::new();
    let mut i: usize = 0;
    while i < n
        invariant
            n == board.nets@.len(),
            i <= n,
            bv == board.deep_view(),
            dv == distances.deep_view(),
            bv.nets.len() == n,
            distances_fit(bv, dv),
            out@ == wires_of_nets(bv, dv, i as int),
        decreases n - i,
    {
        assert(bv.nets[i as int] == (board.nets@[i as int].0, board.nets@[i as int].1@));
        assert(dv.len() == distances@.len());
        assert(dv[i as int] == distances@[i as int].deep_view());
        let net: i64 = board.nets[i].0;
        let pads = find_net_pads(board, Some(net));
        let ghost base = out@;
        if pads.len() >= 2 {
            assert(dv[i as int].len() == pads@.len());
            assert(distances@[i as int].deep_view().len() == distances@[i as int]@.len());
            let edges = spanning_edges(&distances[i]);
            let ghost ev = edges_as_ints(edges@);
            let ghost want = wires(net, pads@, ev);
            let m: usize = edges.len();
            let mut k: usize = 0;
            while k < m
                invariant
                    m == edges@.len(),
                    k <= m,
                    ev == edges_as_ints(edges@),
                    want == wires(net, pads@, ev),
                    forall|j: int|
                        0 <= j < edges@.len() ==> (#[trigger] edges@[j]).0 < pads@.len()
                            && edges@[j].1 < pads@.len(),
                    out@ == base + want.take(k as int),
                decreases m - k,
            {
                let (a, c) = edges[k];
                assert(edges@[k as int].0 < pads@.len());
                out.push(Airwire { net, from: pads[a], to: pads[c] });
                assert(want.take(k + 1) =~= want.take(k as int).push(want[k as int]));
                assert(out@ =~= base + want.take(k + 1));
                k += 1;
            }
            assert(want.take(m as int) =~= want);
        }
        assert(out@ =~= base + wires_of_net(bv, net, dv[i as int]));
        i += 1;
    }
    out
}

} // verus!
