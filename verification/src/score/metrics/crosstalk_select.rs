//! Selections of the crosstalk metrics: which tracks run beside each other, and which of those
//! runs count.
use vstd::prelude::*;

use crate::number::{below, lesser, no_number, place, Real};
use crate::order::{as_ints, in_order, sorted};
use crate::score::board::{name_of_net, BoardModel, BoardModelV};
use crate::score::classify::NetInfo;
use crate::score::metrics::context::{check_net, net_is, Classes, Trait};
use crate::score::metrics::si_select::pairs_as_ints;
use crate::score::spatial::{
    indexed_layers, is_neighbour, neighbours_are_exact, neighbours_of, CellRange, SegmentIndex,
};
use crate::steps::distinct;
use crate::text::{holds, same};

verus! {

/// The later ones of the given neighbours of track `i` that are on other nets.
pub open spec fn later_pairs(b: BoardModelV, i: int, near: Seq<int>) -> Seq<(int, int)>
    decreases near.len(),
{
    if near.len() == 0 {
        Seq::empty()
    } else {
        let front = later_pairs(b, i, near.drop_last());
        if near.last() > i && b.tracks[near.last()].net != b.tracks[i].net {
            front.push((i, near.last()))
        } else {
            front
        }
    }
}

/// Track `j` is a neighbour of track `i`: it lies within the cells around it.
pub open spec fn beside(
    b: BoardModelV,
    cells: Seq<CellRange>,
    around: Seq<CellRange>,
    i: int,
    j: int,
) -> bool {
    is_neighbour(indexed_layers(b), cells, i, b.tracks[i].layer, around[i], j)
}

/// The neighbours of track `i`.
pub open spec fn near_track(
    b: BoardModelV,
    cells: Seq<CellRange>,
    around: Seq<CellRange>,
    i: int,
) -> Seq<int> {
    neighbours_of(
        indexed_layers(b),
        cells,
        i,
        b.tracks[i].layer,
        around[i],
        cells.len() as int,
    )
}

/// Tracks beside each other on different nets, each pair once, for the first `n` tracks.
pub open spec fn adjacent_pairs(
    b: BoardModelV,
    cells: Seq<CellRange>,
    around: Seq<CellRange>,
    n: int,
) -> Seq<(int, int)>
    decreases n,
{
    if n <= 0 {
        Seq::empty()
    } else {
        adjacent_pairs(b, cells, around, n - 1) + later_pairs(
            b,
            n - 1,
            near_track(b, cells, around, n - 1),
        )
    }
}

/// Those of the given neighbours of track `i` that are victims on other nets.
pub open spec fn victims_of(b: BoardModelV, classes: Classes, i: int, near: Seq<int>) -> Seq<
    (int, int),
>
    decreases near.len(),
{
    if near.len() == 0 {
        Seq::empty()
    } else {
        let front = victims_of(b, classes, i, near.drop_last());
        if b.tracks[near.last()].net != b.tracks[i].net && net_is(
            b,
            classes,
            b.tracks[near.last()].net,
            Trait::Victim,
        ) {
            front.push((i, near.last()))
        } else {
            front
        }
    }
}

/// Aggressor tracks with the victim tracks beside them, for the first `n` tracks.
pub open spec fn coupled_pairs(
    b: BoardModelV,
    classes: Classes,
    cells: Seq<CellRange>,
    around: Seq<CellRange>,
    n: int,
) -> Seq<(int, int)>
    decreases n,
{
    if n <= 0 {
        Seq::empty()
    } else {
        let front = coupled_pairs(b, classes, cells, around, n - 1);
        if net_is(b, classes, b.tracks[n - 1].net, Trait::Aggressor) {
            front + victims_of(b, classes, n - 1, near_track(b, cells, around, n - 1))
        } else {
            front
        }
    }
}

fn index_of(board: &BoardModel, cells: &Vec<CellRange>) -> (r: SegmentIndex)
    requires
        cells@.len() == board.tracks@.len(),
    ensures
        r.layers() == indexed_layers(board.deep_view()),
        r.cells() == cells@,
{
    let n: usize = cells.len();
    let mut copy: Vec<CellRange> = Vec::new();
    let mut i: usize = 0;
    while i < n
        invariant
            n == cells@.len(),
            i <= n,
            copy@ == cells@.take(i as int),
        decreases n - i,
    {
        copy.push(cells[i]);
        assert(copy@ =~= cells@.take(i + 1));
        i += 1;
    }
    assert(cells@.take(n as int) =~= cells@);
    SegmentIndex::build(board, copy)
}

proof fn near_is_exact(b: BoardModelV, cells: Seq<CellRange>, around: Seq<CellRange>, i: int)
    ensures
        forall|k: int|
            0 <= k < near_track(b, cells, around, i).len() ==> 0 <= #[trigger] near_track(
                b,
                cells,
                around,
                i,
            )[k] < cells.len(),
        forall|j: int|
            #![trigger near_track(b, cells, around, i).contains(j)]
            near_track(b, cells, around, i).contains(j) <==> 0 <= j < cells.len() && beside(
                b,
                cells,
                around,
                i,
                j,
            ),
{
    neighbours_are_exact(
        indexed_layers(b),
        cells,
        i,
        b.tracks[i].layer,
        around[i],
        cells.len() as int,
    );
    let q = near_track(b, cells, around, i);
    assert forall|k: int| 0 <= k < q.len() implies 0 <= #[trigger] q[k] < cells.len() by {
        assert(q.contains(q[k]));
    }
}

/// Tracks beside each other on different nets, each pair once.
pub fn find_adjacent_pairs(
    board: &BoardModel,
    cells: &Vec<CellRange>,
    around: &Vec<CellRange>,
) -> (r: Vec<(usize, usize)>)
    requires
        cells@.len() == board.tracks@.len(),
        around@.len() == board.tracks@.len(),
    ensures
        pairs_as_ints(r@) == adjacent_pairs(
            board.deep_view(),
            cells@,
            around@,
            cells@.len() as int,
        ),
{
    let ghost bv = board.deep_view();
    let index = index_of(board, cells);
    let n: usize = cells.len();
    let mut out: Vec<(usize, usize)> = Vec::new();
    let mut i: usize = 0;
    assert(pairs_as_ints(out@) =~= adjacent_pairs(bv, cells@, around@, 0));
    while i < n
        invariant
            n == cells@.len(),
            n == around@.len(),
            n == board.tracks@.len(),
            i <= n,
            bv == board.deep_view(),
            index.layers() == indexed_layers(bv),
            index.cells() == cells@,
            pairs_as_ints(out@) == adjacent_pairs(bv, cells@, around@, i as int),
        decreases n - i,
    {
        assert(bv.tracks[i as int] == board.tracks@[i as int].deep_view());
        let near = index.neighbours(i, board.tracks[i].layer.as_str(), around[i]);
        let ghost nv = as_ints(near@);
        let ghost base = pairs_as_ints(out@);
        proof {
            near_is_exact(bv, cells@, around@, i as int);
        }
        assert(nv == near_track(bv, cells@, around@, i as int));
        let m: usize = near.len();
        let mut k: usize = 0;
        assert(base + later_pairs(bv, i as int, nv.take(0)) =~= base);
        while k < m
            invariant
                m == near@.len(),
                k <= m,
                i < n,
                n == cells@.len(),
                n == board.tracks@.len(),
                bv == board.deep_view(),
                nv == as_ints(near@),
                bv.tracks[i as int] == board.tracks@[i as int].deep_view(),
                forall|j: int| 0 <= j < nv.len() ==> 0 <= #[trigger] nv[j] < cells@.len(),
                pairs_as_ints(out@) == base + later_pairs(bv, i as int, nv.take(k as int)),
            decreases m - k,
        {
            let ghost before = pairs_as_ints(out@);
            assert(nv.take(k + 1).drop_last() =~= nv.take(k as int));
            let j: usize = near[k];
            assert(nv[k as int] == j);
            assert(bv.tracks[j as int] == board.tracks@[j as int].deep_view());
            if j > i && board.tracks[j].net != board.tracks[i].net {
                out.push((i, j));
                assert(pairs_as_ints(out@) =~= before.push((i as int, j as int)));
                assert(pairs_as_ints(out@) =~= base + later_pairs(bv, i as int, nv.take(k + 1)));
            }
            k += 1;
        }
        assert(nv.take(m as int) =~= nv);
        i += 1;
    }
    out
}

/// Aggressor tracks with the victim tracks beside them.
pub fn find_coupled_pairs(
    board: &BoardModel,
    classes: &Vec<(String, NetInfo)>,
    cells: &Vec<CellRange>,
    around: &Vec<CellRange>,
) -> (r: Vec<(usize, usize)>)
    requires
        cells@.len() == board.tracks@.len(),
        around@.len() == board.tracks@.len(),
    ensures
        pairs_as_ints(r@) == coupled_pairs(
            board.deep_view(),
            classes.deep_view(),
            cells@,
            around@,
            cells@.len() as int,
        ),
        forall|i: int|
            0 <= i < r@.len() ==> (#[trigger] r@[i]).0 < board.tracks@.len() && r@[i].1
                < board.tracks@.len(),
{
    let ghost bv = board.deep_view();
    let ghost cv = classes.deep_view();
    let index = index_of(board, cells);
    let n: usize = cells.len();
    let mut out: Vec<(usize, usize)> = Vec::new();
    let mut i: usize = 0;
    assert(pairs_as_ints(out@) =~= coupled_pairs(bv, cv, cells@, around@, 0));
    while i < n
        invariant
            n == cells@.len(),
            n == around@.len(),
            n == board.tracks@.len(),
            i <= n,
            bv == board.deep_view(),
            cv == classes.deep_view(),
            index.layers() == indexed_layers(bv),
            index.cells() == cells@,
            pairs_as_ints(out@) == coupled_pairs(bv, cv, cells@, around@, i as int),
            forall|j: int|
                0 <= j < out@.len() ==> (#[trigger] out@[j]).0 < board.tracks@.len() && out@[j].1
                    < board.tracks@.len(),
        decreases n - i,
    {
        assert(bv.tracks[i as int] == board.tracks@[i as int].deep_view());
        if check_net(board, classes, board.tracks[i].net, Trait::Aggressor) {
            let near = index.neighbours(i, board.tracks[i].layer.as_str(), around[i]);
            let ghost nv = as_ints(near@);
            let ghost base = pairs_as_ints(out@);
            proof {
                near_is_exact(bv, cells@, around@, i as int);
            }
            assert(nv == near_track(bv, cells@, around@, i as int));
            let m: usize = near.len();
            let mut k: usize = 0;
            assert(base + victims_of(bv, cv, i as int, nv.take(0)) =~= base);
            while k < m
                invariant
                    m == near@.len(),
                    k <= m,
                    i < n,
                    n == cells@.len(),
                    n == board.tracks@.len(),
                    bv == board.deep_view(),
                    cv == classes.deep_view(),
                    nv == as_ints(near@),
                    bv.tracks[i as int] == board.tracks@[i as int].deep_view(),
                    forall|j: int| 0 <= j < nv.len() ==> 0 <= #[trigger] nv[j] < cells@.len(),
                    pairs_as_ints(out@) == base + victims_of(bv, cv, i as int, nv.take(k as int)),
                    forall|j: int|
                        0 <= j < out@.len() ==> (#[trigger] out@[j]).0 < board.tracks@.len()
                            && out@[j].1 < board.tracks@.len(),
                decreases m - k,
            {
                let ghost before = pairs_as_ints(out@);
                assert(nv.take(k + 1).drop_last() =~= nv.take(k as int));
                let j: usize = near[k];
                assert(nv[k as int] == j);
                assert(bv.tracks[j as int] == board.tracks@[j as int].deep_view());
                if board.tracks[j].net != board.tracks[i].net && check_net(
                    board,
                    classes,
                    board.tracks[j].net,
                    Trait::Victim,
                ) {
                    out.push((i, j));
                    assert(pairs_as_ints(out@) =~= before.push((i as int, j as int)));
                    assert(pairs_as_ints(out@) =~= base + victims_of(
                        bv,
                        cv,
                        i as int,
                        nv.take(k + 1),
                    ));
                }
                k += 1;
            }
            assert(nv.take(m as int) =~= nv);
        }
        i += 1;
    }
    out
}

/// A stretch over which two tracks run in parallel.
#[derive(Clone, Copy, Debug, PartialEq, Eq, Structural)]
pub struct Run {
    /// How far the tracks are apart.
    pub separation: Real,
    /// How far apart tracks still couple.
    pub reach: Real,
    /// How far apart tracks are to be: three widths.
    pub spacing: Real,
    /// The length of the stretch over the square of the separation.
    pub exposure: Real,
    /// The separation over the spacing.
    pub margin: Real,
}


/// The tracks run in parallel and couple.
pub open spec fn couples(r: Option<Run>) -> bool {
    match r {
        Some(x) => !below(x.reach, x.separation),
        None => false,
    }
}

/// The tracks run in parallel and couple, and keep their spacing.
pub open spec fn keeps_spacing(r: Option<Run>) -> bool {
    match r {
        Some(x) => couples(r) && !no_number(x.separation) && !no_number(x.spacing) && place(
            x.separation,
        ) >= place(x.spacing),
        None => false,
    }
}

impl Run {
    /// Whether the tracks couple.
    pub fn couples(&self) -> (r: bool)
        ensures
            r == couples(Some(*self)),
    {
        !self.reach.less(&self.separation)
    }

    /// Whether the tracks couple and keep their spacing.
    pub fn keeps_spacing(&self) -> (r: bool)
        ensures
            r == keeps_spacing(Some(*self)),
    {
        self.couples() && !self.separation.is_missing() && !self.spacing.is_missing()
            && self.separation.rank() >= self.spacing.rank()
    }
}

/// The exposure of a hotspot: about ten millimetres at a quarter of a millimetre.
pub const HOTSPOT: u64 = 0x4064_0000_0000_0000;

/// The run is a hotspot.
pub open spec fn is_hotspot(r: Option<Run>) -> bool {
    couples(r) && below(Real { bits: HOTSPOT }, r->0.exposure)
}

/// How many runs are hotspots.
pub open spec fn hotspots(runs: Seq<Option<Run>>) -> nat
    decreases runs.len(),
{
    if runs.len() == 0 {
        0
    } else {
        hotspots(runs.drop_last()) + if is_hotspot(runs.last()) {
            1nat
        } else {
            0nat
        }
    }
}

/// How many runs are hotspots.
pub fn count_hotspots(runs: &Vec<Option<Run>>) -> (r: usize)
    ensures
        r == hotspots(runs@),
{
    let hot = Real { bits: HOTSPOT };
    let n: usize = runs.len();
    let mut count: usize = 0;
    let mut i: usize = 0;
    while i < n
        invariant
            n == runs@.len(),
            i <= n,
            hot == (Real { bits: HOTSPOT }),
            count == hotspots(runs@.take(i as int)),
            count <= i,
        decreases n - i,
    {
        assert(runs@.take(i + 1).drop_last() =~= runs@.take(i as int));
        match runs[i] {
            Some(x) => {
                if x.couples() && hot.less(&x.exposure) {
                    count += 1;
                }
            },
            None => {},
        }
        i += 1;
    }
    assert(runs@.take(n as int) =~= runs@);
    count
}

/// The name of the net of the victim of a pair.
pub open spec fn victim_name(b: BoardModelV, pair: (int, int)) -> Seq<char> {
    name_of_net(b.nets, b.tracks[pair.1].net)
}

/// The victim of the pair counts: it couples, and where only sensitive nets are asked for, its
/// net is one.
pub open spec fn counts(b: BoardModelV, classes: Classes, pair: (int, int), r: Option<Run>, only_sensitive: bool) -> bool {
    couples(r) && (only_sensitive ==> net_is(
        b,
        classes,
        b.tracks[pair.1].net,
        Trait::Sensitive,
    ))
}

/// The names of the victims that count among the first `n` pairs.
pub open spec fn victim_names(
    b: BoardModelV,
    classes: Classes,
    pairs: Seq<(int, int)>,
    runs: Seq<Option<Run>>,
    only_sensitive: bool,
    n: int,
) -> Seq<Seq<char>>
    decreases n,
{
    if n <= 0 {
        Seq::empty()
    } else {
        let front = victim_names(b, classes, pairs, runs, only_sensitive, n - 1);
        if counts(b, classes, pairs[n - 1], runs[n - 1], only_sensitive) {
            front.push(victim_name(b, pairs[n - 1]))
        } else {
            front
        }
    }
}

/// The names of the victims that count, each once, in order.
pub open spec fn victims(
    b: BoardModelV,
    classes: Classes,
    pairs: Seq<(int, int)>,
    runs: Seq<Option<Run>>,
    only_sensitive: bool,
) -> Seq<Seq<char>> {
    sorted::<String>(
        distinct(victim_names(b, classes, pairs, runs, only_sensitive, pairs.len() as int)),
    )
}

/// The names of the victims that count, each once, in order.
pub fn find_victims(
    board: &BoardModel,
    classes: &Vec<(String, NetInfo)>,
    pairs: &Vec<(usize, usize)>,
    runs: &Vec<Option<Run>>,
    only_sensitive: bool,
) -> (r: Vec<String>)
    requires
        runs@.len() == pairs@.len(),
        forall|i: int| 0 <= i < pairs@.len() ==> (#[trigger] pairs@[i]).1 < board.tracks@.len(),
    ensures
        r.deep_view() == victims(
            board.deep_view(),
            classes.deep_view(),
            pairs_as_ints(pairs@),
            runs@,
            only_sensitive,
        ),
{
    let ghost bv = board.deep_view();
    let ghost cv = classes.deep_view();
    let ghost pv = pairs_as_ints(pairs@);
    let n: usize = pairs.len();
    let mut out: Vec<String> = Vec::new();
    let mut i: usize = 0;
    assert(out.deep_view() =~= distinct(victim_names(bv, cv, pv, runs@, only_sensitive, 0)));
    while i < n
        invariant
            n == pairs@.len(),
            n == runs@.len(),
            i <= n,
            bv == board.deep_view(),
            cv == classes.deep_view(),
            pv == pairs_as_ints(pairs@),
            forall|j: int| 0 <= j < pairs@.len() ==> (#[trigger] pairs@[j]).1 < board.tracks@.len(),
            out.deep_view() == distinct(
                victim_names(bv, cv, pv, runs@, only_sensitive, i as int),
            ),
        decreases n - i,
    {
        let ghost before = out.deep_view();
        let ghost base = victim_names(bv, cv, pv, runs@, only_sensitive, i as int);
        let j: usize = pairs[i].1;
        assert(bv.tracks[j as int] == board.tracks@[j as int].deep_view());
        let on: bool = match runs[i] {
            Some(x) => x.couples(),
            None => false,
        };
        if on && (!only_sensitive || check_net(
            board,
            classes,
            board.tracks[j].net,
            Trait::Sensitive,
        )) {
            let name = board.net_name(board.tracks[j].net);
            assert(base.push(name@).drop_last() =~= base);
            if !holds(&out, name.as_str()) {
                let ghost nm = name@;
                out.push(name);
                assert(out.deep_view() =~= before.push(nm));
            }
        }
        i += 1;
    }
    assert(pv.len() == n);
    in_order(&out)
}

/// The smallest margin of the sensitive victims of the given name among the first `n` pairs.
pub open spec fn low_margin(
    b: BoardModelV,
    classes: Classes,
    pairs: Seq<(int, int)>,
    runs: Seq<Option<Run>>,
    name: Seq<char>,
    n: int,
) -> Option<Real>
    decreases n,
{
    if n <= 0 {
        None
    } else {
        let front = low_margin(b, classes, pairs, runs, name, n - 1);
        if counts(b, classes, pairs[n - 1], runs[n - 1], true) && victim_name(b, pairs[n - 1])
            == name {
            match front {
                Some(v) => Some(lesser(v, runs[n - 1]->0.margin)),
                None => Some(runs[n - 1]->0.margin),
            }
        } else {
            front
        }
    }
}

/// The smallest margin of the sensitive victims of the given name.
pub fn find_low_margin(
    board: &BoardModel,
    classes: &Vec<(String, NetInfo)>,
    pairs: &Vec<(usize, usize)>,
    runs: &Vec<Option<Run>>,
    name: &str,
) -> (r: Option<Real>)
    requires
        runs@.len() == pairs@.len(),
        forall|i: int| 0 <= i < pairs@.len() ==> (#[trigger] pairs@[i]).1 < board.tracks@.len(),
    ensures
        r == low_margin(
            board.deep_view(),
            classes.deep_view(),
            pairs_as_ints(pairs@),
            runs@,
            name@,
            pairs@.len() as int,
        ),
{
    let ghost bv = board.deep_view();
    let ghost cv = classes.deep_view();
    let ghost pv = pairs_as_ints(pairs@);
    let n: usize = pairs.len();
    let mut best: Option<Real> = None;
    let mut i: usize = 0;
    while i < n
        invariant
            n == pairs@.len(),
            n == runs@.len(),
            i <= n,
            bv == board.deep_view(),
            cv == classes.deep_view(),
            pv == pairs_as_ints(pairs@),
            forall|j: int| 0 <= j < pairs@.len() ==> (#[trigger] pairs@[j]).1 < board.tracks@.len(),
            best == low_margin(bv, cv, pv, runs@, name@, i as int),
        decreases n - i,
    {
        let j: usize = pairs[i].1;
        assert(bv.tracks[j as int] == board.tracks@[j as int].deep_view());
        match runs[i] {
            Some(x) => {
                let own = board.net_name(board.tracks[j].net);
                if x.couples() && check_net(
                    board,
                    classes,
                    board.tracks[j].net,
                    Trait::Sensitive,
                ) && same(own.as_str(), name) {
                    best = match best {
                        Some(v) => Some(v.lesser(&x.margin)),
                        None => Some(x.margin),
                    };
                }
            },
            None => {},
        }
        i += 1;
    }
    best
}

/// The last place of a layer among the copper layers.
pub open spec fn layer_place(layers: Seq<Seq<char>>, layer: Seq<char>) -> Option<int>
    decreases layers.len(),
{
    if layers.len() == 0 {
        None
    } else if layers.last() == layer {
        Some(layers.len() - 1)
    } else {
        layer_place(layers.drop_last(), layer)
    }
}

/// The last place of a layer among the copper layers.
pub fn find_layer_place(layers: &Vec<String>, layer: &str) -> (r: Option<usize>)
    ensures
        match r {
            Some(k) => layer_place(layers.deep_view(), layer@) == Some(k as int) && k
                < layers@.len(),
            None => layer_place(layers.deep_view(), layer@) is None,
        },
{
    let ghost lv = layers.deep_view();
    let mut i: usize = layers.len();
    assert(lv.take(i as int) =~= lv);
    while i > 0
        invariant
            i <= layers@.len(),
            lv == layers.deep_view(),
            layer_place(lv, layer@) == layer_place(lv.take(i as int), layer@),
        decreases i,
    {
        assert(lv.take(i as int).drop_last() =~= lv.take(i - 1));
        assert(lv.take(i as int).last() == layers@[i - 1]@);
        if same(layers[i - 1].as_str(), layer) {
            return Some(i - 1);
        }
        i -= 1;
    }
    None
}

/// Two layers are neighbours in the stack.
pub open spec fn stacked(layers: Seq<Seq<char>>, a: Seq<char>, c: Seq<char>) -> bool {
    match (layer_place(layers, a), layer_place(layers, c)) {
        (Some(i), Some(j)) => i == j + 1 || j == i + 1,
        _ => false,
    }
}

/// Track `i` can disturb track `j` broadside: the one's net is an aggressor, the other's a victim,
/// the nets differ, and their layers are neighbours and no reference planes.
pub open spec fn disturbs(b: BoardModelV, classes: Classes, planes: Seq<Seq<char>>, i: int, j: int) -> bool {
    b.tracks[j].net != b.tracks[i].net && net_is(
        b,
        classes,
        b.tracks[i].net,
        Trait::Aggressor,
    ) && net_is(b, classes, b.tracks[j].net, Trait::Victim) && stacked(
        b.copper_layers,
        b.tracks[i].layer,
        b.tracks[j].layer,
    ) && !planes.contains(b.tracks[i].layer) && !planes.contains(b.tracks[j].layer)
}

/// Aggressor track `i` couples broadside with victim track `j`. Of two tracks that can disturb each
/// other, the one of the lower net counts as the aggressor.
pub open spec fn broadside(b: BoardModelV, classes: Classes, planes: Seq<Seq<char>>, i: int, j: int) -> bool {
    disturbs(b, classes, planes, i, j) && (b.tracks[i].net < b.tracks[j].net || !disturbs(
        b,
        classes,
        planes,
        j,
        i,
    ))
}

/// The tracks among the first `n` that couple broadside with aggressor track `i`.
pub open spec fn broadside_of(
    b: BoardModelV,
    classes: Classes,
    planes: Seq<Seq<char>>,
    i: int,
    n: int,
) -> Seq<(int, int)>
    decreases n,
{
    if n <= 0 {
        Seq::empty()
    } else {
        let front = broadside_of(b, classes, planes, i, n - 1);
        if broadside(b, classes, planes, i, n - 1) {
            front.push((i, n - 1))
        } else {
            front
        }
    }
}

/// The pairs of tracks that couple broadside, for the first `n` aggressor tracks.
pub open spec fn broadside_pairs(
    b: BoardModelV,
    classes: Classes,
    planes: Seq<Seq<char>>,
    n: int,
) -> Seq<(int, int)>
    decreases n,
{
    if n <= 0 {
        Seq::empty()
    } else {
        broadside_pairs(b, classes, planes, n - 1) + broadside_of(
            b,
            classes,
            planes,
            n - 1,
            b.tracks.len() as int,
        )
    }
}

fn check_stacked(layers: &Vec<String>, a: &str, c: &str) -> (r: bool)
    ensures
        r == stacked(layers.deep_view(), a@, c@),
{
    match (find_layer_place(layers, a), find_layer_place(layers, c)) {
        (Some(i), Some(j)) => (i > j && i - j == 1) || (j > i && j - i == 1),
        _ => false,
    }
}

fn check_broadside(
    board: &BoardModel,
    classes: &Vec<(String, NetInfo)>,
    planes: &Vec<String>,
    i: usize,
    j: usize,
) -> (r: bool)
    requires
        i < board.tracks@.len(),
        j < board.tracks@.len(),
    ensures
        r == broadside(
            board.deep_view(),
            classes.deep_view(),
            planes.deep_view(),
            i as int,
            j as int,
        ),
{
    let ghost bv = board.deep_view();
    assert(bv.tracks[i as int] == board.tracks@[i as int].deep_view());
    assert(bv.tracks[j as int] == board.tracks@[j as int].deep_view());
    let strong: i64 = board.tracks[i].net;
    let weak: i64 = board.tracks[j].net;
    let layer = board.tracks[i].layer.as_str();
    let other = board.tracks[j].layer.as_str();
    strong != weak && check_net(board, classes, strong, Trait::Aggressor) && check_net(
        board,
        classes,
        weak,
        Trait::Victim,
    ) && check_stacked(&board.copper_layers, layer, other) && !holds(planes, layer) && !holds(
        planes,
        other,
    ) && (strong < weak || !check_net(board, classes, weak, Trait::Aggressor) || !check_net(
        board,
        classes,
        strong,
        Trait::Victim,
    ))
}

/// The pairs of tracks that couple broadside.
pub fn find_broadside_pairs(
    board: &BoardModel,
    classes: &Vec<(String, NetInfo)>,
    planes: &Vec<String>,
) -> (r: Vec<(usize, usize)>)
    ensures
        pairs_as_ints(r@) == broadside_pairs(
            board.deep_view(),
            classes.deep_view(),
            planes.deep_view(),
            board.deep_view().tracks.len() as int,
        ),
{
    let ghost bv = board.deep_view();
    let ghost cv = classes.deep_view();
    let ghost pv = planes.deep_view();
    let n: usize = board.tracks.len();
    assert(bv.tracks.len() == n);
    let mut out: Vec<(usize, usize)> = Vec::new();
    let mut i: usize = 0;
    assert(pairs_as_ints(out@) =~= broadside_pairs(bv, cv, pv, 0));
    while i < n
        invariant
            n == board.tracks@.len(),
            bv.tracks.len() == n,
            i <= n,
            bv == board.deep_view(),
            cv == classes.deep_view(),
            pv == planes.deep_view(),
            pairs_as_ints(out@) == broadside_pairs(bv, cv, pv, i as int),
        decreases n - i,
    {
        let ghost base = pairs_as_ints(out@);
        let mut j: usize = 0;
        assert(base + broadside_of(bv, cv, pv, i as int, 0) =~= base);
        while j < n
            invariant
                i < n,
                n == board.tracks@.len(),
                j <= n,
                bv == board.deep_view(),
                cv == classes.deep_view(),
                pv == planes.deep_view(),
                pairs_as_ints(out@) == base + broadside_of(bv, cv, pv, i as int, j as int),
            decreases n - j,
        {
            let ghost before = pairs_as_ints(out@);
            if check_broadside(board, classes, planes, i, j) {
                out.push((i, j));
                assert(pairs_as_ints(out@) =~= before.push((i as int, j as int)));
                assert(pairs_as_ints(out@) =~= base + broadside_of(bv, cv, pv, i as int, j + 1));
            }
            j += 1;
        }
        i += 1;
    }
    out
}

proof fn broadside_of_holds(
    b: BoardModelV,
    classes: Classes,
    planes: Seq<Seq<char>>,
    i: int,
    n: int,
    pair: (int, int),
)
    ensures
        broadside_of(b, classes, planes, i, n).contains(pair) <==> pair.0 == i && 0 <= pair.1 < n
            && broadside(b, classes, planes, i, pair.1),
    decreases n,
{
    if n > 0 {
        broadside_of_holds(b, classes, planes, i, n - 1, pair);
        let front = broadside_of(b, classes, planes, i, n - 1);
        if broadside(b, classes, planes, i, n - 1) {
            push_contains(front, (i, n - 1), pair);
        }
    }
}

proof fn push_contains(front: Seq<(int, int)>, last: (int, int), x: (int, int))
    ensures
        front.push(last).contains(x) <==> front.contains(x) || last == x,
{
    if front.contains(x) {
        let k = choose|k: int| 0 <= k < front.len() && front[k] == x;
        assert(front.push(last)[k] == x);
    }
    assert(front.push(last)[front.len() as int] == last);
}

proof fn add_contains(a: Seq<(int, int)>, c: Seq<(int, int)>, x: (int, int))
    ensures
        (a + c).contains(x) <==> a.contains(x) || c.contains(x),
{
    if a.contains(x) {
        let k = choose|k: int| 0 <= k < a.len() && a[k] == x;
        assert((a + c)[k] == x);
    }
    if c.contains(x) {
        let k = choose|k: int| 0 <= k < c.len() && c[k] == x;
        assert((a + c)[a.len() + k] == x);
    }
}

/// The listed pairs are exactly the pairs of tracks that couple broadside, whichever of the two
/// the board lists first.
pub proof fn broadside_pairs_are_exact(
    b: BoardModelV,
    classes: Classes,
    planes: Seq<Seq<char>>,
    n: int,
    pair: (int, int),
)
    ensures
        broadside_pairs(b, classes, planes, n).contains(pair) <==> 0 <= pair.0 < n && 0 <= pair.1
            < b.tracks.len() && broadside(b, classes, planes, pair.0, pair.1),
    decreases n,
{
    if n > 0 {
        let m = b.tracks.len() as int;
        broadside_pairs_are_exact(b, classes, planes, n - 1, pair);
        broadside_of_holds(b, classes, planes, n - 1, m, pair);
        add_contains(
            broadside_pairs(b, classes, planes, n - 1),
            broadside_of(b, classes, planes, n - 1, m),
            pair,
        );
    }
}

proof fn stacked_both_ways(layers: Seq<Seq<char>>, a: Seq<char>, c: Seq<char>)
    ensures
        stacked(layers, a, c) == stacked(layers, c, a),
{
}

/// Where an aggressor track can disturb a victim track, exactly one of the two orders of the pair
/// is listed.
pub proof fn every_broadside_pair_counts_once(
    b: BoardModelV,
    classes: Classes,
    planes: Seq<Seq<char>>,
    i: int,
    j: int,
)
    requires
        0 <= i < b.tracks.len(),
        0 <= j < b.tracks.len(),
    ensures
        ({
            let pairs = broadside_pairs(b, classes, planes, b.tracks.len() as int);
            &&& pairs.contains((i, j)) || pairs.contains((j, i)) <==> disturbs(
                b,
                classes,
                planes,
                i,
                j,
            ) || disturbs(b, classes, planes, j, i)
            &&& !(pairs.contains((i, j)) && pairs.contains((j, i)))
            &&& pairs.no_duplicates()
        }),
{
    let n = b.tracks.len() as int;
    broadside_pairs_are_exact(b, classes, planes, n, (i, j));
    broadside_pairs_are_exact(b, classes, planes, n, (j, i));
    stacked_both_ways(b.copper_layers, b.tracks[i].layer, b.tracks[j].layer);
    broadside_pairs_differ(b, classes, planes, n);
}

proof fn broadside_of_differ(
    b: BoardModelV,
    classes: Classes,
    planes: Seq<Seq<char>>,
    i: int,
    n: int,
)
    ensures
        broadside_of(b, classes, planes, i, n).no_duplicates(),
    decreases n,
{
    if n > 0 {
        broadside_of_differ(b, classes, planes, i, n - 1);
        broadside_of_holds(b, classes, planes, i, n - 1, (i, n - 1));
    }
}

proof fn broadside_pairs_differ(b: BoardModelV, classes: Classes, planes: Seq<Seq<char>>, n: int)
    ensures
        broadside_pairs(b, classes, planes, n).no_duplicates(),
    decreases n,
{
    if n > 0 {
        let front = broadside_pairs(b, classes, planes, n - 1);
        let m = b.tracks.len() as int;
        let rest = broadside_of(b, classes, planes, n - 1, m);
        broadside_pairs_differ(b, classes, planes, n - 1);
        broadside_of_differ(b, classes, planes, n - 1, m);
        assert forall|x: int, y: int| 0 <= x < front.len() && 0 <= y < rest.len() implies front[x]
            != rest[y] by {
            broadside_pairs_are_exact(b, classes, planes, n - 1, front[x]);
            broadside_of_holds(b, classes, planes, n - 1, m, rest[y]);
            assert(front.contains(front[x]));
            assert(rest.contains(rest[y]));
        }
    }
}

/// The order in which a board lists its tracks does not matter: where track `i` of one board is
/// track `to[i]` of another and the boards are otherwise the same, the same pairs are listed.
pub proof fn broadside_pairs_ignore_order(
    a: BoardModelV,
    b: BoardModelV,
    classes: Classes,
    planes: Seq<Seq<char>>,
    to: Seq<int>,
    i: int,
    j: int,
)
    requires
        b == (BoardModelV { tracks: b.tracks, ..a }),
        to.len() == a.tracks.len(),
        forall|k: int|
            0 <= k < to.len() ==> 0 <= #[trigger] to[k] < b.tracks.len() && b.tracks[to[k]]
                == a.tracks[k],
        0 <= i < a.tracks.len(),
        0 <= j < a.tracks.len(),
    ensures
        broadside_pairs(a, classes, planes, a.tracks.len() as int).contains((i, j))
            <==> broadside_pairs(b, classes, planes, b.tracks.len() as int).contains(
            (to[i], to[j]),
        ),
{
    broadside_pairs_are_exact(a, classes, planes, a.tracks.len() as int, (i, j));
    broadside_pairs_are_exact(b, classes, planes, b.tracks.len() as int, (to[i], to[j]));
    assert(b.tracks[to[i]] == a.tracks[i]);
    assert(b.tracks[to[j]] == a.tracks[j]);
}

proof fn later_pairs_hold(b: BoardModelV, i: int, near: Seq<int>, pair: (int, int))
    ensures
        later_pairs(b, i, near).contains(pair) <==> pair.0 == i && near.contains(pair.1) && pair.1
            > i && b.tracks[pair.1].net != b.tracks[i].net,
    decreases near.len(),
{
    if near.len() > 0 {
        let front = near.drop_last();
        later_pairs_hold(b, i, front, pair);
        let f = later_pairs(b, i, front);
        let last = near.last();
        if last > i && b.tracks[last].net != b.tracks[i].net {
            push_contains(f, (i, last), pair);
        }
        if near.contains(pair.1) {
            let k = choose|k: int| 0 <= k < near.len() && near[k] == pair.1;
            if k < front.len() {
                assert(front[k] == pair.1);
            }
        }
        if front.contains(pair.1) {
            let k = choose|k: int| 0 <= k < front.len() && front[k] == pair.1;
            assert(near[k] == pair.1);
        }
        assert(near[near.len() - 1] == last);
    }
}

/// The listed pairs are exactly the tracks with later neighbours on different nets.
pub proof fn adjacent_pairs_are_exact(
    b: BoardModelV,
    cells: Seq<CellRange>,
    around: Seq<CellRange>,
    n: int,
    pair: (int, int),
)
    ensures
        adjacent_pairs(b, cells, around, n).contains(pair) <==> 0 <= pair.0 < n && pair.0 < pair.1
            < cells.len() && beside(b, cells, around, pair.0, pair.1) && b.tracks[pair.1].net
            != b.tracks[pair.0].net,
    decreases n,
{
    if n > 0 {
        adjacent_pairs_are_exact(b, cells, around, n - 1, pair);
        let near = near_track(b, cells, around, n - 1);
        near_is_exact(b, cells, around, n - 1);
        later_pairs_hold(b, n - 1, near, pair);
        add_contains(
            adjacent_pairs(b, cells, around, n - 1),
            later_pairs(b, n - 1, near),
            pair,
        );
    }
}

} // verus!
