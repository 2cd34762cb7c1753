//! An index of track segments by grid cell, to find the neighbours of a segment.
use vstd::prelude::*;

use crate::order::as_ints;
use crate::score::board::{BoardModel, BoardModelV};
use crate::text::{holds, same};

verus! {

/// A rectangle of grid cells, ends included.
#[derive(Clone, Copy, Debug, PartialEq, Eq, Structural)]
pub struct CellRange {
    pub x0: i64,
    pub x1: i64,
    pub y0: i64,
    pub y1: i64,
}

/// The cell lies in the rectangle.
pub open spec fn covers(r: CellRange, x: int, y: int) -> bool {
    r.x0 <= x <= r.x1 && r.y0 <= y <= r.y1
}

/// The two rectangles share a cell.
pub open spec fn share_cell(a: CellRange, b: CellRange) -> bool {
    a.x0 <= a.x1 && b.x0 <= b.x1 && a.y0 <= a.y1 && b.y0 <= b.y1 && a.x0 <= b.x1 && b.x0 <= a.x1
        && a.y0 <= b.y1 && b.y0 <= a.y1
}

/// Two rectangles share a cell if and only if some cell lies in both.
pub proof fn shared_cells(a: CellRange, b: CellRange)
    ensures
        share_cell(a, b) <==> exists|x: int, y: int| covers(a, x, y) && #[trigger] covers(b, x, y),
{
    if share_cell(a, b) {
        let x = if a.x0 < b.x0 {
            b.x0 as int
        } else {
            a.x0 as int
        };
        let y = if a.y0 < b.y0 {
            b.y0 as int
        } else {
            a.y0 as int
        };
        assert(covers(a, x, y) && covers(b, x, y));
    }
}

/// Track segments with the grid cells that they cover.
pub struct SegmentIndex {
    /// The layer of each track; blank where the track is not on a copper layer.
    layers: Vec<Option<String>>,
    cells: Vec<CellRange>,
}

impl SegmentIndex {
    /// The layers of the tracks that are on copper layers.
    pub closed spec fn layers(&self) -> Seq<Option<Seq<char>>> {
        self.layers.deep_view()
    }

    /// The cells of the tracks.
    pub closed spec fn cells(&self) -> Seq<CellRange> {
        self.cells@
    }
}

/// The layer of each track, where it is a copper layer.
pub open spec fn indexed_layers(b: BoardModelV) -> Seq<Option<Seq<char>>> {
    Seq::new(
        b.tracks.len(),
        |i: int|
            if b.copper_layers.contains(b.tracks[i].layer) {
                Some(b.tracks[i].layer)
            } else {
                None
            },
    )
}

/// Track `j` is a neighbour: another one on the layer whose cells meet the given ones.
pub open spec fn is_neighbour(
    layers: Seq<Option<Seq<char>>>,
    cells: Seq<CellRange>,
    idx: int,
    layer: Seq<char>,
    around: CellRange,
    j: int,
) -> bool {
    j != idx && layers[j] == Some(layer) && share_cell(cells[j], around)
}

/// The neighbours among the first `n` tracks.
pub open spec fn neighbours_of(
    layers: Seq<Option<Seq<char>>>,
    cells: Seq<CellRange>,
    idx: int,
    layer: Seq<char>,
    around: CellRange,
    n: int,
) -> Seq<int>
    decreases n,
{
    if n <= 0 {
        Seq::empty()
    } else if is_neighbour(layers, cells, idx, layer, around, n - 1) {
        neighbours_of(layers, cells, idx, layer, around, n - 1).push(n - 1)
    } else {
        neighbours_of(layers, cells, idx, layer, around, n - 1)
    }
}

/// Exactly the neighbours are found, each once, in rising order.
pub proof fn neighbours_are_exact(
    layers: Seq<Option<Seq<char>>>,
    cells: Seq<CellRange>,
    idx: int,
    layer: Seq<char>,
    around: CellRange,
    n: int,
)
    ensures
        forall|j: int|
            #![trigger neighbours_of(layers, cells, idx, layer, around, n).contains(j)]
            neighbours_of(layers, cells, idx, layer, around, n).contains(j) <==> 0 <= j < n
                && is_neighbour(layers, cells, idx, layer, around, j),
        forall|a: int, b: int|
            0 <= a < b < neighbours_of(layers, cells, idx, layer, around, n).len()
                ==> neighbours_of(layers, cells, idx, layer, around, n)[a] < neighbours_of(
                layers,
                cells,
                idx,
                layer,
                around,
                n,
            )[b],
    decreases n,
{
    let q = neighbours_of(layers, cells, idx, layer, around, n);
    if n > 0 {
        neighbours_are_exact(layers, cells, idx, layer, around, n - 1);
        let p = neighbours_of(layers, cells, idx, layer, around, n - 1);
        assert forall|j: int| #![trigger q.contains(j)] q.contains(j) implies 0 <= j < n
            && is_neighbour(layers, cells, idx, layer, around, j) by {
            let k = choose|k: int| 0 <= k < q.len() && q[k] == j;
            if k < p.len() {
                assert(p[k] == j);
                assert(p.contains(j));
            }
        }
        assert forall|j: int| #![trigger q.contains(j)] 0 <= j < n && is_neighbour(
            layers,
            cells,
            idx,
            layer,
            around,
            j,
        ) implies q.contains(j) by {
            if j < n - 1 {
                assert(p.contains(j));
                let k = choose|k: int| 0 <= k < p.len() && p[k] == j;
                assert(q[k] == j);
            } else {
                assert(q[q.len() - 1] == j);
            }
        }
        assert forall|a: int, b: int| 0 <= a < b < q.len() implies q[a] < q[b] by {
            if b < p.len() {
                assert(p[a] < p[b]);
            } else {
                assert(p[a] == q[a]);
                assert(p.contains(p[a]));
            }
        }
    }
}

impl SegmentIndex {
    /// Indexes the tracks of a board by the grid cells that they cover.
    pub fn build(board: &BoardModel, cells: Vec<CellRange>) -> (r: SegmentIndex)
        requires
            cells@.len() == board.tracks@.len(),
        ensures
            r.layers() == indexed_layers(board.deep_view()),
            r.cells() == cells@,
    {
        let ghost bv = board.deep_view();
        let n: usize = board.tracks.len();
        let mut layers: Vec<Option<String>> = Vec::new();
        let mut i: usize = 0;
        while i < n
            invariant
                n == board.tracks@.len(),
                i <= n,
                bv == board.deep_view(),
                layers.deep_view() == indexed_layers(bv).take(i as int),
            decreases n - i,
        {
            let ghost before = layers.deep_view();
            assert(bv.tracks[i as int] == board.tracks@[i as int].deep_view());
            if holds(&board.copper_layers, board.tracks[i].layer.as_str()) {
                layers.push(Some(board.tracks[i].layer.clone()));
            } else {
                layers.push(None);
            }
            assert(layers.deep_view() =~= before.push(indexed_layers(bv)[i as int]));
            assert(layers.deep_view() =~= indexed_layers(bv).take(i + 1));
            i += 1;
        }
        assert(indexed_layers(bv).take(n as int) =~= indexed_layers(bv));
        SegmentIndex { layers, cells }
    }

    /// Whether track `j` is on the layer, another one than `idx`, and its cells meet the given ones.
    fn meets(&self, idx: usize, layer: &str, around: CellRange, j: usize) -> (r: bool)
        requires
            self.layers().len() == self.cells().len(),
            j < self.cells().len(),
        ensures
            r == is_neighbour(self.layers(), self.cells(), idx as int, layer@, around, j as int),
    {
        assert(self.layers()[j as int] == self.layers@[j as int].deep_view());
        let c = self.cells[j];
        let meets: bool = c.x0 <= c.x1 && around.x0 <= around.x1 && c.y0 <= c.y1 && around.y0
            <= around.y1 && c.x0 <= around.x1 && around.x0 <= c.x1 && c.y0 <= around.y1
            && around.y0 <= c.y1;
        let on: bool = match &self.layers[j] {
            Some(l) => same(l.as_str(), layer),
            None => false,
        };
        j != idx && on && meets
    }

    /// The tracks on the layer, other than `idx`, whose cells meet the given ones, in order.
    pub fn neighbours(&self, idx: usize, layer: &str, around: CellRange) -> (r: Vec<usize>)
        requires
            self.layers().len() == self.cells().len(),
        ensures
            as_ints(r@) == neighbours_of(
                self.layers(),
                self.cells(),
                idx as int,
                layer@,
                around,
                self.cells().len() as int,
            ),
    {
        let ghost lv = self.layers();
        let ghost cv = self.cells();
        let n: usize = self.cells.len();
        assert(lv.len() == self.layers@.len());
        let mut out: Vec<usize> = Vec::new();
        let mut i: usize = 0;
        assert(as_ints(out@) =~= neighbours_of(lv, cv, idx as int, layer@, around, 0));
        while i < n
            invariant
                n == self.cells@.len(),
                n == self.layers@.len(),
                i <= n,
                lv == self.layers(),
                cv == self.cells(),
                as_ints(out@) == neighbours_of(lv, cv, idx as int, layer@, around, i as int),
            decreases n - i,
        {
            let ghost before = as_ints(out@);
            if self.meets(idx, layer, around, i) {
                out.push(i);
                assert(as_ints(out@) =~= before.push(i as int));
            }
            i += 1;
        }
        out
    }
}

} // verus!
