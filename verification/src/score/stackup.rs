//! The stackup of a board: what it says of copper and dielectric layers, and which copper layers
//! are reference planes.
use vstd::prelude::*;

use crate::number::{below, no_number, Real};
use crate::order::{in_order, sorted};
use crate::score::board::{BoardModel, BoardModelV, StackupLayerV, ZonePolygonV, ZoneV};
use crate::score::classify::NetInfo;
use crate::score::metrics::context::{check_net, net_is, Classes, Trait};
use crate::steps::distinct;
use crate::text::{holds, same};

verus! {

/// The stackup names a copper layer, so that the layers have depths.
pub open spec fn has_depths(layers: Seq<StackupLayerV>) -> bool {
    exists|i: int| 0 <= i < layers.len() && (#[trigger] layers[i]).kind == "copper"@
}

/// The layer is a dielectric of known permittivity.
pub open spec fn is_dielectric(l: StackupLayerV) -> bool {
    l.kind != "copper"@ && l.epsilon_r is Some
}

/// The layers have depths and some dielectric a known permittivity.
pub open spec fn has_permittivity(layers: Seq<StackupLayerV>) -> bool {
    has_depths(layers) && exists|i: int| 0 <= i < layers.len() && is_dielectric(#[trigger] layers[i])
}

/// Whether the layers of the board have depths.
pub fn knows_depths(board: &BoardModel) -> (r: bool)
    ensures
        r == has_depths(board.deep_view().stackup),
{
    let ghost lv = board.deep_view().stackup;
    let n: usize = board.stackup.len();
    let mut i: usize = 0;
    while i < n
        invariant
            n == board.stackup@.len(),
            i <= n,
            lv == board.deep_view().stackup,
            forall|j: int| 0 <= j < i ==> (#[trigger] lv[j]).kind != "copper"@,
        decreases n - i,
    {
        assert(lv[i as int] == board.stackup@[i as int].deep_view());
        if same(board.stackup[i].kind.as_str(), "copper") {
            return true;
        }
        i += 1;
    }
    false
}

/// Whether the layers of the board have depths and some dielectric a known permittivity.
pub fn knows_permittivity(board: &BoardModel) -> (r: bool)
    ensures
        r == has_permittivity(board.deep_view().stackup),
{
    if !knows_depths(board) {
        return false;
    }
    let ghost lv = board.deep_view().stackup;
    let n: usize = board.stackup.len();
    let mut i: usize = 0;
    while i < n
        invariant
            n == board.stackup@.len(),
            i <= n,
            lv == board.deep_view().stackup,
            has_depths(lv),
            forall|j: int| 0 <= j < i ==> !is_dielectric(#[trigger] lv[j]),
        decreases n - i,
    {
        assert(lv[i as int] == board.stackup@[i as int].deep_view());
        if !same(board.stackup[i].kind.as_str(), "copper") && board.stackup[i].epsilon_r.is_some() {
            assert(is_dielectric(lv[i as int]));
            return true;
        }
        i += 1;
    }
    false
}

/// The layers of filled areas.
pub open spec fn fill_layers(polys: Seq<ZonePolygonV>) -> Seq<Seq<char>> {
    Seq::new(polys.len(), |i: int| polys[i].layer)
}

/// The layers of the filled areas of power and ground nets.
pub open spec fn reference_fills(
    b: BoardModelV,
    classes: Classes,
    zones: Seq<ZoneV>,
) -> Seq<Seq<char>>
    decreases zones.len(),
{
    if zones.len() == 0 {
        Seq::empty()
    } else {
        let front = reference_fills(b, classes, zones.drop_last());
        if net_is(b, classes, zones.last().net, Trait::Reference) {
            front + fill_layers(zones.last().filled_polygons)
        } else {
            front
        }
    }
}

/// The reference planes: layers with a filled area of a power or ground net. Without a netlist
/// there are none.
pub open spec fn planes_of(b: BoardModelV, classes: Option<Classes>) -> Seq<Seq<char>> {
    match classes {
        Some(c) => sorted::<String>(distinct(reference_fills(b, c, b.zones))),
        None => Seq::empty(),
    }
}

/// The reference planes of a board, each once, in order.
pub fn plane_layers(board: &BoardModel, net_classes: &Option<Vec<(String, NetInfo)>>) -> (r: Vec<
    String,
>)
    ensures
        r.deep_view() == planes_of(board.deep_view(), net_classes.deep_view()),
{
    match net_classes {
        Some(classes) => {
            let ghost bv = board.deep_view();
            let ghost cv = classes.deep_view();
            let ghost zv = bv.zones;
            let n: usize = board.zones.len();
            let mut out: Vec<String> = Vec::new();
            let mut i: usize = 0;
            assert(out.deep_view() =~= distinct(reference_fills(bv, cv, zv.take(0))));
            while i < n
                invariant
                    n == board.zones@.len(),
                    i <= n,
                    bv == board.deep_view(),
                    cv == classes.deep_view(),
                    zv == bv.zones,
                    out.deep_view() == distinct(reference_fills(bv, cv, zv.take(i as int))),
                decreases n - i,
            {
                assert(zv.take(i + 1).drop_last() =~= zv.take(i as int));
                assert(zv[i as int] == board.zones@[i as int].deep_view());
                let ghost base = reference_fills(bv, cv, zv.take(i as int));
                if check_net(board, classes, board.zones[i].net, Trait::Reference) {
                    let polys = &board.zones[i].filled_polygons;
                    let ghost fv = fill_layers(polys.deep_view());
                    let m: usize = polys.len();
                    let mut k: usize = 0;
                    assert(base + fv.take(0) =~= base);
                    while k < m
                        invariant
                            m == polys@.len(),
                            k <= m,
                            fv == fill_layers(polys.deep_view()),
                            out.deep_view() == distinct(base + fv.take(k as int)),
                        decreases m - k,
                    {
                        let ghost before = out.deep_view();
                        assert(polys.deep_view()[k as int] == polys@[k as int].deep_view());
                        let ghost more = base + fv.take(k + 1);
                        assert(more.drop_last() =~= base + fv.take(k as int));
                        assert(more.last() == polys@[k as int].layer@);
                        if !holds(&out, polys[k].layer.as_str()) {
                            out.push(polys[k].layer.clone());
                            assert(out.deep_view() =~= before.push(more.last()));
                        }
                        k += 1;
                    }
                    assert(fv.take(m as int) =~= fv);
                }
                i += 1;
            }
            assert(zv.take(n as int) =~= zv);
            in_order(&out)
        },
        None => {
            let none: Vec<String> = Vec::new();
            assert(none.deep_view() =~= Seq::empty());
            none
        },
    }
}

/// The first of the first `n` planes, other than the layer itself, with the smallest distance.
/// A plane without a distance does not count.
pub open spec fn nearest_of(
    layer: Seq<char>,
    planes: Seq<Seq<char>>,
    distances: Seq<Option<Real>>,
    n: int,
) -> Option<int>
    decreases n,
{
    if n <= 0 {
        None
    } else {
        let front = nearest_of(layer, planes, distances, n - 1);
        if planes[n - 1] == layer {
            front
        } else {
            match distances[n - 1] {
                Some(d) => match front {
                    Some(k) => if below(d, distances[k]->0) {
                        Some(n - 1)
                    } else {
                        front
                    },
                    None => Some(n - 1),
                },
                None => front,
            }
        }
    }
}

/// The nearest reference plane of a signal layer, by the dielectric distances to the planes.
pub fn nearest_plane(layer: &str, planes: &Vec<String>, distances: &Vec<Option<Real>>) -> (r:
    Option<usize>)
    requires
        planes@.len() == distances@.len(),
    ensures
        match r {
            Some(k) => nearest_of(
                layer@,
                planes.deep_view(),
                distances@,
                planes@.len() as int,
            ) == Some(k as int) && k < planes@.len() && distances@[k as int] is Some,
            None => nearest_of(
                layer@,
                planes.deep_view(),
                distances@,
                planes@.len() as int,
            ) is None,
        },
{
    let ghost pv = planes.deep_view();
    let n: usize = planes.len();
    let mut best: Option<usize> = None;
    let mut i: usize = 0;
    while i < n
        invariant
            n == planes@.len(),
            n == distances@.len(),
            i <= n,
            pv == planes.deep_view(),
            match best {
                Some(k) => nearest_of(layer@, pv, distances@, i as int) == Some(k as int) && k < i
                    && distances@[k as int] is Some,
                None => nearest_of(layer@, pv, distances@, i as int) is None,
            },
        decreases n - i,
    {
        assert(pv[i as int] == planes@[i as int]@);
        if !same(planes[i].as_str(), layer) {
            match distances[i] {
                Some(d) => {
                    let closer: bool = match best {
                        Some(k) => match distances[k] {
                            Some(b) => d.less(&b),
                            None => true,
                        },
                        None => true,
                    };
                    if closer {
                        best = Some(i);
                    }
                },
                None => {},
            }
        }
        i += 1;
    }
    best
}

/// No plane that counts is nearer than the nearest one, where all distances are numbers.
pub proof fn nearest_is_nearest(
    layer: Seq<char>,
    planes: Seq<Seq<char>>,
    distances: Seq<Option<Real>>,
    n: int,
    j: int,
)
    requires
        0 <= j < n <= planes.len(),
        planes.len() == distances.len(),
        planes[j] != layer,
        distances[j] is Some,
        forall|i: int|
            0 <= i < distances.len() && (#[trigger] distances[i]) is Some
                ==> !no_number(distances[i]->0),
    ensures
        nearest_of(layer, planes, distances, n) is Some,
        0 <= nearest_of(layer, planes, distances, n)->0 < n,
        distances[nearest_of(layer, planes, distances, n)->0] is Some,
        planes[nearest_of(layer, planes, distances, n)->0] != layer,
        !below(distances[j]->0, distances[nearest_of(layer, planes, distances, n)->0]->0),
    decreases n,
{
    nearest_is_valid(layer, planes, distances, n - 1);
    if j < n - 1 {
        nearest_is_nearest(layer, planes, distances, n - 1, j);
    }
}

proof fn nearest_is_valid(
    layer: Seq<char>,
    planes: Seq<Seq<char>>,
    distances: Seq<Option<Real>>,
    n: int,
)
    requires
        0 <= n <= planes.len(),
        planes.len() == distances.len(),
    ensures
        nearest_of(layer, planes, distances, n) matches Some(k) ==> 0 <= k < n && distances[k] is Some
            && planes[k] != layer,
    decreases n,
{
    if n > 0 {
        nearest_is_valid(layer, planes, distances, n - 1);
    }
}

} // verus!
