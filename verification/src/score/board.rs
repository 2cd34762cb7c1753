//! The model of a board: its copper, its footprints, its outline and its layers.
use vstd::prelude::*;

use crate::number::Real;
use crate::sorted_map::{entry, map_find};
use crate::text::{holds, is_empty_text};

verus! {

/// A point of the board, in millimetres.
#[derive(Clone, Copy, Debug, PartialEq, Eq, Structural)]
pub struct Point {
    pub x: Real,
    pub y: Real,
}

impl DeepView for Point {
    type V = Point;

    open spec fn deep_view(&self) -> Point {
        *self
    }
}

/// A straight piece of copper.
pub struct Track {
    pub start: Point,
    pub end: Point,
    pub width: Real,
    pub layer: String,
    pub net: i64,
}

/// The value of a `Track`.
#[verifier::ext_equal]
pub struct TrackV {
    pub start: Point,
    pub end: Point,
    pub width: Real,
    pub layer: Seq<char>,
    pub net: i64,
}

impl DeepView for Track {
    type V = TrackV;

    open spec fn deep_view(&self) -> TrackV {
        TrackV {
            start: self.start,
            end: self.end,
            width: self.width,
            layer: self.layer@,
            net: self.net,
        }
    }
}

/// A piece of copper along an arc.
pub struct ArcTrack {
    pub start: Point,
    pub mid: Point,
    pub end: Point,
    pub width: Real,
    pub layer: String,
    pub net: i64,
}

/// The value of a `ArcTrack`.
#[verifier::ext_equal]
pub struct ArcTrackV {
    pub start: Point,
    pub mid: Point,
    pub end: Point,
    pub width: Real,
    pub layer: Seq<char>,
    pub net: i64,
}

impl DeepView for ArcTrack {
    type V = ArcTrackV;

    open spec fn deep_view(&self) -> ArcTrackV {
        ArcTrackV {
            start: self.start,
            mid: self.mid,
            end: self.end,
            width: self.width,
            layer: self.layer@,
            net: self.net,
        }
    }
}

/// A via.
pub struct Via {
    pub at: Point,
    pub size: Real,
    pub drill: Real,
    /// The first and the last copper layer, and possibly layers in between.
    pub layers: Vec<String>,
    pub net: i64,
    /// "via", "blind" or "micro".
    pub kind: String,
}

/// The value of a `Via`.
#[verifier::ext_equal]
pub struct ViaV {
    pub at: Point,
    pub size: Real,
    pub drill: Real,
    pub layers: Seq<Seq<char>>,
    pub net: i64,
    pub kind: Seq<char>,
}

impl DeepView for Via {
    type V = ViaV;

    open spec fn deep_view(&self) -> ViaV {
        ViaV {
            at: self.at,
            size: self.size,
            drill: self.drill,
            layers: self.layers.deep_view(),
            net: self.net,
            kind: self.kind@,
        }
    }
}

/// A filled area of a zone.
pub struct ZonePolygon {
    pub layer: String,
    pub points: Vec<Point>,
}

/// The value of a `ZonePolygon`.
#[verifier::ext_equal]
pub struct ZonePolygonV {
    pub layer: Seq<char>,
    pub points: Seq<Point>,
}

impl DeepView for ZonePolygon {
    type V = ZonePolygonV;

    open spec fn deep_view(&self) -> ZonePolygonV {
        ZonePolygonV {
            layer: self.layer@,
            points: self.points.deep_view(),
        }
    }
}

/// A zone.
pub struct Zone {
    pub net: i64,
    pub net_name: String,
    pub layers: Vec<String>,
    pub filled_polygons: Vec<ZonePolygon>,
}

/// The value of a `Zone`.
#[verifier::ext_equal]
pub struct ZoneV {
    pub net: i64,
    pub net_name: Seq<char>,
    pub layers: Seq<Seq<char>>,
    pub filled_polygons: Seq<ZonePolygonV>,
}

impl DeepView for Zone {
    type V = ZoneV;

    open spec fn deep_view(&self) -> ZoneV {
        ZoneV {
            net: self.net,
            net_name: self.net_name@,
            layers: self.layers.deep_view(),
            filled_polygons: self.filled_polygons.deep_view(),
        }
    }
}

/// A pad of a footprint.
pub struct Pad {
    pub number: String,
    /// "smd", "thru_hole", "np_thru_hole" or "connect".
    pub kind: String,
    /// The center, from the origin of the footprint.
    pub local: Point,
    pub size: (Real, Real),
    pub drill: Option<Real>,
    pub layers: Vec<String>,
    pub net: Option<i64>,
    pub net_name: Option<String>,
}

/// The value of a `Pad`.
#[verifier::ext_equal]
pub struct PadV {
    pub number: Seq<char>,
    pub kind: Seq<char>,
    pub local: Point,
    pub size: (Real, Real),
    pub drill: Option<Real>,
    pub layers: Seq<Seq<char>>,
    pub net: Option<i64>,
    pub net_name: Option<Seq<char>>,
}

impl DeepView for Pad {
    type V = PadV;

    open spec fn deep_view(&self) -> PadV {
        PadV {
            number: self.number@,
            kind: self.kind@,
            local: self.local,
            size: self.size,
            drill: self.drill,
            layers: self.layers.deep_view(),
            net: self.net,
            net_name: self.net_name.deep_view(),
        }
    }
}

/// A placed footprint.
pub struct Footprint {
    pub reference: String,
    pub footprint_id: String,
    pub layer: String,
    pub at: Point,
    pub rotation_deg: Real,
    pub pads: Vec<Pad>,
    /// The pieces of the courtyard, where there is one, around the place of the footprint.
    pub courtyard: Vec<OutlinePiece>,
}

/// The value of a `Footprint`.
#[verifier::ext_equal]
pub struct FootprintV {
    pub reference: Seq<char>,
    pub footprint_id: Seq<char>,
    pub layer: Seq<char>,
    pub at: Point,
    pub rotation_deg: Real,
    pub pads: Seq<PadV>,
    pub courtyard: Seq<OutlinePiece>,
}

impl DeepView for Footprint {
    type V = FootprintV;

    open spec fn deep_view(&self) -> FootprintV {
        FootprintV {
            reference: self.reference@,
            footprint_id: self.footprint_id@,
            layer: self.layer@,
            at: self.at,
            rotation_deg: self.rotation_deg,
            pads: self.pads.deep_view(),
            courtyard: self.courtyard.deep_view(),
        }
    }
}

/// A piece of an outline.
#[derive(Clone, Copy, Debug, PartialEq, Eq, Structural)]
pub enum OutlinePiece {
    /// A straight piece between two points.
    Segment(Point, Point),
    /// A circle: its center and a point on its rim.
    Circle(Point, Point),
}

impl DeepView for OutlinePiece {
    type V = OutlinePiece;

    open spec fn deep_view(&self) -> OutlinePiece {
        *self
    }
}

/// A layer of the stackup.
pub struct StackupLayer {
    pub name: String,
    /// "copper", "core", "prepreg" or another type.
    pub kind: String,
    pub thickness_mm: Option<Real>,
    pub epsilon_r: Option<Real>,
}

/// The value of a `StackupLayer`.
#[verifier::ext_equal]
pub struct StackupLayerV {
    pub name: Seq<char>,
    pub kind: Seq<char>,
    pub thickness_mm: Option<Real>,
    pub epsilon_r: Option<Real>,
}

impl DeepView for StackupLayer {
    type V = StackupLayerV;

    open spec fn deep_view(&self) -> StackupLayerV {
        StackupLayerV {
            name: self.name@,
            kind: self.kind@,
            thickness_mm: self.thickness_mm,
            epsilon_r: self.epsilon_r,
        }
    }
}

/// A board.
pub struct BoardModel {
    /// Copper layers, front to back.
    pub copper_layers: Vec<String>,
    /// Net names by number.
    pub nets: Vec<(i64, String)>,
    pub tracks: Vec<Track>,
    pub arcs: Vec<ArcTrack>,
    pub vias: Vec<Via>,
    pub zones: Vec<Zone>,
    pub footprints: Vec<Footprint>,
    pub outline: Vec<OutlinePiece>,
    pub stackup: Vec<StackupLayer>,
}

/// The value of a `BoardModel`.
#[verifier::ext_equal]
pub struct BoardModelV {
    pub copper_layers: Seq<Seq<char>>,
    pub nets: Seq<(i64, Seq<char>)>,
    pub tracks: Seq<TrackV>,
    pub arcs: Seq<ArcTrackV>,
    pub vias: Seq<ViaV>,
    pub zones: Seq<ZoneV>,
    pub footprints: Seq<FootprintV>,
    pub outline: Seq<OutlinePiece>,
    pub stackup: Seq<StackupLayerV>,
}

impl DeepView for BoardModel {
    type V = BoardModelV;

    open spec fn deep_view(&self) -> BoardModelV {
        BoardModelV {
            copper_layers: self.copper_layers.deep_view(),
            nets: self.nets.deep_view(),
            tracks: self.tracks.deep_view(),
            arcs: self.arcs.deep_view(),
            vias: self.vias.deep_view(),
            zones: self.zones.deep_view(),
            footprints: self.footprints.deep_view(),
            outline: self.outline.deep_view(),
            stackup: self.stackup.deep_view(),
        }
    }
}

/// The name of a net; empty if it has none.
pub open spec fn name_of_net(nets: Seq<(i64, Seq<char>)>, net: i64) -> Seq<char> {
    match map_find(nets, net) {
        Some(name) => name,
        None => Seq::empty(),
    }
}

/// The pad has copper on the layer.
pub open spec fn pad_on(layers: Seq<Seq<char>>, copper: Seq<Seq<char>>, layer: Seq<char>) -> bool {
    layers.contains(layer) || (layers.contains("*.Cu"@) && copper.contains(layer))
}

impl Pad {
    /// Whether the pad has copper on the layer: it lists the layer, or all copper layers and the
    /// layer is one.
    pub fn on_copper(&self, copper_layers: &Vec<String>, layer: &str) -> (r: bool)
        ensures
            r == pad_on(self.deep_view().layers, copper_layers.deep_view(), layer@),
    {
        let listed: bool = holds(&self.layers, layer);
        let all: bool = holds(&self.layers, "*.Cu");
        listed || (all && holds(copper_layers, layer))
    }
}

/// The net has copper or a pad: a track, an arc, a via, a filled zone or a pad is on it.
pub open spec fn net_in_use(b: BoardModelV, net: i64) -> bool {
    ||| exists|i: int| 0 <= i < b.tracks.len() && (#[trigger] b.tracks[i]).net == net
    ||| exists|i: int| 0 <= i < b.arcs.len() && (#[trigger] b.arcs[i]).net == net
    ||| exists|i: int| 0 <= i < b.vias.len() && (#[trigger] b.vias[i]).net == net
    ||| exists|i: int|
        0 <= i < b.zones.len() && (#[trigger] b.zones[i]).net == net
            && b.zones[i].filled_polygons.len() > 0
    ||| exists|i: int| 0 <= i < b.footprints.len() && pads_hold(
        (#[trigger] b.footprints[i]).pads,
        net,
    )
}

/// Some pad is on the net.
pub open spec fn pads_hold(pads: Seq<PadV>, net: i64) -> bool {
    exists|i: int| 0 <= i < pads.len() && (#[trigger] pads[i]).net == Some(net)
}

/// A named net with copper or a pad.
pub open spec fn is_used(b: BoardModelV, net: i64, name: Seq<char>) -> bool {
    net != 0 && name.len() > 0 && net_in_use(b, net)
}

/// The used nets among the first `n`.
pub open spec fn used_of(b: BoardModelV, n: int) -> Seq<i64>
    decreases n,
{
    if n <= 0 {
        Seq::empty()
    } else if is_used(b, b.nets[n - 1].0, b.nets[n - 1].1) {
        used_of(b, n - 1).push(b.nets[n - 1].0)
    } else {
        used_of(b, n - 1)
    }
}

/// The nets that have copper or a pad, in order.
pub open spec fn used_nets(b: BoardModelV) -> Seq<i64> {
    used_of(b, b.nets.len() as int)
}

fn some_pad(pads: &Vec<Pad>, net: i64) -> (r: bool)
    ensures
        r == pads_hold(pads.deep_view(), net),
{
    let ghost pv = pads.deep_view();
    let n: usize = pads.len();
    let mut i: usize = 0;
    while i < n
        invariant
            n == pads@.len(),
            i <= n,
            pv == pads.deep_view(),
            forall|j: int| 0 <= j < i ==> (#[trigger] pv[j]).net != Some(net),
        decreases n - i,
    {
        assert(pv[i as int] == pads@[i as int].deep_view());
        let on: bool = match pads[i].net {
            Some(id) => id == net,
            None => false,
        };
        if on {
            assert(pv[i as int].net == Some(net));
            return true;
        }
        i += 1;
    }
    false
}

impl BoardModel {
    /// The name of a net; empty if it has none.
    pub fn net_name(&self, net: i64) -> (r: String)
        ensures
            r@ == name_of_net(self.deep_view().nets, net),
    {
        match entry(&self.nets, &net) {
            Some(name) => name.clone(),
            None => {
                let s = String::new();
                assert(s@ =~= Seq::empty());
                s
            },
        }
    }

    fn has_track(&self, net: i64) -> (r: bool)
        ensures
            r == exists|i: int|
                0 <= i < self.deep_view().tracks.len() && (#[trigger] self.deep_view().tracks[i]).net
                    == net,
    {
        let ghost v = self.deep_view().tracks;
        let n: usize = self.tracks.len();
        let mut i: usize = 0;
        while i < n
            invariant
                n == self.tracks@.len(),
                i <= n,
                v == self.deep_view().tracks,
                forall|j: int| 0 <= j < i ==> (#[trigger] v[j]).net != net,
            decreases n - i,
        {
            assert(v[i as int] == self.tracks@[i as int].deep_view());
            if self.tracks[i].net == net {
                return true;
            }
            i += 1;
        }
        false
    }

    fn has_arc(&self, net: i64) -> (r: bool)
        ensures
            r == exists|i: int|
                0 <= i < self.deep_view().arcs.len() && (#[trigger] self.deep_view().arcs[i]).net
                    == net,
    {
        let ghost v = self.deep_view().arcs;
        let n: usize = self.arcs.len();
        let mut i: usize = 0;
        while i < n
            invariant
                n == self.arcs@.len(),
                i <= n,
                v == self.deep_view().arcs,
                forall|j: int| 0 <= j < i ==> (#[trigger] v[j]).net != net,
            decreases n - i,
        {
            assert(v[i as int] == self.arcs@[i as int].deep_view());
            if self.arcs[i].net == net {
                return true;
            }
            i += 1;
        }
        false
    }

    fn has_via(&self, net: i64) -> (r: bool)
        ensures
            r == exists|i: int|
                0 <= i < self.deep_view().vias.len() && (#[trigger] self.deep_view().vias[i]).net
                    == net,
    {
        let ghost v = self.deep_view().vias;
        let n: usize = self.vias.len();
        let mut i: usize = 0;
        while i < n
            invariant
                n == self.vias@.len(),
                i <= n,
                v == self.deep_view().vias,
                forall|j: int| 0 <= j < i ==> (#[trigger] v[j]).net != net,
            decreases n - i,
        {
            assert(v[i as int] == self.vias@[i as int].deep_view());
            if self.vias[i].net == net {
                return true;
            }
            i += 1;
        }
        false
    }

    fn has_zone(&self, net: i64) -> (r: bool)
        ensures
            r == exists|i: int|
                0 <= i < self.deep_view().zones.len() && (#[trigger] self.deep_view().zones[i]).net
                    == net && self.deep_view().zones[i].filled_polygons.len() > 0,
    {
        let ghost v = self.deep_view().zones;
        let n: usize = self.zones.len();
        let mut i: usize = 0;
        while i < n
            invariant
                n == self.zones@.len(),
                i <= n,
                v == self.deep_view().zones,
                forall|j: int|
                    0 <= j < i ==> !((#[trigger] v[j]).net == net && v[j].filled_polygons.len()
                        > 0),
            decreases n - i,
        {
            assert(v[i as int] == self.zones@[i as int].deep_view());
            assert(v[i as int].filled_polygons.len()
                == self.zones@[i as int].filled_polygons@.len());
            if self.zones[i].net == net && self.zones[i].filled_polygons.len() > 0 {
                return true;
            }
            i += 1;
        }
        false
    }

    fn has_pad(&self, net: i64) -> (r: bool)
        ensures
            r == exists|i: int|
                0 <= i < self.deep_view().footprints.len() && pads_hold(
                    (#[trigger] self.deep_view().footprints[i]).pads,
                    net,
                ),
    {
        let ghost v = self.deep_view().footprints;
        let n: usize = self.footprints.len();
        let mut i: usize = 0;
        while i < n
            invariant
                n == self.footprints@.len(),
                i <= n,
                v == self.deep_view().footprints,
                forall|j: int| 0 <= j < i ==> !pads_hold((#[trigger] v[j]).pads, net),
            decreases n - i,
        {
            assert(v[i as int] == self.footprints@[i as int].deep_view());
            if some_pad(&self.footprints[i].pads, net) {
                return true;
            }
            i += 1;
        }
        false
    }

    /// The nets that have copper or a pad, in order; nameless nets and net 0 do not count.
    pub fn used_net_ids(&self) -> (r: Vec<i64>)
        ensures
            r@ == used_nets(self.deep_view()),
    {
        let ghost bv = self.deep_view();
        let n: usize = self.nets.len();
        let mut out: Vec<i64> = Vec::new();
        let mut i: usize = 0;
        assert(out@ =~= used_of(bv, 0));
        while i < n
            invariant
                n == self.nets@.len(),
                i <= n,
                bv == self.deep_view(),
                out@ == used_of(bv, i as int),
            decreases n - i,
        {
            assert(bv.nets[i as int] == (self.nets@[i as int].0, self.nets@[i as int].1@));
            let id: i64 = self.nets[i].0;
            if id != 0 && !is_empty_text(self.nets[i].1.as_str()) {
                if self.has_track(id) || self.has_arc(id) || self.has_via(id) || self.has_zone(id)
                    || self.has_pad(id) {
                    out.push(id);
                }
            }
            i += 1;
        }
        out
    }
}

proof fn used_from(b: BoardModelV, n: int)
    requires
        0 <= n <= b.nets.len(),
        forall|i: int, j: int|
            0 <= i < j < b.nets.len() ==> (#[trigger] b.nets[i]).0 < (#[trigger] b.nets[j]).0,
    ensures
        forall|i: int|
            0 <= i < used_of(b, n).len() ==> exists|k: int|
                0 <= k < n && (#[trigger] b.nets[k]).0 == #[trigger] used_of(b, n)[i],
        forall|i: int, j: int|
            0 <= i < j < used_of(b, n).len() ==> (#[trigger] used_of(b, n)[i]) < (
            #[trigger] used_of(b, n)[j]),
    decreases n,
{
    if n > 0 {
        used_from(b, n - 1);
        let front = used_of(b, n - 1);
        let all = used_of(b, n);
        assert forall|i: int| 0 <= i < all.len() implies exists|k: int|
            0 <= k < n && (#[trigger] b.nets[k]).0 == #[trigger] all[i] by {
            if i < front.len() {
                assert(all[i] == front[i]);
                let k = choose|k: int| 0 <= k < n - 1 && (#[trigger] b.nets[k]).0 == front[i];
                assert(b.nets[k].0 == all[i]);
            } else {
                assert(b.nets[n - 1].0 == all[i]);
            }
        }
        assert forall|i: int, j: int| 0 <= i < j < all.len() implies (#[trigger] all[i]) < (
        #[trigger] all[j]) by {
            assert(all[i] == front[i]);
            if j < front.len() {
                assert(all[j] == front[j]);
            } else {
                let k = choose|k: int| 0 <= k < n - 1 && (#[trigger] b.nets[k]).0 == front[i];
                assert(b.nets[k].0 < b.nets[n - 1].0);
            }
        }
    }
}

/// The used nets rise where the nets of the board do.
pub proof fn used_nets_rise(b: BoardModelV)
    requires
        forall|i: int, j: int|
            0 <= i < j < b.nets.len() ==> (#[trigger] b.nets[i]).0 < (#[trigger] b.nets[j]).0,
    ensures
        forall|i: int, j: int|
            0 <= i < j < used_nets(b).len() ==> (#[trigger] used_nets(b)[i]) < (
            #[trigger] used_nets(b)[j]),
{
    used_from(b, b.nets.len() as int);
}

} // verus!
