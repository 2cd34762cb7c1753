//! Selections of the power integrity metrics.
use vstd::prelude::*;

use crate::number::{below, zero, Real};
use crate::order::as_ints;
use crate::score::board::{
    name_of_net, BoardModel, BoardModelV, Footprint, FootprintV, Pad, PadV, ZonePolygonV,
};
use crate::score::classify::{NetInfo, NetInfoV};
use crate::score::metrics::context::{
    check_name, check_net, find_stats, name_is, net_is, role_is, stats_at, Classes, Trait,
};
use crate::score::net_stats::{NetStats, NetStatsV};
use crate::score::roles::Role;
use crate::select::{asks, find_places, places, Test};
use crate::sorted_map::{entry, map_find};
use crate::text::same;

verus! {

/// The current that a net is rated for: what it sinks, else what it sources.
pub open spec fn rating(i: NetInfoV) -> Option<Real> {
    match i.sink_total_amps {
        Some(a) => Some(a),
        None => i.source_total_amps,
    }
}

impl NetInfo {
    /// The current that the net is rated for: what it sinks, else what it sources.
    pub fn rated_current(&self) -> (r: Option<Real>)
        ensures
            r == rating(self.deep_view()),
    {
        match self.sink_total_amps {
            Some(a) => Some(a),
            None => self.source_total_amps,
        }
    }
}

/// A net has a rating if and only if it declares a current.
pub proof fn rated_nets_declare(i: NetInfoV)
    ensures
        rating(i) is Some <==> crate::score::metrics::context::has_trait(i, Trait::Current),
{
}

/// Some track is on the net.
pub open spec fn has_tracks(b: BoardModelV, net: i64) -> bool {
    exists|i: int| 0 <= i < b.tracks.len() && (#[trigger] b.tracks[i]).net == net
}

/// Whether some track is on the net.
pub fn check_tracks(board: &BoardModel, net: i64) -> (r: bool)
    ensures
        r == has_tracks(board.deep_view(), net),
{
    let ghost tv = board.deep_view().tracks;
    let n: usize = board.tracks.len();
    let mut i: usize = 0;
    while i < n
        invariant
            n == board.tracks@.len(),
            i <= n,
            tv == board.deep_view().tracks,
            forall|j: int| 0 <= j < i ==> (#[trigger] tv[j]).net != net,
        decreases n - i,
    {
        assert(tv[i as int] == board.tracks@[i as int].deep_view());
        if board.tracks[i].net == net {
            return true;
        }
        i += 1;
    }
    false
}

/// The net has a filled area.
pub open spec fn plane_fed(stats: Seq<NetStatsV>, net: i64) -> bool {
    match stats_at(stats, net) {
        Some(s) => s.has_zone,
        None => false,
    }
}

/// A net whose tracks carry its declared current: routed, and not fed by a plane.
pub open spec fn track_fed(b: BoardModelV, stats: Seq<NetStatsV>, classes: Classes, x: (i64, Seq<char>)) -> bool {
    name_is(classes, x.1, Trait::Current) && has_tracks(b, x.0) && !plane_fed(stats, x.0)
}

/// The nets whose tracks carry their declared current.
pub open spec fn track_fed_nets(b: BoardModelV, stats: Seq<NetStatsV>, classes: Classes) -> Seq<int> {
    places(b.nets, |x: (i64, Seq<char>)| track_fed(b, stats, classes, x))
}

struct TrackFed<'a> {
    board: &'a BoardModel,
    stats: &'a Vec<NetStats>,
    classes: &'a Vec<(String, NetInfo)>,
}

impl<'a> Test<(i64, String)> for TrackFed<'a> {
    closed spec fn passes(&self, x: (i64, Seq<char>)) -> bool {
        track_fed(self.board.deep_view(), self.stats.deep_view(), self.classes.deep_view(), x)
    }

    fn check(&self, x: &(i64, String)) -> (r: bool) {
        let plane: bool = match find_stats(self.stats, x.0) {
            Some(s) => s.has_zone,
            None => false,
        };
        check_name(self.classes, &x.1, Trait::Current) && check_tracks(self.board, x.0) && !plane
    }
}

/// The nets whose tracks carry their declared current.
pub fn find_track_fed(
    board: &BoardModel,
    stats: &Vec<NetStats>,
    classes: &Vec<(String, NetInfo)>,
) -> (r: Vec<usize>)
    ensures
        as_ints(r@) == track_fed_nets(
            board.deep_view(),
            stats.deep_view(),
            classes.deep_view(),
        ),
        forall|i: int| 0 <= i < r@.len() ==> (#[trigger] r@[i]) < board.nets@.len(),
{
    let test = TrackFed { board, stats, classes };
    let r = find_places(&board.nets, &test);
    assert(asks::<(i64, String), TrackFed>(test) =~= |x: (i64, Seq<char>)|
        track_fed(board.deep_view(), stats.deep_view(), classes.deep_view(), x));
    r
}

/// A net that declares what it sources and a positive current that it sinks.
pub open spec fn budgeted(classes: Classes, name: Seq<char>) -> bool {
    match map_find(classes, name) {
        Some(i) => match (i.sink_total_amps, i.source_total_amps) {
            (Some(sink), Some(_)) => below(zero(), sink),
            _ => false,
        },
        None => false,
    }
}

/// The nets with a budget.
pub open spec fn budgeted_nets(b: BoardModelV, classes: Classes) -> Seq<int> {
    places(b.nets, |x: (i64, Seq<char>)| budgeted(classes, x.1))
}

struct Budgeted<'a> {
    classes: &'a Vec<(String, NetInfo)>,
}

impl<'a> Test<(i64, String)> for Budgeted<'a> {
    closed spec fn passes(&self, x: (i64, Seq<char>)) -> bool {
        budgeted(self.classes.deep_view(), x.1)
    }

    fn check(&self, x: &(i64, String)) -> (r: bool) {
        match entry(self.classes, &x.1) {
            Some(i) => match (i.sink_total_amps, i.source_total_amps) {
                (Some(sink), Some(_)) => Real::zero().less(&sink),
                _ => false,
            },
            None => false,
        }
    }
}

/// The nets with a budget.
pub fn find_budgeted(board: &BoardModel, classes: &Vec<(String, NetInfo)>) -> (r: Vec<usize>)
    ensures
        as_ints(r@) == budgeted_nets(board.deep_view(), classes.deep_view()),
        forall|i: int| 0 <= i < r@.len() ==> (#[trigger] r@[i]) < board.nets@.len(),
{
    let test = Budgeted { classes };
    let r = find_places(&board.nets, &test);
    assert(asks::<(i64, String), Budgeted>(test) =~= |x: (i64, Seq<char>)|
        budgeted(classes.deep_view(), x.1));
    r
}

/// The power nets that are routed.
pub open spec fn routed_power(b: BoardModelV, classes: Classes) -> Seq<int> {
    places(
        b.nets,
        |x: (i64, Seq<char>)| name_is(classes, x.1, Trait::Power) && has_tracks(b, x.0),
    )
}

struct RoutedPower<'a> {
    board: &'a BoardModel,
    classes: &'a Vec<(String, NetInfo)>,
}

impl<'a> Test<(i64, String)> for RoutedPower<'a> {
    closed spec fn passes(&self, x: (i64, Seq<char>)) -> bool {
        name_is(self.classes.deep_view(), x.1, Trait::Power) && has_tracks(
            self.board.deep_view(),
            x.0,
        )
    }

    fn check(&self, x: &(i64, String)) -> (r: bool) {
        check_name(self.classes, &x.1, Trait::Power) && check_tracks(self.board, x.0)
    }
}

/// The power nets that are routed.
pub fn find_routed_power(board: &BoardModel, classes: &Vec<(String, NetInfo)>) -> (r: Vec<usize>)
    ensures
        as_ints(r@) == routed_power(board.deep_view(), classes.deep_view()),
        forall|i: int| 0 <= i < r@.len() ==> (#[trigger] r@[i]) < board.nets@.len(),
{
    let test = RoutedPower { board, classes };
    let r = find_places(&board.nets, &test);
    assert(asks::<(i64, String), RoutedPower>(test) =~= |x: (i64, Seq<char>)|
        name_is(classes.deep_view(), x.1, Trait::Power) && has_tracks(board.deep_view(), x.0));
    r
}

/// A power net that crosses layers or has a filled area.
pub open spec fn crosses_layers(stats: Seq<NetStatsV>, classes: Classes, x: (i64, Seq<char>)) -> bool {
    name_is(classes, x.1, Trait::Power) && match stats_at(stats, x.0) {
        Some(s) => s.layers_used.len() >= 2 || s.has_zone,
        None => false,
    }
}

/// The power nets that cross layers or have a filled area.
pub open spec fn crossing_power(b: BoardModelV, stats: Seq<NetStatsV>, classes: Classes) -> Seq<int> {
    places(b.nets, |x: (i64, Seq<char>)| crosses_layers(stats, classes, x))
}

struct CrossingPower<'a> {
    stats: &'a Vec<NetStats>,
    classes: &'a Vec<(String, NetInfo)>,
}

impl<'a> Test<(i64, String)> for CrossingPower<'a> {
    closed spec fn passes(&self, x: (i64, Seq<char>)) -> bool {
        crosses_layers(self.stats.deep_view(), self.classes.deep_view(), x)
    }

    fn check(&self, x: &(i64, String)) -> (r: bool) {
        let crosses: bool = match find_stats(self.stats, x.0) {
            Some(s) => {
                assert(s.deep_view().layers_used.len() == s.layers_used@.len());
                s.layers_used.len() >= 2 || s.has_zone
            },
            None => false,
        };
        crosses && check_name(self.classes, &x.1, Trait::Power)
    }
}

/// The power nets that cross layers or have a filled area.
pub fn find_crossing_power(
    board: &BoardModel,
    stats: &Vec<NetStats>,
    classes: &Vec<(String, NetInfo)>,
) -> (r: Vec<usize>)
    ensures
        as_ints(r@) == crossing_power(
            board.deep_view(),
            stats.deep_view(),
            classes.deep_view(),
        ),
        forall|i: int| 0 <= i < r@.len() ==> (#[trigger] r@[i]) < board.nets@.len(),
{
    let test = CrossingPower { stats, classes };
    let r = find_places(&board.nets, &test);
    assert(asks::<(i64, String), CrossingPower>(test) =~= |x: (i64, Seq<char>)|
        crosses_layers(stats.deep_view(), classes.deep_view(), x));
    r
}

/// The net of the pad is what the trait says.
pub open spec fn pad_is(classes: Classes, p: PadV, t: Trait) -> bool {
    match p.net_name {
        Some(name) => name_is(classes, name, t),
        None => false,
    }
}

/// Some pad is on a net that is what the trait says.
pub open spec fn some_pad_is(classes: Classes, pads: Seq<PadV>, t: Trait) -> bool {
    exists|i: int| 0 <= i < pads.len() && pad_is(classes, #[trigger] pads[i], t)
}

/// Whether the net of the pad is what the trait says.
pub fn check_pad(classes: &Vec<(String, NetInfo)>, pad: &Pad, t: Trait) -> (r: bool)
    ensures
        r == pad_is(classes.deep_view(), pad.deep_view(), t),
{
    match &pad.net_name {
        Some(name) => check_name(classes, name, t),
        None => false,
    }
}

/// Whether some pad is on a net that is what the trait says.
pub fn check_pads(classes: &Vec<(String, NetInfo)>, pads: &Vec<Pad>, t: Trait) -> (r: bool)
    ensures
        r == some_pad_is(classes.deep_view(), pads.deep_view(), t),
{
    let ghost cv = classes.deep_view();
    let ghost pv = pads.deep_view();
    let n: usize = pads.len();
    let mut i: usize = 0;
    while i < n
        invariant
            n == pads@.len(),
            i <= n,
            cv == classes.deep_view(),
            pv == pads.deep_view(),
            forall|j: int| 0 <= j < i ==> !pad_is(cv, #[trigger] pv[j], t),
        decreases n - i,
    {
        assert(pv[i as int] == pads@[i as int].deep_view());
        if check_pad(classes, &pads[i], t) {
            assert(pad_is(cv, pv[i as int], t));
            return true;
        }
        i += 1;
    }
    false
}

/// A capacitor between a power and a ground net.
pub open spec fn decouples(roles: Seq<(Seq<char>, Role)>, classes: Classes, f: FootprintV) -> bool {
    role_is(roles, f.reference, Role::Capacitor) && some_pad_is(classes, f.pads, Trait::Power)
        && some_pad_is(classes, f.pads, Trait::Ground)
}

/// The capacitors between power and ground nets.
pub open spec fn decoupling_caps(
    b: BoardModelV,
    roles: Seq<(Seq<char>, Role)>,
    classes: Classes,
) -> Seq<int> {
    places(b.footprints, |f: FootprintV| decouples(roles, classes, f))
}

struct Decouples<'a> {
    roles: &'a Vec<(String, Role)>,
    classes: &'a Vec<(String, NetInfo)>,
}

impl<'a> Test<Footprint> for Decouples<'a> {
    closed spec fn passes(&self, x: FootprintV) -> bool {
        decouples(self.roles.deep_view(), self.classes.deep_view(), x)
    }

    fn check(&self, x: &Footprint) -> (r: bool) {
        let capacitor: bool = match entry(self.roles, &x.reference) {
            Some(role) => *role == Role::Capacitor,
            None => false,
        };
        capacitor && check_pads(self.classes, &x.pads, Trait::Power) && check_pads(
            self.classes,
            &x.pads,
            Trait::Ground,
        )
    }
}

/// The capacitors between power and ground nets.
pub fn find_decoupling_caps(
    board: &BoardModel,
    roles: &Vec<(String, Role)>,
    classes: &Vec<(String, NetInfo)>,
) -> (r: Vec<usize>)
    ensures
        as_ints(r@) == decoupling_caps(
            board.deep_view(),
            roles.deep_view(),
            classes.deep_view(),
        ),
        forall|i: int| 0 <= i < r@.len() ==> (#[trigger] r@[i]) < board.footprints@.len(),
{
    let test = Decouples { roles, classes };
    let r = find_places(&board.footprints, &test);
    assert(asks::<Footprint, Decouples>(test) =~= |f: FootprintV|
        decouples(roles.deep_view(), classes.deep_view(), f));
    r
}

/// Some filled area is on the layer.
pub open spec fn fills_layer(polys: Seq<ZonePolygonV>, layer: Seq<char>) -> bool {
    exists|i: int| 0 <= i < polys.len() && (#[trigger] polys[i]).layer == layer
}

/// The layer carries a filled area of a net that is what the trait says.
pub open spec fn layer_carries(b: BoardModelV, classes: Classes, layer: Seq<char>, t: Trait) -> bool {
    exists|z: int|
        0 <= z < b.zones.len() && net_is(b, classes, (#[trigger] b.zones[z]).net, t)
            && fills_layer(b.zones[z].filled_polygons, layer)
}

/// Whether the layer carries a filled area of a net that is what the trait says.
pub fn check_layer(
    board: &BoardModel,
    classes: &Vec<(String, NetInfo)>,
    layer: &str,
    t: Trait,
) -> (r: bool)
    ensures
        r == layer_carries(board.deep_view(), classes.deep_view(), layer@, t),
{
    let ghost bv = board.deep_view();
    let ghost cv = classes.deep_view();
    let n: usize = board.zones.len();
    let mut z: usize = 0;
    while z < n
        invariant
            n == board.zones@.len(),
            z <= n,
            bv == board.deep_view(),
            cv == classes.deep_view(),
            forall|j: int|
                0 <= j < z ==> !(net_is(bv, cv, (#[trigger] bv.zones[j]).net, t) && fills_layer(
                    bv.zones[j].filled_polygons,
                    layer@,
                )),
        decreases n - z,
    {
        assert(bv.zones[z as int] == board.zones@[z as int].deep_view());
        let polys = &board.zones[z].filled_polygons;
        let ghost pv = polys.deep_view();
        let m: usize = polys.len();
        let mut filled: bool = false;
        let mut i: usize = 0;
        while i < m
            invariant
                m == polys@.len(),
                i <= m,
                pv == polys.deep_view(),
                filled == exists|j: int| 0 <= j < i && (#[trigger] pv[j]).layer == layer@,
            decreases m - i,
        {
            assert(pv[i as int] == polys@[i as int].deep_view());
            if same(polys[i].layer.as_str(), layer) {
                filled = true;
            }
            i += 1;
        }
        assert(filled == fills_layer(pv, layer@));
        if filled && check_net(board, classes, board.zones[z].net, t) {
            assert(net_is(bv, cv, bv.zones[z as int].net, t));
            return true;
        }
        z += 1;
    }
    false
}

/// Two neighbouring copper layers carry power and ground.
pub open spec fn planes_paired(b: BoardModelV, classes: Classes) -> bool {
    exists|i: int| 0 <= i < b.copper_layers.len() - 1 && #[trigger] pair_at(b, classes, i)
}

/// Copper layer `i` and the next one carry power and ground.
pub open spec fn pair_at(b: BoardModelV, classes: Classes, i: int) -> bool {
    let a = b.copper_layers[i];
    let c = b.copper_layers[i + 1];
    (layer_carries(b, classes, a, Trait::Ground) && layer_carries(b, classes, c, Trait::Power)) || (
    layer_carries(b, classes, a, Trait::Power) && layer_carries(b, classes, c, Trait::Ground))
}

/// Whether two neighbouring copper layers carry power and ground.
pub fn check_paired(board: &BoardModel, classes: &Vec<(String, NetInfo)>) -> (r: bool)
    ensures
        r == planes_paired(board.deep_view(), classes.deep_view()),
{
    let ghost bv = board.deep_view();
    let ghost cv = classes.deep_view();
    let n: usize = board.copper_layers.len();
    assert(bv.copper_layers.len() == n);
    let mut i: usize = 1;
    while i < n
        invariant
            n == board.copper_layers@.len(),
            1 <= i,
            bv == board.deep_view(),
            cv == classes.deep_view(),
            forall|j: int| 0 <= j < i - 1 ==> !#[trigger] pair_at(bv, cv, j),
        decreases n - i,
    {
        assert(bv.copper_layers[i - 1] == board.copper_layers@[i - 1]@);
        assert(bv.copper_layers[i as int] == board.copper_layers@[i as int]@);
        let a = board.copper_layers[i - 1].as_str();
        let c = board.copper_layers[i].as_str();
        if (check_layer(board, classes, a, Trait::Ground) && check_layer(
            board,
            classes,
            c,
            Trait::Power,
        )) || (check_layer(board, classes, a, Trait::Power) && check_layer(
            board,
            classes,
            c,
            Trait::Ground,
        )) {
            assert(pair_at(bv, cv, i - 1));
            return true;
        }
        assert(!pair_at(bv, cv, i - 1));
        i += 1;
    }
    false
}

/// Some filled area belongs to a net that the netlist knows.
pub open spec fn known_fills(b: BoardModelV, classes: Classes) -> bool {
    exists|z: int|
        0 <= z < b.zones.len() && (#[trigger] b.zones[z]).filled_polygons.len() > 0 && map_find(
            classes,
            name_of_net(b.nets, b.zones[z].net),
        ) is Some
}

/// Whether some filled area belongs to a net that the netlist knows.
pub fn check_known_fills(board: &BoardModel, classes: &Vec<(String, NetInfo)>) -> (r: bool)
    ensures
        r == known_fills(board.deep_view(), classes.deep_view()),
{
    let ghost bv = board.deep_view();
    let ghost cv = classes.deep_view();
    let n: usize = board.zones.len();
    let mut z: usize = 0;
    while z < n
        invariant
            n == board.zones@.len(),
            z <= n,
            bv == board.deep_view(),
            cv == classes.deep_view(),
            forall|j: int|
                0 <= j < z ==> !((#[trigger] bv.zones[j]).filled_polygons.len() > 0 && map_find(
                    cv,
                    name_of_net(bv.nets, bv.zones[j].net),
                ) is Some),
        decreases n - z,
    {
        assert(bv.zones[z as int] == board.zones@[z as int].deep_view());
        assert(bv.zones[z as int].filled_polygons.len()
            == board.zones@[z as int].filled_polygons@.len());
        let name = board.net_name(board.zones[z].net);
        if board.zones[z].filled_polygons.len() > 0 && entry(classes, &name).is_some() {
            return true;
        }
        z += 1;
    }
    false
}

} // verus!
