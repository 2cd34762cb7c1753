//! What the metric families work on, and the selections that they share.
use vstd::prelude::*;

use crate::number::Real;
use crate::order::as_ints;
use crate::score::board::{
    name_of_net, BoardModel, BoardModelV, Footprint, FootprintV, Via, ViaV, Zone,
    ZoneV,
};
use crate::score::classify::{aggressor, fast, sensitive, victim, NetInfo, NetInfoV};
use crate::score::model::{Extent, WorstEntry, WorstEntryV};
use crate::score::net_stats::{NetStats, NetStatsV};
use crate::score::roles::Role;
use crate::select::{asks, find_places, places, Test};
use crate::sorted_map::{entry, map_find};

verus! {

/// A finding of the design rule check.
pub struct Violation {
    pub severity: String,
    pub violation_type: String,
    pub excluded: bool,
}

/// The value of a `Violation`.
#[verifier::ext_equal]
pub struct ViolationV {
    pub severity: Seq<char>,
    pub violation_type: Seq<char>,
    pub excluded: bool,
}

impl DeepView for Violation {
    type V = ViolationV;

    open spec fn deep_view(&self) -> ViolationV {
        ViolationV {
            severity: self.severity@,
            violation_type: self.violation_type@,
            excluded: self.excluded,
        }
    }
}

/// The report of the design rule check.
pub struct DrcReport {
    pub violations: Vec<Violation>,
    pub unconnected_items: Vec<Violation>,
    pub schematic_parity: Vec<Violation>,
    /// The number of warnings, as the report counts them.
    pub warning_count: usize,
}

/// The value of a `DrcReport`.
#[verifier::ext_equal]
pub struct DrcReportV {
    pub violations: Seq<ViolationV>,
    pub unconnected_items: Seq<ViolationV>,
    pub schematic_parity: Seq<ViolationV>,
    pub warning_count: usize,
}

impl DeepView for DrcReport {
    type V = DrcReportV;

    open spec fn deep_view(&self) -> DrcReportV {
        DrcReportV {
            violations: self.violations.deep_view(),
            unconnected_items: self.unconnected_items.deep_view(),
            schematic_parity: self.schematic_parity.deep_view(),
            warning_count: self.warning_count,
        }
    }
}

/// The weight of each family of metrics.
#[derive(Clone, Copy, Debug, PartialEq, Eq, Structural)]
pub struct Weights {
    pub drc: Real,
    pub routing_efficiency: Real,
    pub signal_integrity: Real,
    pub crosstalk: Real,
    pub emi: Real,
    pub power_integrity: Real,
    pub esd: Real,
    pub thermal: Real,
    pub dfm: Real,
    pub placement: Real,
    pub aesthetics: Real,
}

/// The usual weights: 10 for the design rules, 20 for routing efficiency and for signal
/// integrity, 12 for crosstalk, 10 for emission and for power, 5 for discharges, 4 for heat, 5 for
/// manufacturability, 2 for placement and for conventions.
pub open spec fn usual_weights() -> Weights {
    Weights {
        drc: Real { bits: 0x4024_0000_0000_0000 },
        routing_efficiency: Real { bits: 0x4034_0000_0000_0000 },
        signal_integrity: Real { bits: 0x4034_0000_0000_0000 },
        crosstalk: Real { bits: 0x4028_0000_0000_0000 },
        emi: Real { bits: 0x4024_0000_0000_0000 },
        power_integrity: Real { bits: 0x4024_0000_0000_0000 },
        esd: Real { bits: 0x4014_0000_0000_0000 },
        thermal: Real { bits: 0x4010_0000_0000_0000 },
        dfm: Real { bits: 0x4014_0000_0000_0000 },
        placement: Real { bits: 0x4000_0000_0000_0000 },
        aesthetics: Real { bits: 0x4000_0000_0000_0000 },
    }
}

impl Default for Weights {
    /// The usual weights.
    fn default() -> (r: Weights)
        ensures
            r == usual_weights(),
    {
        Weights {
            drc: Real { bits: 0x4024_0000_0000_0000 },
            routing_efficiency: Real { bits: 0x4034_0000_0000_0000 },
            signal_integrity: Real { bits: 0x4034_0000_0000_0000 },
            crosstalk: Real { bits: 0x4028_0000_0000_0000 },
            emi: Real { bits: 0x4024_0000_0000_0000 },
            power_integrity: Real { bits: 0x4024_0000_0000_0000 },
            esd: Real { bits: 0x4014_0000_0000_0000 },
            thermal: Real { bits: 0x4010_0000_0000_0000 },
            dfm: Real { bits: 0x4014_0000_0000_0000 },
            placement: Real { bits: 0x4000_0000_0000_0000 },
            aesthetics: Real { bits: 0x4000_0000_0000_0000 },
        }
    }
}

/// What the metric families work on. Classes and roles are there where a netlist is.
pub struct ScoreContext {
    pub board: BoardModel,
    pub net_stats: Vec<NetStats>,
    pub drc: Option<DrcReport>,
    pub net_classes: Option<Vec<(String, NetInfo)>>,
    pub roles: Option<Vec<(String, Role)>>,
    pub weights: Weights,
}

/// The value of a `ScoreContext`.
#[verifier::ext_equal]
pub struct ScoreContextV {
    pub board: BoardModelV,
    pub net_stats: Seq<NetStatsV>,
    pub drc: Option<DrcReportV>,
    pub net_classes: Option<Seq<(Seq<char>, NetInfoV)>>,
    pub roles: Option<Seq<(Seq<char>, Role)>>,
    pub weights: Weights,
}

impl DeepView for ScoreContext {
    type V = ScoreContextV;

    open spec fn deep_view(&self) -> ScoreContextV {
        ScoreContextV {
            board: self.board.deep_view(),
            net_stats: self.net_stats.deep_view(),
            drc: self.drc.deep_view(),
            net_classes: self.net_classes.deep_view(),
            roles: self.roles.deep_view(),
            weights: self.weights,
        }
    }
}

/// What a net can be.
#[derive(Clone, Copy, Debug, PartialEq, Eq, Structural)]
pub enum Trait {
    /// Fast.
    HighSpeed,
    /// Fast and with a single-ended impedance target.
    ImpedanceTarget,
    Power,
    Ground,
    /// A power or ground net.
    Reference,
    /// It declares a current.
    Current,
    Aggressor,
    Victim,
    Sensitive,
}

/// The net is what the trait says.
pub open spec fn has_trait(i: NetInfoV, t: Trait) -> bool {
    match t {
        Trait::HighSpeed => fast(i),
        Trait::ImpedanceTarget => fast(i) && i.impedance_ohms is Some,
        Trait::Power => i.is_power,
        Trait::Ground => i.is_ground,
        Trait::Reference => i.is_power || i.is_ground,
        Trait::Current => i.sink_total_amps is Some || i.source_total_amps is Some,
        Trait::Aggressor => aggressor(i),
        Trait::Victim => victim(i),
        Trait::Sensitive => sensitive(i),
    }
}

impl NetInfo {
    /// Whether the net is what the trait says.
    pub fn is(&self, t: Trait) -> (r: bool)
        ensures
            r == has_trait(self.deep_view(), t),
    {
        match t {
            Trait::HighSpeed => self.is_high_speed(),
            Trait::ImpedanceTarget => self.is_high_speed() && self.impedance_ohms.is_some(),
            Trait::Power => self.is_power,
            Trait::Ground => self.is_ground,
            Trait::Reference => self.is_power || self.is_ground,
            Trait::Current => self.sink_total_amps.is_some() || self.source_total_amps.is_some(),
            Trait::Aggressor => self.is_aggressor(),
            Trait::Victim => self.is_victim(),
            Trait::Sensitive => self.is_sensitive(),
        }
    }
}

/// What is known of nets, by name.
pub type Classes = Seq<(Seq<char>, NetInfoV)>;

/// The net of the given name is what the trait says.
pub open spec fn name_is(classes: Classes, name: Seq<char>, t: Trait) -> bool {
    match map_find(classes, name) {
        Some(i) => has_trait(i, t),
        None => false,
    }
}

/// The net of the given number is what the trait says.
pub open spec fn net_is(b: BoardModelV, classes: Classes, net: i64, t: Trait) -> bool {
    name_is(classes, name_of_net(b.nets, net), t)
}

/// Whether the net of the given name is what the trait says.
pub fn check_name(classes: &Vec<(String, NetInfo)>, name: &String, t: Trait) -> (r: bool)
    ensures
        r == name_is(classes.deep_view(), name@, t),
{
    match entry(classes, name) {
        Some(i) => i.is(t),
        None => false,
    }
}

/// Whether the net of the given number is what the trait says.
pub fn check_net(board: &BoardModel, classes: &Vec<(String, NetInfo)>, net: i64, t: Trait) -> (r:
    bool)
    ensures
        r == net_is(board.deep_view(), classes.deep_view(), net, t),
{
    let name = board.net_name(net);
    check_name(classes, &name, t)
}

/// A test on named nets.
pub struct NetIs<'a> {
    pub classes: &'a Vec<(String, NetInfo)>,
    pub what: Trait,
}

impl<'a> Test<(i64, String)> for NetIs<'a> {
    open spec fn passes(&self, x: (i64, Seq<char>)) -> bool {
        name_is(self.classes.deep_view(), x.1, self.what)
    }

    fn check(&self, x: &(i64, String)) -> (r: bool) {
        check_name(self.classes, &x.1, self.what)
    }
}

/// A test on the net of a piece of copper.
pub struct OnNet<'a> {
    pub board: &'a BoardModel,
    pub classes: &'a Vec<(String, NetInfo)>,
    pub what: Trait,
}

impl<'a> Test<Via> for OnNet<'a> {
    open spec fn passes(&self, x: ViaV) -> bool {
        net_is(self.board.deep_view(), self.classes.deep_view(), x.net, self.what)
    }

    fn check(&self, x: &Via) -> (r: bool) {
        check_net(self.board, self.classes, x.net, self.what)
    }
}

impl<'a> Test<Zone> for OnNet<'a> {
    open spec fn passes(&self, x: ZoneV) -> bool {
        net_is(self.board.deep_view(), self.classes.deep_view(), x.net, self.what)
            && x.filled_polygons.len() > 0
    }

    fn check(&self, x: &Zone) -> (r: bool) {
        assert(x.deep_view().filled_polygons.len() == x.filled_polygons@.len());
        check_net(self.board, self.classes, x.net, self.what) && x.filled_polygons.len() > 0
    }
}

/// A test on the role of a footprint.
pub struct HasRole<'a> {
    pub roles: &'a Vec<(String, Role)>,
    pub role: Role,
}

/// The component of the given reference has the role.
pub open spec fn role_is(roles: Seq<(Seq<char>, Role)>, reference: Seq<char>, role: Role) -> bool {
    map_find(roles, reference) == Some(role)
}

impl<'a> Test<Footprint> for HasRole<'a> {
    open spec fn passes(&self, x: FootprintV) -> bool {
        role_is(self.roles.deep_view(), x.reference, self.role)
    }

    fn check(&self, x: &Footprint) -> (r: bool) {
        match entry(self.roles, &x.reference) {
            Some(r) => *r == self.role,
            None => false,
        }
    }
}

/// The places of the nets that are what the trait says.
pub open spec fn nets_that(b: BoardModelV, classes: Classes, t: Trait) -> Seq<int> {
    places(b.nets, |x: (i64, Seq<char>)| name_is(classes, x.1, t))
}

/// The places of the vias on nets that are what the trait says.
pub open spec fn vias_that(b: BoardModelV, classes: Classes, t: Trait) -> Seq<int> {
    places(b.vias, |x: ViaV| net_is(b, classes, x.net, t))
}

/// The places of the zones with filled areas on nets that are what the trait says.
pub open spec fn zones_that(b: BoardModelV, classes: Classes, t: Trait) -> Seq<int> {
    places(b.zones, |x: ZoneV| net_is(b, classes, x.net, t) && x.filled_polygons.len() > 0)
}

/// The places of the footprints with a role.
pub open spec fn footprints_that(b: BoardModelV, roles: Seq<(Seq<char>, Role)>, role: Role) -> Seq<
    int,
> {
    places(b.footprints, |x: FootprintV| role_is(roles, x.reference, role))
}

/// The places of the nets that are what the trait says.
pub fn find_nets(board: &BoardModel, classes: &Vec<(String, NetInfo)>, t: Trait) -> (r: Vec<usize>)
    ensures
        as_ints(r@) == nets_that(board.deep_view(), classes.deep_view(), t),
        forall|i: int| 0 <= i < r@.len() ==> (#[trigger] r@[i]) < board.nets@.len(),
{
    let test = NetIs { classes, what: t };
    let r = find_places(&board.nets, &test);
    assert(asks::<(i64, String), NetIs>(test) =~= |x: (i64, Seq<char>)| name_is(classes.deep_view(), x.1, t));
    r
}

/// The places of the vias on nets that are what the trait says.
pub fn find_vias(board: &BoardModel, classes: &Vec<(String, NetInfo)>, t: Trait) -> (r: Vec<usize>)
    ensures
        as_ints(r@) == vias_that(board.deep_view(), classes.deep_view(), t),
        forall|i: int| 0 <= i < r@.len() ==> (#[trigger] r@[i]) < board.vias@.len(),
{
    let test = OnNet { board, classes, what: t };
    let r = find_places(&board.vias, &test);
    assert(asks::<Via, OnNet>(test) =~= |x: ViaV| net_is(board.deep_view(), classes.deep_view(), x.net, t));
    r
}

/// The places of the zones with filled areas on nets that are what the trait says.
pub fn find_zones(board: &BoardModel, classes: &Vec<(String, NetInfo)>, t: Trait) -> (r: Vec<usize>)
    ensures
        as_ints(r@) == zones_that(board.deep_view(), classes.deep_view(), t),
        forall|i: int| 0 <= i < r@.len() ==> (#[trigger] r@[i]) < board.zones@.len(),
{
    let test = OnNet { board, classes, what: t };
    let r = find_places(&board.zones, &test);
    assert(asks::<Zone, OnNet>(test) =~= |x: ZoneV| net_is(board.deep_view(), classes.deep_view(), x.net, t) && x.filled_polygons.len() > 0);
    r
}

/// The places of the footprints with a role.
pub fn find_footprints(board: &BoardModel, roles: &Vec<(String, Role)>, role: Role) -> (r: Vec<
    usize,
>)
    ensures
        as_ints(r@) == footprints_that(board.deep_view(), roles.deep_view(), role),
        forall|i: int| 0 <= i < r@.len() ==> (#[trigger] r@[i]) < board.footprints@.len(),
{
    let test = HasRole { roles, role };
    let r = find_places(&board.footprints, &test);
    assert(asks::<Footprint, HasRole>(test) =~= |x: FootprintV|
        role_is(roles.deep_view(), x.reference, role));
    r
}

/// The names of the nets at the given places.
pub open spec fn net_labels(b: BoardModelV, at: Seq<int>) -> Seq<Seq<char>> {
    Seq::new(at.len(), |i: int| b.nets[at[i]].1)
}

/// The names of the nets at the given places.
pub fn label_nets(board: &BoardModel, at: &Vec<usize>) -> (r: Vec<String>)
    requires
        forall|i: int| 0 <= i < at@.len() ==> (#[trigger] at@[i]) < board.nets@.len(),
    ensures
        r.deep_view() == net_labels(board.deep_view(), as_ints(at@)),
{
    let ghost bv = board.deep_view();
    let ghost av = as_ints(at@);
    let n: usize = at.len();
    let mut out: Vec<String> = Vec::new();
    let mut i: usize = 0;
    while i < n
        invariant
            n == at@.len(),
            i <= n,
            bv == board.deep_view(),
            av == as_ints(at@),
            forall|j: int| 0 <= j < at@.len() ==> (#[trigger] at@[j]) < board.nets@.len(),
            out@.len() == i,
            forall|j: int| 0 <= j < i ==> (#[trigger] out@[j])@ == net_labels(bv, av)[j],
        decreases n - i,
    {
        let k: usize = at[i];
        assert(bv.nets[k as int] == (board.nets@[k as int].0, board.nets@[k as int].1@));
        out.push(board.nets[k].1.clone());
        i += 1;
    }
    assert(out.deep_view() =~= net_labels(bv, av));
    out
}

/// The entries of those labels that have a value.
pub open spec fn offenders(labels: Seq<Seq<char>>, values: Seq<Option<Extent>>) -> Seq<WorstEntryV>
    decreases values.len(),
{
    if values.len() == 0 {
        Seq::empty()
    } else {
        let front = offenders(labels, values.drop_last());
        match values.last() {
            Some(value) => front.push(WorstEntryV { label: labels[values.len() - 1], value }),
            None => front,
        }
    }
}

/// The entries of those labels that have a value.
pub fn list_offenders(labels: &Vec<String>, values: &Vec<Option<Extent>>) -> (r: Vec<WorstEntry>)
    requires
        labels@.len() == values@.len(),
    ensures
        r.deep_view() == offenders(labels.deep_view(), values@),
{
    let ghost lv = labels.deep_view();
    let n: usize = values.len();
    let mut out: Vec<WorstEntry> = Vec::new();
    let mut i: usize = 0;
    assert(out.deep_view() =~= offenders(lv, values@.take(0)));
    while i < n
        invariant
            n == values@.len(),
            n == labels@.len(),
            i <= n,
            lv == labels.deep_view(),
            out.deep_view() == offenders(lv, values@.take(i as int)),
        decreases n - i,
    {
        let ghost before = out.deep_view();
        assert(values@.take(i + 1).drop_last() =~= values@.take(i as int));
        assert(lv[i as int] == labels@[i as int]@);
        match values[i] {
            Some(value) => {
                out.push(WorstEntry { label: labels[i].clone(), value });
                assert(out.deep_view() =~= before.push(
                    WorstEntryV { label: lv[i as int], value },
                ));
            },
            None => {},
        }
        i += 1;
    }
    assert(values@.take(n as int) =~= values@);
    out
}

/// The statistics of a net.
pub open spec fn stats_at(stats: Seq<NetStatsV>, net: i64) -> Option<NetStatsV>
    decreases stats.len(),
{
    if stats.len() == 0 {
        None
    } else if stats[0].net == net {
        Some(stats[0])
    } else {
        stats_at(stats.drop_first(), net)
    }
}

/// The statistics of a net.
pub fn find_stats<'a>(stats: &'a Vec<NetStats>, net: i64) -> (r: Option<&'a NetStats>)
    ensures
        match r {
            Some(s) => stats_at(stats.deep_view(), net) == Some(s.deep_view()),
            None => stats_at(stats.deep_view(), net) is None,
        },
{
    let ghost all = stats.deep_view();
    let n: usize = stats.len();
    let mut i: usize = 0;
    assert(all.skip(0) =~= all);
    while i < n
        invariant
            n == stats@.len(),
            all == stats.deep_view(),
            i <= n,
            stats_at(all, net) == stats_at(all.skip(i as int), net),
        decreases n - i,
    {
        assert(all.skip(i as int).drop_first() =~= all.skip(i + 1));
        assert(all.skip(i as int)[0] == stats@[i as int].deep_view());
        if stats[i].net == net {
            return Some(&stats[i]);
        }
        i += 1;
    }
    None
}

/// The note of metrics that need the netlist.
pub open spec fn no_netlist() -> Seq<char> {
    "netlist unavailable: declarative net classification required"@
}

} // verus!
