//! What has to hold before a board gets a score: full connectivity and no design rule error.
use vstd::prelude::*;

use crate::number::Real;
use crate::score::metrics::context::{DrcReport, DrcReportV, Violation, ViolationV};
use crate::score::model::{ConnectivityGate, DrcGate, Gates};
use crate::score::net_stats::{NetStats, NetStatsV};
use crate::select::{asks, count_places, places, places_are_exact, Test};
use crate::sorted_map::{
    count_total, entry, keys_rise, map_find, map_put, map_put_is_found, map_put_keeps_order,
    put_changes_total, put_entry,
};
use crate::text::same;

verus! {

/// The net needs routing: it has at least two pads.
pub open spec fn is_routable(s: NetStatsV) -> bool {
    s.pad_count >= 2
}

/// The net needs routing.
pub struct Routable;

impl Test<NetStats> for Routable {
    open spec fn passes(&self, x: NetStatsV) -> bool {
        is_routable(x)
    }

    fn check(&self, x: &NetStats) -> (r: bool) {
        x.pad_count >= 2
    }
}

/// The net needs routing and is routed.
pub struct Routed;

impl Test<NetStats> for Routed {
    open spec fn passes(&self, x: NetStatsV) -> bool {
        is_routable(x) && x.connected
    }

    fn check(&self, x: &NetStats) -> (r: bool) {
        x.pad_count >= 2 && x.connected
    }
}

/// The finding was not excluded.
pub struct Standing;

impl Test<Violation> for Standing {
    open spec fn passes(&self, x: ViolationV) -> bool {
        !x.excluded
    }

    fn check(&self, x: &Violation) -> (r: bool) {
        !x.excluded
    }
}

/// How many nets need routing.
pub open spec fn routable_count(stats: Seq<NetStatsV>) -> nat {
    places(stats, |s: NetStatsV| is_routable(s)).len()
}

/// How many nets need routing and are routed.
pub open spec fn routed_count(stats: Seq<NetStatsV>) -> nat {
    places(stats, |s: NetStatsV| is_routable(s) && s.connected).len()
}

/// How many findings were not excluded.
pub open spec fn standing_count(list: Seq<ViolationV>) -> nat {
    places(list, |v: ViolationV| !v.excluded).len()
}

/// The finding has the severity and was not excluded.
pub open spec fn counts_as(v: ViolationV, severity: Seq<char>) -> bool {
    v.severity == severity && !v.excluded
}

/// The number of findings of a severity.
pub open spec fn severity_count(list: Seq<ViolationV>, severity: Seq<char>) -> nat {
    places(list, |v: ViolationV| counts_as(v, severity)).len()
}

/// The number of findings of a severity of each kind, by kind.
pub open spec fn kind_counts(list: Seq<ViolationV>, severity: Seq<char>) -> Seq<(Seq<char>, usize)>
    decreases list.len(),
{
    if list.len() == 0 {
        Seq::empty()
    } else {
        let front = kind_counts(list.drop_last(), severity);
        if counts_as(list.last(), severity) {
            map_put::<String, usize>(
                front,
                list.last().violation_type,
                match map_find(front, list.last().violation_type) {
                    Some(n) => (n + 1) as usize,
                    None => 1,
                },
            )
        } else {
            front
        }
    }
}

struct OfSeverity<'a> {
    severity: &'a str,
}

impl<'a> Test<Violation> for OfSeverity<'a> {
    closed spec fn passes(&self, x: ViolationV) -> bool {
        counts_as(x, self.severity@)
    }

    fn check(&self, x: &Violation) -> (r: bool) {
        !x.excluded && same(x.severity.as_str(), self.severity)
    }
}

/// How many nets need routing.
pub fn count_routable(stats: &Vec<NetStats>) -> (r: usize)
    ensures
        r == routable_count(stats.deep_view()),
{
    let r = count_places(stats, &Routable);
    assert(asks::<NetStats, Routable>(Routable) =~= |s: NetStatsV| is_routable(s));
    r
}

/// How many nets need routing and are routed.
pub fn count_routed(stats: &Vec<NetStats>) -> (r: usize)
    ensures
        r == routed_count(stats.deep_view()),
{
    let r = count_places(stats, &Routed);
    assert(asks::<NetStats, Routed>(Routed) =~= |s: NetStatsV| is_routable(s) && s.connected);
    r
}

/// How many findings were not excluded.
pub fn count_standing(list: &Vec<Violation>) -> (r: usize)
    ensures
        r == standing_count(list.deep_view()),
{
    let r = count_places(list, &Standing);
    assert(asks::<Violation, Standing>(Standing) =~= |v: ViolationV| !v.excluded);
    r
}

/// The number of findings of a severity.
pub fn count_severity(list: &Vec<Violation>, severity: &str) -> (r: usize)
    ensures
        r == severity_count(list.deep_view(), severity@),
{
    let test = OfSeverity { severity };
    let r = count_places(list, &test);
    assert(asks::<Violation, OfSeverity>(test) =~= |v: ViolationV| counts_as(v, severity@));
    r
}

/// The number of findings of a severity of each kind, by kind.
pub fn count_kinds(list: &Vec<Violation>, severity: &str) -> (r: Vec<(String, usize)>)
    ensures
        r.deep_view() == kind_counts(list.deep_view(), severity@),
{
    let ghost lv = list.deep_view();
    let n: usize = list.len();
    let mut out: Vec<(String, usize)> = Vec::new();
    let mut i: usize = 0;
    assert(out.deep_view() =~= kind_counts(lv.take(0), severity@));
    assert(forall|k: Seq<char>| map_find(out.deep_view(), k) is None);
    while i < n
        invariant
            n == list@.len(),
            i <= n,
            lv == list.deep_view(),
            out.deep_view() == kind_counts(lv.take(i as int), severity@),
            forall|k: Seq<char>|
                (#[trigger] map_find(out.deep_view(), k)) matches Some(c) ==> c <= i,
        decreases n - i,
    {
        let ghost before = out.deep_view();
        assert(lv.take(i + 1).drop_last() =~= lv.take(i as int));
        assert(lv[i as int] == list@[i as int].deep_view());
        let v = &list[i];
        if !v.excluded && same(v.severity.as_str(), severity) {
            let found: usize = match entry(&out, &v.violation_type) {
                Some(c) => *c,
                None => 0,
            };
            assert(found <= i);
            put_entry(&mut out, v.violation_type.clone(), found + 1);
            assert forall|k: Seq<char>|
                (#[trigger] map_find(out.deep_view(), k)) matches Some(c) implies map_find(
                out.deep_view(),
                k,
            )->0 <= i + 1 by {
                map_put_is_found::<String, usize>(
                    before,
                    v.violation_type@,
                    (found + 1) as usize,
                    k,
                );
            }
        }
        i += 1;
    }
    assert(lv.take(n as int) =~= lv);
    out
}

/// Every net is routed, and the design rule check, where it ran, reports nothing unconnected.
pub open spec fn fully_connected(stats: Seq<NetStatsV>, drc: Option<DrcReportV>) -> bool {
    routed_count(stats) == routable_count(stats) && match drc {
        Some(d) => standing_count(d.unconnected_items) == 0,
        None => true,
    }
}

/// The design rule check, where it ran, found no error.
pub open spec fn free_of_errors(drc: Option<DrcReportV>) -> bool {
    match drc {
        Some(d) => severity_count(d.violations, "error"@) == 0,
        None => true,
    }
}

/// Judges whether the board passes its gates.
pub fn compute_gates(net_stats: &Vec<NetStats>, drc: &Option<DrcReport>) -> (r: Gates)
    ensures
        r.passed == (fully_connected(net_stats.deep_view(), drc.deep_view()) && free_of_errors(
            drc.deep_view(),
        )),
        r.connectivity.passed == fully_connected(net_stats.deep_view(), drc.deep_view()),
        r.connectivity.connected_nets == routed_count(net_stats.deep_view()),
        r.connectivity.total_nets == routable_count(net_stats.deep_view()),
        match drc.deep_view() {
            Some(d) => {
                &&& r.connectivity.drc_unconnected_items is Some
                &&& r.connectivity.drc_unconnected_items->0 == standing_count(d.unconnected_items)
                &&& r.drc_errors.count == severity_count(d.violations, "error"@)
                &&& r.drc_errors.by_kind.deep_view() == kind_counts(d.violations, "error"@)
            },
            None => {
                &&& r.connectivity.drc_unconnected_items is None
                &&& r.drc_errors.count == 0
                &&& r.drc_errors.by_kind.deep_view() == Seq::<(Seq<char>, usize)>::empty()
            },
        },
        r.drc_errors.passed == free_of_errors(drc.deep_view()),
{
    let total_nets: usize = count_routable(net_stats);
    let connected_nets: usize = count_routed(net_stats);
    let (unconnected, count, by_kind): (Option<usize>, usize, Vec<(String, usize)>) = match drc {
        Some(d) => (
            Some(count_standing(&d.unconnected_items)),
            count_severity(&d.violations, "error"),
            count_kinds(&d.violations, "error"),
        ),
        None => {
            let none: Vec<(String, usize)> = Vec::new();
            assert(none.deep_view() =~= Seq::empty());
            (None, 0, none)
        },
    };
    let open_items: usize = match unconnected {
        Some(n) => n,
        None => 0,
    };
    let connected: bool = connected_nets == total_nets && open_items == 0;
    let clean: bool = count == 0;
    Gates {
        passed: connected && clean,
        connectivity: ConnectivityGate {
            passed: connected,
            connected_nets,
            total_nets,
            drc_unconnected_items: unconnected,
        },
        drc_errors: DrcGate { passed: clean, count, by_kind },
    }
}

/// The score of a board: its quality, or zero while a gate fails.
pub fn headline_score(gates: &Gates, quality: Real) -> (r: Real)
    ensures
        r == if gates.passed {
            quality
        } else {
            crate::number::zero()
        },
{
    if gates.passed {
        quality
    } else {
        Real::zero()
    }
}

/// Each kind is listed with the number of its findings, and a kind without a finding is not
/// listed.
pub proof fn kinds_are_counted(list: Seq<ViolationV>, severity: Seq<char>, kind: Seq<char>)
    requires
        list.len() <= usize::MAX,
    ensures
        match map_find(kind_counts(list, severity), kind) {
            Some(n) => n == places(
                list,
                |v: ViolationV| counts_as(v, severity) && v.violation_type == kind,
            ).len() && n > 0,
            None => places(
                list,
                |v: ViolationV| counts_as(v, severity) && v.violation_type == kind,
            ).len() == 0,
        },
    decreases list.len(),
{
    let test = |v: ViolationV| counts_as(v, severity) && v.violation_type == kind;
    if list.len() > 0 {
        let front = list.drop_last();
        kinds_are_counted(front, severity, kind);
        places_are_exact(front, test);
        if counts_as(list.last(), severity) {
            let f = kind_counts(front, severity);
            let k = list.last().violation_type;
            map_put_is_found::<String, usize>(
                f,
                k,
                match map_find(f, k) {
                    Some(n) => (n + 1) as usize,
                    None => 1,
                },
                kind,
            );
        }
    }
}

/// The counts by kind add up to the number of findings, and the kinds stand in rising order.
pub proof fn kinds_add_up(list: Seq<ViolationV>, severity: Seq<char>)
    requires
        list.len() <= usize::MAX,
    ensures
        count_total(kind_counts(list, severity)) == severity_count(list, severity),
        keys_rise::<String, usize>(kind_counts(list, severity)),
    decreases list.len(),
{
    if list.len() > 0 {
        let front = list.drop_last();
        kinds_add_up(front, severity);
        if counts_as(list.last(), severity) {
            let f = kind_counts(front, severity);
            let k = list.last().violation_type;
            let test = |v: ViolationV| counts_as(v, severity) && v.violation_type == k;
            let n: usize = match map_find(f, k) {
                Some(n) => (n + 1) as usize,
                None => 1,
            };
            kinds_are_counted(front, severity, k);
            places_are_exact(front, test);
            put_changes_total::<String>(f, k, n);
            map_put_keeps_order::<String, usize>(f, k, n);
        }
    }
}

} // verus!
