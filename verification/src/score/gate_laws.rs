//! What closes the gates of a board, and what a closed gate does to its score.
use vstd::prelude::*;

use crate::number::{zero, Real};
use crate::score::gates::{compute_gates, counts_as, headline_score, is_routable};
use crate::score::metrics::context::{DrcReport, ScoreContextV, ViolationV};
use crate::score::metrics::families::FamilyReals;
use crate::score::model::Gates;
use crate::score::net_stats::{NetStats, NetStatsV};
use crate::score::report::{is_report, ScoreReport};
use crate::select::{places, places_are_exact};

verus! {

/// No item passes the test exactly where none is counted.
proof fn none_counted<A>(items: Seq<A>, test: spec_fn(A) -> bool)
    ensures
        places(items, test).len() == 0 <==> forall|i: int|
            0 <= i < items.len() ==> !test(#[trigger] items[i]),
{
    places_are_exact(items, test);
    let p = places(items, test);
    if p.len() == 0 {
        assert forall|i: int| 0 <= i < items.len() implies !test(#[trigger] items[i]) by {
            assert(!p.contains(i));
        }
    } else {
        assert(p.contains(p[0]));
    }
}

/// Of the items that pass a test, as many pass a second one as there are exactly where all do.
proof fn all_counted<A>(items: Seq<A>, one: spec_fn(A) -> bool, two: spec_fn(A) -> bool)
    requires
        forall|x: A| #[trigger] two(x) ==> one(x),
    ensures
        places(items, two).len() <= places(items, one).len(),
        places(items, two).len() == places(items, one).len() <==> forall|i: int|
            0 <= i < items.len() && one(#[trigger] items[i]) ==> two(items[i]),
    decreases items.len(),
{
    if items.len() > 0 {
        let front = items.drop_last();
        all_counted(front, one, two);
        let last = items.last();
        assert(items[items.len() - 1] == last);
        assert(two(last) ==> one(last));
        if forall|i: int| 0 <= i < front.len() && one(#[trigger] front[i]) ==> two(front[i]) {
            assert forall|i: int|
                0 <= i < front.len() && one(#[trigger] items[i]) implies two(items[i]) by {
                assert(front[i] == items[i]);
            }
        }
        if forall|i: int| 0 <= i < items.len() && one(#[trigger] items[i]) ==> two(items[i]) {
            assert forall|i: int|
                0 <= i < front.len() && one(#[trigger] front[i]) implies two(front[i]) by {
                assert(front[i] == items[i]);
            }
        }
    }
}

/// The connectivity gate is open exactly where every net of two pads or more is connected and the
/// design rule check, where it ran, leaves no unconnected item standing. The error gate is open
/// exactly where the check, where it ran, leaves no error standing. The board scores its quality
/// where both are open, and zero where one is not.
pub proof fn gates_open_without_faults(
    stats: Vec<NetStats>,
    drc: Option<DrcReport>,
    g: Gates,
    quality: Real,
    score: Real,
)
    requires
        compute_gates.ensures((&stats, &drc), g),
        headline_score.ensures((&g, quality), score),
    ensures
        g.connectivity.passed <==> {
            &&& forall|i: int|
                0 <= i < stats@.len() && (#[trigger] stats@[i]).pad_count >= 2
                    ==> stats@[i].connected
            &&& drc matches Some(d) ==> forall|k: int|
                0 <= k < d.unconnected_items@.len() ==> (
                #[trigger] d.unconnected_items@[k]).excluded
        },
        g.drc_errors.passed <==> (drc matches Some(d) ==> forall|k: int|
            0 <= k < d.violations@.len() && (#[trigger] d.violations@[k]).severity@ == "error"@
                ==> d.violations@[k].excluded),
        g.passed <==> g.connectivity.passed && g.drc_errors.passed,
        g.connectivity.passed && g.drc_errors.passed ==> score == quality,
        !g.connectivity.passed || !g.drc_errors.passed ==> score == zero(),
{
    let sv = stats.deep_view();
    let one = |s: NetStatsV| is_routable(s);
    let two = |s: NetStatsV|
        is_routable(s) && s.connected;
    all_counted(sv, one, two);
    assert(sv.len() == stats@.len());
    assert forall|i: int| 0 <= i < sv.len() implies (#[trigger] sv[i]).pad_count
        == stats@[i].pad_count && sv[i].connected == stats@[i].connected by {}
    if forall|i: int|
        0 <= i < stats@.len() && (#[trigger] stats@[i]).pad_count >= 2 ==> stats@[i].connected {
        assert forall|i: int| 0 <= i < sv.len() && one(#[trigger] sv[i]) implies two(sv[i]) by {
            assert(stats@[i].pad_count >= 2);
        }
    }
    if forall|i: int| 0 <= i < sv.len() && one(#[trigger] sv[i]) ==> two(sv[i]) {
        assert forall|i: int|
            0 <= i < stats@.len() && (#[trigger] stats@[i]).pad_count >= 2 implies stats@[i].connected by {
            assert(one(sv[i]));
        }
    }
    match drc {
        Some(d) => {
            let dv = d.deep_view();
            assert(drc.deep_view() == Some(dv));
            let open = |v: ViolationV| !v.excluded;
            let wrong = |v: ViolationV|
                counts_as(v, "error"@);
            none_counted(dv.unconnected_items, open);
            none_counted(dv.violations, wrong);
            assert forall|k: int| 0 <= k < dv.unconnected_items.len() implies (
            #[trigger] dv.unconnected_items[k]).excluded == d.unconnected_items@[k].excluded by {}
            assert forall|k: int| 0 <= k < dv.violations.len() implies (
            #[trigger] dv.violations[k]).excluded == d.violations@[k].excluded
                && dv.violations[k].severity == d.violations@[k].severity@ by {}
            if g.connectivity.passed {
                assert forall|k: int| 0 <= k < d.unconnected_items@.len() implies (
                #[trigger] d.unconnected_items@[k]).excluded by {
                    assert(!open(dv.unconnected_items[k]));
                }
            }
            if g.drc_errors.passed {
                assert forall|k: int|
                    0 <= k < d.violations@.len() && (#[trigger] d.violations@[k]).severity@
                        == "error"@ implies d.violations@[k].excluded by {
                    assert(!wrong(dv.violations[k]));
                }
            }
        },
        None => {},
    }
}

/// The report of a board scores zero where a net of two pads or more is not connected, where the
/// design rule check leaves an unconnected item standing, and where it leaves an error standing;
/// else its score is its quality.
pub proof fn reports_score_boards_without_faults(
    r: ScoreReport,
    c: ScoreContextV,
    path: Seq<char>,
    source: Seq<char>,
    version: Seq<char>,
    m: FamilyReals,
)
    requires
        is_report(r, c, path, source, version, m),
    ensures
        ({
            let loose = exists|i: int|
                0 <= i < c.net_stats.len() && (#[trigger] c.net_stats[i]).pad_count >= 2
                    && !c.net_stats[i].connected;
            let open = c.drc is Some && exists|k: int|
                0 <= k < c.drc->0.unconnected_items.len() && !(
                #[trigger] c.drc->0.unconnected_items[k]).excluded;
            let wrong = c.drc is Some && exists|k: int|
                0 <= k < c.drc->0.violations.len() && (#[trigger] c.drc->0.violations[k]).severity
                    == "error"@ && !c.drc->0.violations[k].excluded;
            &&& r.gates.connectivity.passed == !(loose || open)
            &&& r.gates.drc_errors.passed == !wrong
            &&& r.gates.passed == !(loose || open || wrong)
            &&& r.score == if loose || open || wrong {
                zero()
            } else {
                r.quality
            }
        }),
{
    let sv = c.net_stats;
    let one = |s: NetStatsV| is_routable(s);
    let two = |s: NetStatsV|
        is_routable(s) && s.connected;
    all_counted(sv, one, two);
    if forall|i: int| 0 <= i < sv.len() && one(#[trigger] sv[i]) ==> two(sv[i]) {
        assert forall|i: int| 0 <= i < sv.len() && (#[trigger] sv[i]).pad_count >= 2 implies sv[i].connected by {
            assert(one(sv[i]));
        }
    }
    if let Some(dv) = c.drc {
        let open = |v: ViolationV| !v.excluded;
        let wrong = |v: ViolationV|
            counts_as(v, "error"@);
        none_counted(dv.unconnected_items, open);
        none_counted(dv.violations, wrong);
        if places(dv.unconnected_items, open).len() == 0 {
            assert forall|k: int| 0 <= k < dv.unconnected_items.len() implies (
            #[trigger] dv.unconnected_items[k]).excluded by {
                assert(!open(dv.unconnected_items[k]));
            }
        }
        if places(dv.violations, wrong).len() == 0 {
            assert forall|k: int|
                0 <= k < dv.violations.len() && (#[trigger] dv.violations[k]).severity
                    == "error"@ implies dv.violations[k].excluded by {
                assert(!wrong(dv.violations[k]));
            }
        }
    }
}

} // verus!
