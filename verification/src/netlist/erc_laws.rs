//! What the electrical rule checks find on each net, and how much they find in all.
use vstd::prelude::*;

use crate::netlist::erc::{
    any_declares, budget_finding, budget_report, conflict_finding, declares_current, erc_nets,
    no_connect_findings, no_connect_report, run_schematic_erc, Component, Diagnostic, DiagnosticV,
    ErcNetV, NetPinAttachmentV, Severity,
};
use crate::netlist::fixed::fixed_below;
use crate::netlist::schematic::{find_attribute, find_physical, NetV, Schematic};
use crate::select::places;

verus! {

/// The net takes part in a current budget: it is connected, and not the ground.
pub open spec fn has_budget(net: NetV) -> bool {
    net.kind != "NotConnected"@ && net.kind != "Ground"@
}

/// What the net declares to source is less than what it declares to sink.
pub open spec fn falls_short(net: NetV) -> bool {
    &&& find_physical(net.properties, "current_source_total"@) is Some
    &&& find_physical(net.properties, "current_sink_total"@) is Some
    &&& fixed_below(
        find_physical(net.properties, "current_source_total"@)->0.nominal,
        find_physical(net.properties, "current_sink_total"@)->0.nominal,
    )
}

/// The net has no current: none is declared, and none was inferred on both sides.
pub open spec fn lacks_current(net: NetV) -> bool {
    &&& find_physical(net.properties, "current_source_total"@) is None
    &&& find_physical(net.properties, "current_sink_total"@) is None
    &&& find_attribute(net.properties, "current_source_static"@) is None || find_attribute(
        net.properties,
        "current_sink_static"@,
    ) is None
}

/// Signal declarations on the net were found to disagree.
pub open spec fn has_conflict(net: NetV) -> bool {
    &&& find_attribute(net.properties, "signal_conflict"@) is Some
    &&& find_attribute(net.properties, "signal_conflict"@)->0.list is Some
}

/// The finding has the category and severity, and points to where the net was declared.
pub open spec fn is_finding(d: DiagnosticV, e: ErcNetV, category: Seq<char>, s: Severity) -> bool {
    &&& d.category == category
    &&& d.severity == s
    &&& match e.metadata {
        Some(m) => d.path == m.path && d.span == m.span,
        None => d.path.len() == 0 && d.span is None,
    }
}

/// The places cut a list of the given length into `n` stretches.
pub open spec fn cuts(at: Seq<int>, n: nat, len: nat) -> bool {
    &&& at.len() == n + 1
    &&& at[0] == 0
    &&& at[n as int] == len
    &&& forall|i: int, j: int| 0 <= i <= j <= n ==> 0 <= #[trigger] at[i] <= #[trigger] at[j] <= len
}

/// The findings of one net: an error where its sources fall short of its sinks, a warning where it
/// has no current in a design that declares currents, a warning where its signal declarations
/// disagree, and nothing else; none at all on the ground and on nets without a connection.
pub open spec fn budget_judged(
    e: ErcNetV,
    net: NetV,
    declared: bool,
    found: Seq<DiagnosticV>,
) -> bool {
    let short = has_budget(net) && falls_short(net);
    let bare = has_budget(net) && declared && lacks_current(net);
    let torn = has_budget(net) && has_conflict(net);
    &&& found.len() == (if short || bare {
        1int
    } else {
        0
    }) + (if torn {
        1int
    } else {
        0
    })
    &&& short ==> is_finding(found[0], e, "erc.current_budget"@, Severity::Error)
    &&& bare ==> is_finding(found[0], e, "erc.current_budget.undeclared"@, Severity::Warning)
    &&& torn ==> is_finding(found.last(), e, "erc.signal_conflict"@, Severity::Warning)
}

proof fn more_cuts(at: Seq<int>, n: nat, len: nat, more: nat) -> (r: Seq<int>)
    requires
        cuts(at, n, len),
    ensures
        r == at.push((len + more) as int),
        cuts(r, n + 1, len + more),
{
    at.push((len + more) as int)
}

proof fn stretches_stay(a: Seq<DiagnosticV>, b: Seq<DiagnosticV>, at: Seq<int>, n: nat, i: int)
    requires
        cuts(at, n, a.len()),
        0 <= i < n,
    ensures
        (a + b).subrange(at[i], at[i + 1]) == a.subrange(at[i], at[i + 1]),
{
    assert(0 <= at[i] <= at[i + 1] <= a.len());
    assert((a + b).subrange(at[i], at[i + 1]) =~= a.subrange(at[i], at[i + 1]));
}

/// The check on current budgets goes net by net: its findings fall into one stretch for each net,
/// in the order of the nets, and each stretch says what is wrong with its net.
pub proof fn budgets_are_judged_by_net(known: Seq<ErcNetV>, nets: Seq<NetV>, declared: bool) -> (at:
    Seq<int>)
    requires
        known.len() >= nets.len(),
    ensures
        cuts(at, nets.len(), budget_report(known, nets, declared).len()),
        forall|i: int|
            0 <= i < nets.len() ==> budget_judged(
                known[i],
                #[trigger] nets[i],
                declared,
                budget_report(known, nets, declared).subrange(at[i], at[i + 1]),
            ),
    decreases nets.len(),
{
    if nets.len() == 0 {
        seq![0int]
    } else {
        let front = nets.drop_last();
        let before = budgets_are_judged_by_net(known, front, declared);
        let a = budget_report(known, front, declared);
        let all = budget_report(known, nets, declared);
        let net = nets.last();
        let e = known[nets.len() - 1];
        let more = all.skip(a.len() as int);
        assert(all =~= a + more);
        let at = more_cuts(before, front.len(), a.len(), more.len());
        assert forall|i: int| 0 <= i < nets.len() implies budget_judged(
            known[i],
            #[trigger] nets[i],
            declared,
            all.subrange(at[i], at[i + 1]),
        ) by {
            if i < front.len() {
                stretches_stay(a, more, before, front.len(), i);
                assert(front[i] == nets[i]);
                assert(at[i] == before[i] && at[i + 1] == before[i + 1]);
            } else {
                assert(all.subrange(at[i], at[i + 1]) =~= more);
                if has_budget(net) {
                    assert(more =~= budget_finding(e, net, declared) + conflict_finding(e, net));
                }
            }
        }
        at
    }
}

/// The finding has the category.
pub open spec fn of_category(category: Seq<char>) -> spec_fn(DiagnosticV) -> bool {
    |d: DiagnosticV| d.category == category
}

/// How many findings have the category.
pub open spec fn count_of(list: Seq<DiagnosticV>, category: Seq<char>) -> nat {
    places(list, of_category(category)).len()
}

proof fn counts_add(a: Seq<DiagnosticV>, b: Seq<DiagnosticV>, category: Seq<char>)
    ensures
        count_of(a + b, category) == count_of(a, category) + count_of(b, category),
    decreases b.len(),
{
    if b.len() == 0 {
        assert(a + b =~= a);
    } else {
        counts_add(a, b.drop_last(), category);
        assert((a + b).drop_last() =~= a + b.drop_last());
    }
}

proof fn count_one(d: DiagnosticV, category: Seq<char>)
    ensures
        count_of(seq![d], category) == if d.category == category {
            1nat
        } else {
            0
        },
{
    let one = seq![d];
    assert(one.drop_last() =~= Seq::empty());
    assert(places(one.drop_last(), of_category(category)).len() == 0);
    assert(one.last() == d);
}

proof fn categories_differ()
    ensures
        "erc.current_budget"@ != "erc.current_budget.undeclared"@,
        "erc.current_budget"@ != "erc.signal_conflict"@,
        "erc.current_budget"@ != "pin.no_connect"@,
        "erc.current_budget.undeclared"@ != "erc.signal_conflict"@,
        "erc.current_budget.undeclared"@ != "pin.no_connect"@,
        "erc.signal_conflict"@ != "pin.no_connect"@,
{
    reveal_strlit("erc.current_budget");
    reveal_strlit("erc.current_budget.undeclared");
    reveal_strlit("erc.signal_conflict");
    reveal_strlit("pin.no_connect");
    assert("erc.current_budget"@.len() == 18);
    assert("erc.current_budget.undeclared"@.len() == 29);
    assert("erc.signal_conflict"@.len() == 19);
    assert("pin.no_connect"@.len() == 14);
}

proof fn budget_counts(known: Seq<ErcNetV>, nets: Seq<NetV>, declared: bool)
    requires
        known.len() >= nets.len(),
    ensures
        ({
            let r = budget_report(known, nets, declared);
            &&& count_of(r, "erc.current_budget"@) == places(
                nets,
                |n: NetV| has_budget(n) && falls_short(n),
            ).len()
            &&& count_of(r, "erc.current_budget.undeclared"@) == places(
                nets,
                |n: NetV| has_budget(n) && declared && lacks_current(n),
            ).len()
            &&& count_of(r, "erc.signal_conflict"@) == places(
                nets,
                |n: NetV| has_budget(n) && has_conflict(n),
            ).len()
            &&& count_of(r, "pin.no_connect"@) == 0
        }),
    decreases nets.len(),
{
    if nets.len() > 0 {
        let front = nets.drop_last();
        budget_counts(known, front, declared);
        let net = nets.last();
        let e = known[nets.len() - 1];
        let a = budget_report(known, front, declared);
        let one = budget_finding(e, net, declared);
        let two = conflict_finding(e, net);
        categories_differ();
        let none = Seq::<DiagnosticV>::empty();
        assert(a + none =~= a);
        assert(none + none =~= none);
        let names = seq![
            "erc.current_budget"@,
            "erc.current_budget.undeclared"@,
            "erc.signal_conflict"@,
            "pin.no_connect"@,
        ];
        assert forall|k: int| 0 <= k < 4 implies count_of(
            budget_report(known, nets, declared),
            #[trigger] names[k],
        ) == count_of(a, names[k]) + if has_budget(net) {
            count_of(one, names[k]) + count_of(two, names[k])
        } else {
            0
        } by {
            counts_add(a, one + two, names[k]);
            counts_add(one, two, names[k]);
        }
        assert(names[0] == "erc.current_budget"@ && names[1] == "erc.current_budget.undeclared"@
            && names[2] == "erc.signal_conflict"@ && names[3] == "pin.no_connect"@);
        assert forall|k: int| 0 <= k < 4 implies count_of(one, #[trigger] names[k]) == if one.len()
            > 0 && one[0].category == names[k] {
            1nat
        } else {
            0
        } by {
            if one.len() > 0 {
                assert(one =~= seq![one[0]]);
                count_one(one[0], names[k]);
            }
        }
        assert forall|k: int| 0 <= k < 4 implies count_of(two, #[trigger] names[k]) == if two.len()
            > 0 && two[0].category == names[k] {
            1nat
        } else {
            0
        } by {
            if two.len() > 0 {
                assert(two =~= seq![two[0]]);
                count_one(two[0], names[k]);
            }
        }
    }
}

/// The pin must stay unconnected.
pub open spec fn stays_loose() -> spec_fn(NetPinAttachmentV) -> bool {
    |a: NetPinAttachmentV| a.pin_types.only_no_connect
}

/// How many pins that must stay unconnected are on nets that connect.
pub open spec fn loose_pins(known: Seq<ErcNetV>, nets: Seq<NetV>) -> nat
    decreases nets.len(),
{
    if nets.len() == 0 {
        0
    } else {
        loose_pins(known, nets.drop_last()) + if nets.last().kind == "NotConnected"@ {
            0
        } else {
            places(known[nets.len() - 1].pin_attachments, stays_loose()).len()
        }
    }
}

proof fn pin_counts(e: ErcNetV, net: NetV, list: Seq<NetPinAttachmentV>)
    ensures
        count_of(no_connect_findings(e, net, list), "pin.no_connect"@) == places(
            list,
            stays_loose(),
        ).len(),
        forall|k: int|
            0 <= k < no_connect_findings(e, net, list).len() ==> is_finding(
                #[trigger] no_connect_findings(e, net, list)[k],
                e,
                "pin.no_connect"@,
                Severity::Warning,
            ),
    decreases list.len(),
{
    if list.len() > 0 {
        pin_counts(e, net, list.drop_last());
        let all = no_connect_findings(e, net, list);
        let front = no_connect_findings(e, net, list.drop_last());
        if list.last().pin_types.only_no_connect {
            assert(all.drop_last() =~= front);
            assert(all.last().category == "pin.no_connect"@);
        }
    }
}

proof fn none_of(list: Seq<DiagnosticV>, category: Seq<char>)
    requires
        forall|k: int| 0 <= k < list.len() ==> (#[trigger] list[k]).category != category,
    ensures
        count_of(list, category) == 0,
    decreases list.len(),
{
    if list.len() > 0 {
        assert(list[list.len() - 1].category != category);
        assert forall|k: int| 0 <= k < list.drop_last().len() implies (
        #[trigger] list.drop_last()[k]).category != category by {
            assert(list.drop_last()[k] == list[k]);
        }
        none_of(list.drop_last(), category);
    }
}

proof fn no_connect_counts(known: Seq<ErcNetV>, nets: Seq<NetV>)
    requires
        known.len() >= nets.len(),
    ensures
        count_of(no_connect_report(known, nets), "pin.no_connect"@) == loose_pins(known, nets),
        forall|k: int|
            0 <= k < no_connect_report(known, nets).len() ==> {
                &&& (#[trigger] no_connect_report(known, nets)[k]).category == "pin.no_connect"@
                &&& no_connect_report(known, nets)[k].severity == Severity::Warning
            },
    decreases nets.len(),
{
    if nets.len() > 0 {
        let net = nets.last();
        let e = known[nets.len() - 1];
        no_connect_counts(known, nets.drop_last());
        pin_counts(e, net, e.pin_attachments);
        let a = no_connect_report(known, nets.drop_last());
        let b = if net.kind == "NotConnected"@ {
            Seq::empty()
        } else {
            no_connect_findings(e, net, e.pin_attachments)
        };
        counts_add(a, b, "pin.no_connect"@);
        let all = no_connect_report(known, nets);
        assert(all == a + b);
        assert forall|k: int| 0 <= k < all.len() implies (#[trigger] all[k]).category
            == "pin.no_connect"@ && all[k].severity == Severity::Warning by {
            if k < a.len() {
                assert(all[k] == a[k]);
            } else {
                assert(all[k] == b[k - a.len()]);
                assert(is_finding(b[k - a.len()], e, "pin.no_connect"@, Severity::Warning));
            }
        }
    }
}

/// The checks on a netlist find as much as is wrong with it: one error for each net with a budget
/// whose sources fall short of its sinks, one warning for each net with a budget but no current,
/// where some net declares a current, one warning for each net with a budget whose signal
/// declarations disagree, and one warning for each pin that must stay unconnected and is on a net
/// that connects.
pub proof fn as_much_is_found_as_is_wrong(
    components: Vec<Component>,
    schematic: Schematic,
    r: Vec<Diagnostic>,
)
    requires
        run_schematic_erc.ensures((&components, &schematic), r),
    ensures
        ({
            let nets = schematic.deep_view().nets;
            let found = r.deep_view();
            let declared = exists|i: int|
                0 <= i < nets.len() && (find_attribute(
                    (#[trigger] nets[i]).properties,
                    "current_sink_total"@,
                ) is Some || find_attribute(nets[i].properties, "current_source_total"@) is Some);
            &&& count_of(found, "erc.current_budget"@) == places(
                nets,
                |n: NetV| has_budget(n) && falls_short(n),
            ).len()
            &&& count_of(found, "erc.current_budget.undeclared"@) == places(
                nets,
                |n: NetV| has_budget(n) && declared && lacks_current(n),
            ).len()
            &&& count_of(found, "erc.signal_conflict"@) == places(
                nets,
                |n: NetV| has_budget(n) && has_conflict(n),
            ).len()
            &&& count_of(found, "pin.no_connect"@) == loose_pins(
                erc_nets(components.deep_view(), nets),
                nets,
            )
            &&& forall|k: int|
                0 <= k < found.len() && (#[trigger] found[k]).category == "erc.current_budget"@
                    ==> found[k].severity == Severity::Error
            &&& forall|k: int|
                0 <= k < found.len() && (#[trigger] found[k]).category != "erc.current_budget"@
                    ==> found[k].severity == Severity::Warning
        }),
{
    let nets = schematic.deep_view().nets;
    let known = erc_nets(components.deep_view(), nets);
    let declared = any_declares(nets);
    let found = r.deep_view();
    let a = no_connect_report(known, nets);
    let b = budget_report(known, nets, declared);
    assert(found == a + b);
    no_connect_counts(known, nets);
    budget_counts(known, nets, declared);
    categories_differ();
    counts_add(a, b, "erc.current_budget"@);
    counts_add(a, b, "erc.current_budget.undeclared"@);
    counts_add(a, b, "erc.signal_conflict"@);
    counts_add(a, b, "pin.no_connect"@);
    none_of(a, "erc.current_budget"@);
    none_of(a, "erc.current_budget.undeclared"@);
    none_of(a, "erc.signal_conflict"@);
    severities(known, nets, declared);
    assert forall|k: int| 0 <= k < found.len() implies (#[trigger] found[k]).severity == if found[k].category
        == "erc.current_budget"@ {
        Severity::Error
    } else {
        Severity::Warning
    } by {
        if k < a.len() {
            assert(found[k] == a[k]);
        } else {
            assert(found[k] == b[k - a.len()]);
        }
    }
    let said = exists|i: int|
        0 <= i < nets.len() && (find_attribute(
            (#[trigger] nets[i]).properties,
            "current_sink_total"@,
        ) is Some || find_attribute(nets[i].properties, "current_source_total"@) is Some);
    assert(said == declared) by {
        if declared {
            let i = choose|i: int|
                0 <= i < nets.len() && declares_current(#[trigger] nets[i]);
            assert(find_attribute(nets[i].properties, "current_sink_total"@) is Some
                || find_attribute(nets[i].properties, "current_source_total"@) is Some);
        }
    }
    let f = |n: NetV| has_budget(n) && declared && lacks_current(n);
    let g = |n: NetV| has_budget(n) && said && lacks_current(n);
    assert(f =~= g);
}

proof fn severities(known: Seq<ErcNetV>, nets: Seq<NetV>, declared: bool)
    requires
        known.len() >= nets.len(),
    ensures
        forall|k: int|
            0 <= k < budget_report(known, nets, declared).len() ==> (#[trigger] budget_report(
                known,
                nets,
                declared,
            )[k]).severity == if budget_report(known, nets, declared)[k].category
                == "erc.current_budget"@ {
                Severity::Error
            } else {
                Severity::Warning
            },
    decreases nets.len(),
{
    if nets.len() > 0 {
        severities(known, nets.drop_last(), declared);
        categories_differ();
        let a = budget_report(known, nets.drop_last(), declared);
        let all = budget_report(known, nets, declared);
        assert forall|k: int| 0 <= k < all.len() implies (#[trigger] all[k]).severity == if all[k].category
            == "erc.current_budget"@ {
            Severity::Error
        } else {
            Severity::Warning
        } by {
            if k < a.len() {
                assert(all[k] == a[k]);
            }
        }
    }
}

/// A net with a budget whose sources fall short of its sinks is reported, whatever its kind.
pub proof fn shortfalls_are_reported(
    components: Vec<Component>,
    schematic: Schematic,
    r: Vec<Diagnostic>,
    i: int,
)
    requires
        run_schematic_erc.ensures((&components, &schematic), r),
        0 <= i < schematic.deep_view().nets.len(),
        has_budget(schematic.deep_view().nets[i]),
        falls_short(schematic.deep_view().nets[i]),
    ensures
        exists|k: int|
            0 <= k < r@.len() && is_finding(
                (#[trigger] r@[k]).deep_view(),
                erc_nets(components.deep_view(), schematic.deep_view().nets)[i],
                "erc.current_budget"@,
                Severity::Error,
            ),
{
    let nets = schematic.deep_view().nets;
    let known = erc_nets(components.deep_view(), nets);
    let declared = any_declares(nets);
    let a = no_connect_report(known, nets);
    let b = budget_report(known, nets, declared);
    let at = budgets_are_judged_by_net(known, nets, declared);
    assert(budget_judged(known[i], nets[i], declared, b.subrange(at[i], at[i + 1])));
    assert(0 <= at[i] <= at[i + 1] <= b.len());
    let k = a.len() + at[i];
    assert(b.subrange(at[i], at[i + 1])[0] == b[at[i]]);
    assert(r.deep_view() == a + b);
    assert((a + b)[k] == b[at[i]]);
    assert(r.deep_view().len() == r@.len());
    assert(r@[k].deep_view() == r.deep_view()[k]);
}

} // verus!
