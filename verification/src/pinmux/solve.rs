//! The solve: deterministic joint assignment of instances and pins, and what it reports.
use vstd::prelude::*;

use crate::duplicate::Duplicate;
use crate::json::{contents_are_json_values, Json, JsonV};
use crate::pinmux::access::contents_are_values;
use crate::pinmux::combos::Verdict;
use crate::pinmux::merge::{
    make_swap_reports, merge_assignment, merge_swaps, merged_assignment, merged_swaps,
    swap_reports, Known, KnownV,
};
use crate::pinmux::model::{Combo, ComboV, PrevAssign, PrevAssignV, RPeriph, RPeriphV, RReq, RReqV};
use crate::pinmux::parse::{parse_previous, previous_in};
use crate::pinmux::place::{
    all_within, find_held, held_by, periph_names_of, place, placed, Claim, ClaimV, Placement,
};
use crate::pinmux::prepare::{names_of, periph_names, req_names};
use crate::pinmux::report::{
    all_strap_warnings, assignment_json, combo_pins, find_free_pins, free_pins_of, json_to_value,
    make_assignment, pins_of, used_pins, value_of_json,
};
use crate::pinmux::swaps::{
    cluster_classes_of, find_cluster_classes, find_pool_classes, pool_classes_of, well_placed,
};
use crate::pinmux::value::{Value, ValueV};

verus! {

/// What the module holds from its earlier solves: their claims, and the two properties that
/// they left.
pub struct Ledger {
    pub claims: Vec<Claim>,
    pub assignment: Option<Json>,
    pub swap_classes: Option<Json>,
}

/// The value of a `Ledger`.
pub struct LedgerV {
    pub claims: Seq<ClaimV>,
    pub assignment: Option<JsonV>,
    pub swap_classes: Option<JsonV>,
}

impl DeepView for Ledger {
    type V = LedgerV;

    open spec fn deep_view(&self) -> LedgerV {
        LedgerV {
            claims: self.claims.deep_view(),
            assignment: self.assignment.deep_view(),
            swap_classes: self.swap_classes.deep_view(),
        }
    }
}

/// What a solve gives: the value for its caller, the two properties for the module, and the
/// claims to record.
pub struct Solved {
    pub value: Value,
    pub assignment: Json,
    pub swap_classes: Json,
    pub claims: Vec<Claim>,
}

/// The value of `Solved`.
pub struct SolvedV {
    pub value: ValueV,
    pub assignment: JsonV,
    pub swap_classes: JsonV,
    pub claims: Seq<ClaimV>,
}

impl DeepView for Solved {
    type V = SolvedV;

    open spec fn deep_view(&self) -> SolvedV {
        SolvedV {
            value: self.value.value(),
            assignment: self.assignment.value(),
            swap_classes: self.swap_classes.value(),
            claims: self.claims.deep_view(),
        }
    }
}

/// What a solve comes to: warnings, and the result or the reason for the failure.
pub struct SolveReport {
    pub warnings: Vec<String>,
    pub outcome: Result<Solved, String>,
}

/// The warning that an earlier assignment was of no use.
pub open spec fn previous_warnings(previous: Option<ValueV>) -> Seq<Seq<char>> {
    match previous {
        None => Seq::empty(),
        Some(v) => {
            let given: nat = match v {
                ValueV::Dict(d) => d.len(),
                _ => 1,
            };
            if previous_in(v).len() == 0 && given > 0 {
                seq![
                    "pin_solve: previous= contains no usable assignment entry; pass the `assignment` dict of a prior solve"@,
                ]
            } else {
                Seq::empty()
            }
        },
    }
}

/// What the earlier assignment gave.
pub open spec fn previous_entries(previous: Option<ValueV>) -> Seq<(Seq<char>, PrevAssignV)> {
    match previous {
        None => Seq::empty(),
        Some(v) => previous_in(v),
    }
}

/// The instances of the chosen combos.
pub open spec fn instances_of(periphs: Seq<RPeriphV>, chosen: Seq<ComboV>) -> Seq<Seq<char>> {
    Seq::new(chosen.len(), |i: int| periphs[chosen[i].periph_idx as int].name)
}

/// The pools of the table.
pub open spec fn pools_of(periphs: Seq<RPeriphV>) -> Seq<Seq<char>>
    decreases periphs.len(),
{
    if periphs.len() == 0 {
        Seq::empty()
    } else {
        let front = pools_of(periphs.drop_last());
        match periphs.last().pool {
            Some(p) => front.push(p),
            None => front,
        }
    }
}

/// The claims of the solve.
pub open spec fn claims_of(
    reqs: Seq<RReqV>,
    periphs: Seq<RPeriphV>,
    chosen: Seq<ComboV>,
) -> Seq<ClaimV> {
    Seq::new(
        reqs.len(),
        |i: int|
            ClaimV {
                request: reqs[i].name,
                instance: periphs[chosen[i].periph_idx as int].name,
                pins: combo_pins(chosen[i]),
            },
    )
}

/// The value that the caller of a solve gets.
pub open spec fn solve_value(
    assignment: JsonV,
    swap_classes: JsonV,
    free: Seq<Seq<char>>,
) -> ValueV {
    ValueV::Dict(
        seq![
            (ValueV::Str("assignment"@), value_of_json(assignment)),
            (ValueV::Str("swap_classes"@), value_of_json(swap_classes)),
            (
                ValueV::Str("free_pins"@),
                ValueV::List(Seq::new(free.len(), |i: int| ValueV::Str(free[i]))),
            ),
        ],
    )
}

/// What a placement of the requests gives.
pub open spec fn solved_with(
    reqs: Seq<RReqV>,
    periphs: Seq<RPeriphV>,
    chosen: Seq<ComboV>,
    ledger: LedgerV,
) -> SolvedV {
    let held = held_by(ledger.claims, reqs, periphs);
    let used = held.pins + pins_of(chosen);
    let taken = instances_of(periphs, chosen) + held.instances;
    let pools = pool_classes_of(reqs, periphs, chosen, used);
    let clusters = cluster_classes_of(reqs, periphs, chosen, taken);
    let members = assignment_json(reqs, periphs, chosen, used, reqs.len());
    let known = KnownV {
        solved: req_names(reqs),
        ours: periph_names(periphs),
        our_pools: pools_of(periphs),
        used,
        taken,
    };
    SolvedV {
        value: solve_value(
            JsonV::Object(members),
            JsonV::Array(swap_reports(pools, clusters)),
            free_pins_of(periphs, used),
        ),
        assignment: JsonV::Object(
            match ledger.assignment {
                Some(JsonV::Object(prior)) => merged_assignment(members, prior, known.ours, used),
                _ => members,
            },
        ),
        swap_classes: JsonV::Array(
            match ledger.swap_classes {
                Some(JsonV::Array(prior)) => merged_swaps(pools, clusters, prior, known),
                _ => swap_reports(pools, clusters),
            },
        ),
        claims: claims_of(reqs, periphs, chosen),
    }
}

fn find_pools_of(periphs: &Vec<RPeriph>) -> (r: Vec<String>)
    ensures
        r.deep_view() == pools_of(periphs.deep_view()),
{
    let ghost pv = periphs.deep_view();
    let n: usize = periphs.len();
    let mut out: Vec<String> = Vec::new();
    let mut i: usize = 0;
    assert(out.deep_view() =~= Seq::empty());
    while i < n
        invariant
            n == periphs@.len(),
            pv == periphs.deep_view(),
            i <= n,
            out.deep_view() == pools_of(pv.take(i as int)),
        decreases n - i,
    {
        let ghost before = out.deep_view();
        assert(pv.take(i + 1).drop_last() =~= pv.take(i as int));
        assert(pv[i as int] == periphs@[i as int].deep_view());
        if let Some(p) = &periphs[i].pool {
            out.push(p.clone());
            assert(out.deep_view() =~= before.push(p@));
        }
        i += 1;
    }
    assert(pv.take(n as int) =~= pv);
    out
}

fn find_taken(periphs: &Vec<RPeriph>, chosen: &Vec<Combo>, held: &Vec<String>) -> (r: Vec<String>)
    requires
        all_within(chosen@, periphs@.len() as int),
    ensures
        r.deep_view() == instances_of(periphs.deep_view(), chosen.deep_view()) + held.deep_view(),
{
    let ghost want = instances_of(periphs.deep_view(), chosen.deep_view());
    let n: usize = chosen.len();
    let mut out: Vec<String> = Vec::new();
    let mut i: usize = 0;
    while i < n
        invariant
            n == chosen@.len(),
            want == instances_of(periphs.deep_view(), chosen.deep_view()),
            all_within(chosen@, periphs@.len() as int),
            i <= n,
            out@.len() == i,
            forall|j: int| 0 <= j < i ==> (#[trigger] out@[j])@ == want[j],
        decreases n - i,
    {
        assert(chosen@[i as int].periph_idx < periphs@.len());
        out.push(periphs[chosen[i].periph_idx].name.clone());
        i += 1;
    }
    assert(out.deep_view() =~= want);
    let mut more = held.clone();
    assert(more.deep_view() =~= held.deep_view());
    out.append(&mut more);
    assert(out.deep_view() =~= want + held.deep_view());
    out
}

fn make_claims(reqs: &Vec<RReq>, periphs: &Vec<RPeriph>, chosen: &Vec<Combo>) -> (r: Vec<Claim>)
    requires
        well_placed(reqs@, periphs@, chosen@),
    ensures
        r.deep_view() == claims_of(reqs.deep_view(), periphs.deep_view(), chosen.deep_view()),
{
    let ghost want = claims_of(reqs.deep_view(), periphs.deep_view(), chosen.deep_view());
    let n: usize = reqs.len();
    let mut out: Vec<Claim> = Vec::new();
    let mut i: usize = 0;
    while i < n
        invariant
            n == reqs@.len(),
            want == claims_of(reqs.deep_view(), periphs.deep_view(), chosen.deep_view()),
            well_placed(reqs@, periphs@, chosen@),
            i <= n,
            out@.len() == i,
            forall|j: int| 0 <= j < i ==> (#[trigger] out@[j]).deep_view() == want[j],
        decreases n - i,
    {
        assert(chosen@[i as int].periph_idx < periphs@.len());
        let c = &chosen[i];
        let mut pins: Vec<String> = Vec::new();
        let m: usize = c.pins.len();
        let mut k: usize = 0;
        while k < m
            invariant
                m == c.pins@.len(),
                k <= m,
                pins@.len() == k,
                forall|j: int| 0 <= j < k ==> (#[trigger] pins@[j])@ == c.pins@[j].1.name@,
            decreases m - k,
        {
            pins.push(c.pins[k].1.name.clone());
            k += 1;
        }
        assert(pins.deep_view() =~= combo_pins(c.deep_view()));
        out.push(
            Claim {
                request: reqs[i].name.clone(),
                instance: periphs[c.periph_idx].name.clone(),
                pins,
            },
        );
        i += 1;
    }
    assert(out.deep_view() =~= want);
    out
}

fn make_value(assignment: &Json, swap_classes: &Json, free: &Vec<String>) -> (r: Value)
    ensures
        r.value() == solve_value(assignment.value(), swap_classes.value(), free.deep_view()),
{
    let ghost fv = free.deep_view();
    let n: usize = free.len();
    let mut list: Vec<Value> = Vec::new();
    let mut i: usize = 0;
    while i < n
        invariant
            n == free@.len(),
            fv == free.deep_view(),
            i <= n,
            list@.len() == i,
            forall|j: int| 0 <= j < i ==> (#[trigger] list@[j]).value() == ValueV::Str(fv[j]),
        decreases n - i,
    {
        list.push(Value::Str(free[i].clone()));
        i += 1;
    }
    assert(list.deep_view() =~= Seq::new(fv.len(), |i: int| ValueV::Str(fv[i])));
    let pins = Value::List(list);
    proof {
        contents_are_values(pins);
    }
    let mut d: Vec<(Value, Value)> = Vec::new();
    d.push((Value::Str("assignment".to_string()), json_to_value(assignment)));
    d.push((Value::Str("swap_classes".to_string()), json_to_value(swap_classes)));
    d.push((Value::Str("free_pins".to_string()), pins));
    let v = Value::Dict(d);
    proof {
        contents_are_values(v);
        assert(d.deep_view() =~= solve_value(
            assignment.value(),
            swap_classes.value(),
            fv,
        )->Dict_0);
    }
    v
}

/// What a placement of the requests gives, and the warnings about strapping pins.
pub fn report_solve(
    reqs: &Vec<RReq>,
    periphs: &Vec<RPeriph>,
    chosen: &Vec<Combo>,
    ledger: &Ledger,
) -> (r: (Solved, Vec<String>))
    requires
        well_placed(reqs@, periphs@, chosen@),
    ensures
        r.0.deep_view() == solved_with(
            reqs.deep_view(),
            periphs.deep_view(),
            chosen.deep_view(),
            ledger.deep_view(),
        ),
        r.1.deep_view() == all_strap_warnings(reqs.deep_view(), chosen.deep_view(), reqs@.len()),
{
    let held = find_held(&ledger.claims, reqs, periphs);
    let used = used_pins(&held.pins, chosen);
    let taken = find_taken(periphs, chosen, &held.instances);
    let pools = find_pool_classes(reqs, periphs, chosen, &used);
    let clusters = find_cluster_classes(reqs, periphs, chosen, &taken);
    let (members, warnings) = make_assignment(reqs, periphs, chosen, &used);
    let free = find_free_pins(periphs, &used);
    let claims = make_claims(reqs, periphs, chosen);
    let swaps = Json::Array(make_swap_reports(&pools, &clusters));
    proof {
        contents_are_json_values(swaps);
    }
    let known = Known {
        solved: names_of(reqs),
        ours: periph_names_of(periphs),
        our_pools: find_pools_of(periphs),
        used,
        taken,
    };
    let property_members = match &ledger.assignment {
        Some(j) => {
            proof {
                contents_are_json_values(*j);
            }
            match j {
                Json::Object(prior) => merge_assignment(&members, prior, &known.ours, &known.used),
                _ => members.duplicate(),
            }
        },
        None => members.duplicate(),
    };
    let property_swaps = match &ledger.swap_classes {
        Some(j) => {
            proof {
                contents_are_json_values(*j);
            }
            match j {
                Json::Array(prior) => Json::Array(merge_swaps(&pools, &clusters, prior, &known)),
                _ => swaps.copy(),
            }
        },
        None => swaps.copy(),
    };
    let assignment = Json::Object(members);
    let property_assignment = Json::Object(property_members);
    proof {
        contents_are_json_values(assignment);
        contents_are_json_values(property_assignment);
        contents_are_json_values(property_swaps);
    }
    let value = make_value(&assignment, &swaps, &free);
    (
        Solved {
            value,
            assignment: property_assignment,
            swap_classes: property_swaps,
            claims,
        },
        warnings,
    )
}

/// Deterministic joint assignment of instances and pins to the requests, with the predicates'
/// verdicts given by request and provider.
pub fn pin_solve(
    reqs: &Vec<RReq>,
    periphs: &Vec<RPeriph>,
    config: &Vec<(String, Value)>,
    previous: &Option<Value>,
    verdicts: &Vec<Vec<Verdict>>,
    ledger: &Ledger,
) -> (r: SolveReport)
    requires
        verdicts@.len() == reqs@.len(),
        forall|i: int| 0 <= i < verdicts@.len() ==> (#[trigger] verdicts@[i])@.len() == periphs@.len(),
        forall|i: int| 0 <= i < reqs@.len() ==> (#[trigger] reqs@[i]).uses@.len() > 0,
    ensures
        ({
            let rv = reqs.deep_view();
            let pv = periphs.deep_view();
            let first = previous_warnings(previous.deep_view());
            let p = placed(
                rv,
                pv,
                config.deep_view(),
                previous_entries(previous.deep_view()),
                verdicts.deep_view(),
                held_by(ledger.deep_view().claims, rv, pv),
            );
            match p.outcome {
                Ok(chosen) => {
                    &&& r.outcome matches Ok(s) && s.deep_view() == solved_with(
                        rv,
                        pv,
                        chosen,
                        ledger.deep_view(),
                    )
                    &&& r.warnings.deep_view() == first + p.warnings + all_strap_warnings(
                        rv,
                        chosen,
                        rv.len(),
                    )
                },
                Err(e) => {
                    &&& r.outcome matches Err(m) && m@ == e
                    &&& r.warnings.deep_view() == first + p.warnings
                },
            }
        }),
{
    let mut warnings: Vec<String> = Vec::new();
    let mut entries: Vec<(String, PrevAssign)> = Vec::new();
    assert(warnings.deep_view() =~= Seq::empty());
    assert(entries.deep_view() =~= Seq::empty());
    if let Some(v) = previous {
        entries = parse_previous(v);
        proof {
            contents_are_values(*v);
        }
        let given: usize = match v {
            Value::Dict(d) => d.len(),
            _ => 1,
        };
        if entries.len() == 0 && given > 0 {
            warnings.push(
                "pin_solve: previous= contains no usable assignment entry; pass the `assignment` dict of a prior solve".to_string(),
            );
            assert(warnings.deep_view() =~= previous_warnings(previous.deep_view()));
        }
    }
    assert(warnings.deep_view() == previous_warnings(previous.deep_view()));
    let held = find_held(&ledger.claims, reqs, periphs);
    let Placement { warnings: mut more, outcome } = place(
        reqs,
        periphs,
        config,
        &entries,
        verdicts,
        &held,
    );
    let ghost w0 = warnings.deep_view();
    let ghost w1 = more.deep_view();
    warnings.append(&mut more);
    assert(warnings.deep_view() =~= w0 + w1);
    match outcome {
        Ok(chosen) => {
            assert(well_placed(reqs@, periphs@, chosen@));
            let (solved, mut straps) = report_solve(reqs, periphs, &chosen, ledger);
            let ghost w2 = straps.deep_view();
            warnings.append(&mut straps);
            assert(warnings.deep_view() =~= w0 + w1 + w2);
            SolveReport { warnings, outcome: Ok(solved) }
        },
        Err(e) => SolveReport { warnings, outcome: Err(e) },
    }
}

} // verus!
