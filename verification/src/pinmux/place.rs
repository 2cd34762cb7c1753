//! Placing the requests: candidate combos, claims of earlier solves, joint assignment.
use vstd::prelude::*;

use crate::duplicate::Duplicate;
use crate::order::{as_ints, ranking_is_stable};
use crate::pinmux::assign::{
    assign, assigned, assignment_is_sound, clash, compatible, evaluation_order, sorted_by_cost,
    total_cost, AssignOutcome, AssignOutcomeV,
};
use crate::pinmux::combos::{
    all_sized, combo_ranks, combos_are_cheapest_first, combos_for, combos_for_request, gathered,
    ordered_combos, previous_for, Combos, Verdict, VerdictV,
};
use crate::pinmux::model::{Combo, ComboV, PrevAssign, PrevAssignV, RPeriph, RPeriphV, RReq, RReqV};
use crate::pinmux::prepare::{names_of, periph_names, req_names};
use crate::pinmux::value::{Value, ValueV};
use crate::text::{cat3, cat5, decimal, holds, join, joined, size_text};

verus! {

/// What a solve of the module claimed: for which request, on which instance, which pins.
pub struct Claim {
    pub request: String,
    pub instance: String,
    pub pins: Vec<String>,
}

/// The value of a `Claim`.
#[verifier::ext_equal]
pub struct ClaimV {
    pub request: Seq<char>,
    pub instance: Seq<char>,
    pub pins: Seq<Seq<char>>,
}

impl DeepView for Claim {
    type V = ClaimV;

    open spec fn deep_view(&self) -> ClaimV {
        ClaimV { request: self.request@, instance: self.instance@, pins: self.pins.deep_view() }
    }
}

/// The claim counts against the solve: it belongs to another request, on a peripheral of this
/// table.
pub open spec fn counts(c: ClaimV, reqs: Seq<RReqV>, periphs: Seq<RPeriphV>) -> bool {
    !req_names(reqs).contains(c.request) && periph_names(periphs).contains(c.instance)
}

/// The claims that count against the solve.
pub open spec fn counted(claims: Seq<ClaimV>, reqs: Seq<RReqV>, periphs: Seq<RPeriphV>) -> Seq<ClaimV>
    decreases claims.len(),
{
    if claims.len() == 0 {
        Seq::empty()
    } else {
        let front = counted(claims.drop_last(), reqs, periphs);
        if counts(claims.last(), reqs, periphs) {
            front.push(claims.last())
        } else {
            front
        }
    }
}

/// The instances of the claims.
pub open spec fn claim_instances(claims: Seq<ClaimV>) -> Seq<Seq<char>> {
    Seq::new(claims.len(), |i: int| claims[i].instance)
}

/// The pins of the claims.
pub open spec fn claim_pins(claims: Seq<ClaimV>) -> Seq<Seq<char>>
    decreases claims.len(),
{
    if claims.len() == 0 {
        Seq::empty()
    } else {
        claim_pins(claims.drop_last()) + claims.last().pins
    }
}

/// The instances and pins that other solves of the module hold.
pub struct Held {
    pub instances: Vec<String>,
    pub pins: Vec<String>,
}

/// The value of `Held`.
#[verifier::ext_equal]
pub struct HeldV {
    pub instances: Seq<Seq<char>>,
    pub pins: Seq<Seq<char>>,
}

impl DeepView for Held {
    type V = HeldV;

    open spec fn deep_view(&self) -> HeldV {
        HeldV { instances: self.instances.deep_view(), pins: self.pins.deep_view() }
    }
}

/// What other solves of the module hold on the peripherals of this table.
pub open spec fn held_by(claims: Seq<ClaimV>, reqs: Seq<RReqV>, periphs: Seq<RPeriphV>) -> HeldV {
    let c = counted(claims, reqs, periphs);
    HeldV { instances: claim_instances(c), pins: claim_pins(c) }
}

/// What other solves of the module hold on the peripherals of this table.
pub fn find_held(claims: &Vec<Claim>, reqs: &Vec<RReq>, periphs: &Vec<RPeriph>) -> (r: Held)
    ensures
        r.deep_view() == held_by(claims.deep_view(), reqs.deep_view(), periphs.deep_view()),
{
    let ghost cv = claims.deep_view();
    let ghost rv = reqs.deep_view();
    let ghost pv = periphs.deep_view();
    let current = names_of(reqs);
    let ours = periph_names_of(periphs);
    let n: usize = claims.len();
    let mut instances: Vec<String> = Vec::new();
    let mut pins: Vec<String> = Vec::new();
    let mut i: usize = 0;
    assert(instances.deep_view() =~= claim_instances(counted(cv.take(0), rv, pv)));
    assert(pins.deep_view() =~= claim_pins(counted(cv.take(0), rv, pv)));
    while i < n
        invariant
            n == claims@.len(),
            cv == claims.deep_view(),
            rv == reqs.deep_view(),
            pv == periphs.deep_view(),
            current.deep_view() == req_names(rv),
            ours.deep_view() == periph_names(pv),
            i <= n,
            instances.deep_view() == claim_instances(counted(cv.take(i as int), rv, pv)),
            pins.deep_view() == claim_pins(counted(cv.take(i as int), rv, pv)),
        decreases n - i,
    {
        let ghost front = counted(cv.take(i as int), rv, pv);
        let ghost c = cv[i as int];
        assert(cv.take(i + 1).drop_last() =~= cv.take(i as int));
        assert(c == claims@[i as int].deep_view());
        if !holds(&current, claims[i].request.as_str()) && holds(&ours, claims[i].instance.as_str()) {
            let ghost before = instances.deep_view();
            let ghost pins0 = pins.deep_view();
            instances.push(claims[i].instance.clone());
            assert(instances.deep_view() =~= before.push(c.instance));
            assert(instances.deep_view() =~= claim_instances(front.push(c)));
            let mut more = claims[i].pins.duplicate();
            let ghost mv = more.deep_view();
            pins.append(&mut more);
            assert(pins.deep_view() =~= pins0 + mv);
            assert(front.push(c).drop_last() =~= front);
        }
        i += 1;
    }
    assert(cv.take(n as int) =~= cv);
    Held { instances, pins }
}

/// The names of the peripherals.
pub fn periph_names_of(periphs: &Vec<RPeriph>) -> (r: Vec<String>)
    ensures
        r.deep_view() == periph_names(periphs.deep_view()),
{
    let mut names: Vec<String> = Vec::new();
    let m: usize = periphs.len();
    let mut k: usize = 0;
    while k < m
        invariant
            m == periphs@.len(),
            k <= m,
            names@.len() == k,
            forall|j: int| 0 <= j < k ==> (#[trigger] names@[j])@ == periphs@[j].name@,
        decreases m - k,
    {
        names.push(periphs[k].name.clone());
        k += 1;
    }
    assert(names.deep_view() =~= periph_names(periphs.deep_view()));
    names
}

/// The rejections in words.
pub open spec fn reject_lines(rejects: Seq<(Seq<char>, Seq<char>)>) -> Seq<Seq<char>> {
    Seq::new(rejects.len(), |i: int| "  "@ + rejects[i].0 + ": rejected — "@ + rejects[i].1)
}

/// The complaint about a request without a candidate.
pub open spec fn no_candidate_text(r: RReqV, rejects: Seq<(Seq<char>, Seq<char>)>) -> Seq<char> {
    "pin_solve: request `"@ + r.name + "` ("@ + r.iface_name + ") has no candidate:\n"@ + joined(
        reject_lines(rejects),
        "\n"@,
    )
}

/// The combos of the requests, or the first request without any.
pub struct Gathered {
    pub combos: Vec<Vec<Combo>>,
    /// Requests whose pin maps were cut off.
    pub cut: Vec<String>,
    pub warnings: Vec<String>,
    pub error: Option<String>,
}

/// The value of `Gathered`.
#[verifier::ext_equal]
pub struct GatheredV {
    pub combos: Seq<Seq<ComboV>>,
    pub cut: Seq<Seq<char>>,
    pub warnings: Seq<Seq<char>>,
    pub error: Option<Seq<char>>,
}

impl DeepView for Gathered {
    type V = GatheredV;

    open spec fn deep_view(&self) -> GatheredV {
        GatheredV {
            combos: self.combos.deep_view(),
            cut: self.cut.deep_view(),
            warnings: self.warnings.deep_view(),
            error: self.error.deep_view(),
        }
    }
}

/// The combos of the first `n` requests, up to the first request without any.
pub open spec fn gathered_for(
    reqs: Seq<RReqV>,
    periphs: Seq<RPeriphV>,
    config: Seq<(Seq<char>, ValueV)>,
    previous: Seq<(Seq<char>, PrevAssignV)>,
    verdicts: Seq<Seq<VerdictV>>,
    n: nat,
) -> GatheredV
    decreases n,
{
    if n == 0 {
        GatheredV {
            combos: Seq::empty(),
            cut: Seq::empty(),
            warnings: Seq::empty(),
            error: None,
        }
    } else {
        let k = n - 1;
        let front = gathered_for(reqs, periphs, config, previous, verdicts, k as nat);
        if front.error is Some {
            front
        } else {
            let c = combos_for(reqs[k], periphs, config, previous, verdicts[k]);
            GatheredV {
                combos: if c.combos.len() > 0 {
                    front.combos.push(c.combos)
                } else {
                    front.combos
                },
                cut: if c.truncated {
                    front.cut.push(reqs[k].name)
                } else {
                    front.cut
                },
                warnings: front.warnings + c.warnings,
                error: if c.combos.len() > 0 {
                    None
                } else {
                    Some(no_candidate_text(reqs[k], c.rejects))
                },
            }
        }
    }
}

proof fn gather_failure_stays(
    reqs: Seq<RReqV>,
    periphs: Seq<RPeriphV>,
    config: Seq<(Seq<char>, ValueV)>,
    previous: Seq<(Seq<char>, PrevAssignV)>,
    verdicts: Seq<Seq<VerdictV>>,
    k: nat,
    n: nat,
)
    requires
        k <= n,
        gathered_for(reqs, periphs, config, previous, verdicts, k).error is Some,
    ensures
        gathered_for(reqs, periphs, config, previous, verdicts, n) == gathered_for(
            reqs,
            periphs,
            config,
            previous,
            verdicts,
            k,
        ),
    decreases n - k,
{
    if k < n {
        gather_failure_stays(reqs, periphs, config, previous, verdicts, k, (n - 1) as nat);
    }
}

fn list_rejects(rejects: &Vec<(String, String)>) -> (r: String)
    ensures
        r@ == joined(reject_lines(rejects.deep_view()), "\n"@),
{
    let ghost rv = rejects.deep_view();
    let n: usize = rejects.len();
    let mut out: Vec<String> = Vec::new();
    let mut i: usize = 0;
    while i < n
        invariant
            n == rejects@.len(),
            rv == rejects.deep_view(),
            i <= n,
            out@.len() == i,
            forall|j: int| 0 <= j < i ==> (#[trigger] out@[j])@ == reject_lines(rv)[j],
        decreases n - i,
    {
        assert(rv[i as int] == (rejects@[i as int].0@, rejects@[i as int].1@));
        out.push(
            cat3("  ", rejects[i].0.as_str(), ": rejected — ").concat(rejects[i].1.as_str()),
        );
        i += 1;
    }
    assert(out.deep_view() =~= reject_lines(rv));
    join(&out, "\n")
}

/// The provider index of each combo is below `n`.
pub open spec fn all_within(combos: Seq<Combo>, n: int) -> bool {
    forall|i: int| 0 <= i < combos.len() ==> (#[trigger] combos[i]).periph_idx < n
}

/// The combos of the requests, up to the first request without any.
pub fn gather_combos(
    reqs: &Vec<RReq>,
    periphs: &Vec<RPeriph>,
    config: &Vec<(String, Value)>,
    previous: &Vec<(String, PrevAssign)>,
    verdicts: &Vec<Vec<Verdict>>,
) -> (r: Gathered)
    requires
        verdicts@.len() == reqs@.len(),
        forall|i: int| 0 <= i < verdicts@.len() ==> (#[trigger] verdicts@[i])@.len() == periphs@.len(),
    ensures
        r.deep_view() == gathered_for(
            reqs.deep_view(),
            periphs.deep_view(),
            config.deep_view(),
            previous.deep_view(),
            verdicts.deep_view(),
            reqs@.len(),
        ),
        r.error is None ==> r.combos@.len() == reqs@.len(),
        forall|i: int| 0 <= i < r.combos@.len() ==> (#[trigger] r.combos@[i])@.len() > 0,
        forall|i: int|
            0 <= i < r.combos@.len() ==> all_within(#[trigger] r.combos@[i]@, periphs@.len() as int),
        r.combos@.len() <= reqs@.len(),
        forall|i: int|
            0 <= i < r.combos@.len() ==> all_sized(
                #[trigger] r.combos@[i]@,
                reqs@[i].uses@.len() as int,
            ),
{
    let ghost rv = reqs.deep_view();
    let ghost pv = periphs.deep_view();
    let ghost cv = config.deep_view();
    let ghost bv = previous.deep_view();
    let ghost vv = verdicts.deep_view();
    let n: usize = reqs.len();
    let mut combos: Vec<Vec<Combo>> = Vec::new();
    let mut cut: Vec<String> = Vec::new();
    let mut warnings: Vec<String> = Vec::new();
    let mut i: usize = 0;
    assert(combos.deep_view() =~= Seq::empty());
    assert(cut.deep_view() =~= Seq::empty());
    assert(warnings.deep_view() =~= Seq::empty());
    while i < n
        invariant
            n == reqs@.len(),
            n == verdicts@.len(),
            forall|k: int|
                0 <= k < verdicts@.len() ==> (#[trigger] verdicts@[k])@.len() == periphs@.len(),
            rv == reqs.deep_view(),
            pv == periphs.deep_view(),
            cv == config.deep_view(),
            bv == previous.deep_view(),
            vv == verdicts.deep_view(),
            i <= n,
            combos@.len() == i,
            forall|k: int| 0 <= k < i ==> (#[trigger] combos@[k])@.len() > 0,
            forall|k: int| 0 <= k < i ==> all_within(#[trigger] combos@[k]@, periphs@.len() as int),
            forall|k: int|
                0 <= k < i ==> all_sized(#[trigger] combos@[k]@, reqs@[k].uses@.len() as int),
            gathered_for(rv, pv, cv, bv, vv, i as nat) == (GatheredV {
                combos: combos.deep_view(),
                cut: cut.deep_view(),
                warnings: warnings.deep_view(),
                error: None,
            }),
        decreases n - i,
    {
        let ghost c0 = combos.deep_view();
        let ghost t0 = cut.deep_view();
        let ghost w0 = warnings.deep_view();
        assert(rv[i as int] == reqs@[i as int].deep_view());
        assert(vv[i as int] == verdicts@[i as int].deep_view());
        let found = combos_for_request(&reqs[i], periphs, config, previous, &verdicts[i]);
        let ghost fv = found.deep_view();
        let Combos { combos: list, rejects, truncated, warnings: mut more } = found;
        warnings.append(&mut more);
        assert(warnings.deep_view() =~= w0 + fv.warnings);
        if truncated {
            cut.push(reqs[i].name.clone());
            assert(cut.deep_view() =~= t0.push(rv[i as int].name));
        }
        if list.len() == 0 {
            let detail = list_rejects(&rejects);
            let text = cat5(
                "pin_solve: request `",
                reqs[i].name.as_str(),
                "` (",
                reqs[i].iface_name.as_str(),
                ") has no candidate:\n",
            ).concat(detail.as_str());
            proof {
                gather_failure_stays(rv, pv, cv, bv, vv, (i + 1) as nat, n as nat);
            }
            return Gathered { combos, cut, warnings, error: Some(text) };
        }
        combos.push(list);
        assert(combos.deep_view() =~= c0.push(fv.combos));
        i += 1;
    }
    Gathered { combos, cut, warnings, error: None }
}

/// The combo takes nothing that is held.
pub open spec fn is_free(c: ComboV, periphs: Seq<RPeriphV>, held: HeldV) -> bool {
    !held.instances.contains(periphs[c.periph_idx as int].name) && forall|i: int|
        0 <= i < c.pins.len() ==> !held.pins.contains((#[trigger] c.pins[i]).1.name)
}

/// The combos that take nothing that is held.
pub open spec fn free_combos(combos: Seq<ComboV>, periphs: Seq<RPeriphV>, held: HeldV) -> Seq<ComboV>
    decreases combos.len(),
{
    if combos.len() == 0 {
        Seq::empty()
    } else {
        let front = free_combos(combos.drop_last(), periphs, held);
        if is_free(combos.last(), periphs, held) {
            front.push(combos.last())
        } else {
            front
        }
    }
}

/// The combos of all the requests that take nothing that is held.
pub open spec fn all_free(all: Seq<Seq<ComboV>>, periphs: Seq<RPeriphV>, held: HeldV) -> Seq<
    Seq<ComboV>,
> {
    Seq::new(all.len(), |i: int| free_combos(all[i], periphs, held))
}

/// Request `i` is the first one that is left without a combo.
pub open spec fn first_claimed_out(free: Seq<Seq<ComboV>>, i: int) -> bool {
    &&& 0 <= i < free.len()
    &&& free[i].len() == 0
    &&& forall|j: int| 0 <= j < i ==> (#[trigger] free[j]).len() > 0
}

/// The complaint about a request whose candidates are all claimed.
pub open spec fn claimed_text(r: RReqV) -> Seq<char> {
    "pin_solve: request `"@ + r.name
        + "`: every candidate uses a pin or instance already claimed by an earlier pin_solve in this module"@
}

fn keep_free(combos: &Vec<Combo>, periphs: &Vec<RPeriph>, held: &Held) -> (r: Vec<Combo>)
    requires
        all_within(combos@, periphs@.len() as int),
    ensures
        r.deep_view() == free_combos(combos.deep_view(), periphs.deep_view(), held.deep_view()),
        all_within(r@, periphs@.len() as int),
        forall|n: int| all_sized(combos@, n) ==> #[trigger] all_sized(r@, n),
{
    let ghost cv = combos.deep_view();
    let ghost pv = periphs.deep_view();
    let ghost hv = held.deep_view();
    let n: usize = combos.len();
    let mut out: Vec<Combo> = Vec::new();
    let mut i: usize = 0;
    assert(out.deep_view() =~= Seq::empty());
    while i < n
        invariant
            n == combos@.len(),
            all_within(combos@, periphs@.len() as int),
            all_within(out@, periphs@.len() as int),
            forall|n: int| all_sized(combos@, n) ==> #[trigger] all_sized(out@, n),
            cv == combos.deep_view(),
            pv == periphs.deep_view(),
            hv == held.deep_view(),
            i <= n,
            out.deep_view() == free_combos(cv.take(i as int), pv, hv),
        decreases n - i,
    {
        let ghost before = out.deep_view();
        assert(cv.take(i + 1).drop_last() =~= cv.take(i as int));
        let c = &combos[i];
        let ghost one = c.deep_view();
        assert(cv[i as int] == one);
        let mut free = !holds(&held.instances, periphs[c.periph_idx].name.as_str());
        assert(pv[c.periph_idx as int].name == periphs@[c.periph_idx as int].name@);
        let m: usize = c.pins.len();
        let mut k: usize = 0;
        while k < m && free
            invariant
                m == c.pins@.len(),
                one == c.deep_view(),
                hv == held.deep_view(),
                pv == periphs.deep_view(),
                k <= m,
                free ==> !hv.instances.contains(pv[one.periph_idx as int].name) && forall|j: int|
                    0 <= j < k ==> !hv.pins.contains((#[trigger] one.pins[j]).1.name),
                !free ==> !is_free(one, pv, hv),
            decreases m - k,
        {
            assert(one.pins[k as int].1.name == c.pins@[k as int].1.name@);
            if holds(&held.pins, c.pins[k].1.name.as_str()) {
                free = false;
            }
            k += 1;
        }
        assert(free == is_free(one, pv, hv));
        if free {
            let ghost listed = out@;
            let copy = c.duplicate();
            assert(copy.deep_view().pins.len() == c.deep_view().pins.len());
            out.push(copy);
            assert forall|n: int| all_sized(combos@, n) implies #[trigger] all_sized(out@, n) by {
                assert(all_sized(listed, n));
                assert(combos@[i as int].pins@.len() == n);
            }
            assert(out.deep_view() =~= before.push(one));
        }
        i += 1;
    }
    assert(cv.take(n as int) =~= cv);
    out
}

/// The candidate counts in words.
pub open spec fn count_lines(reqs: Seq<RReqV>, all: Seq<Seq<ComboV>>) -> Seq<Seq<char>> {
    Seq::new(
        reqs.len(),
        |i: int| "  "@ + reqs[i].name + ": "@ + decimal(all[i].len()) + " candidate combo(s)"@,
    )
}

/// The detail of a failure: the candidate counts, and the requests whose pin maps were cut off.
pub open spec fn failure_detail(
    reqs: Seq<RReqV>,
    all: Seq<Seq<ComboV>>,
    cut: Seq<Seq<char>>,
) -> Seq<char> {
    let counts = joined(count_lines(reqs, all), "\n"@);
    if cut.len() == 0 {
        counts
    } else {
        counts + "\nnote: pin combinations for `"@ + joined(cut, "`, `"@)
            + "` were capped at 512; a feasible assignment may have been dropped — constrain those requests (instance=/prefer=) to narrow the enumeration"@
    }
}

fn describe_failure(reqs: &Vec<RReq>, all: &Vec<Vec<Combo>>, cut: &Vec<String>) -> (r: String)
    requires
        reqs@.len() == all@.len(),
    ensures
        r@ == failure_detail(reqs.deep_view(), all.deep_view(), cut.deep_view()),
{
    let ghost rv = reqs.deep_view();
    let ghost av = all.deep_view();
    let n: usize = reqs.len();
    let mut lines: Vec<String> = Vec::new();
    let mut i: usize = 0;
    while i < n
        invariant
            n == reqs@.len(),
            n == all@.len(),
            rv == reqs.deep_view(),
            av == all.deep_view(),
            i <= n,
            lines@.len() == i,
            forall|j: int| 0 <= j < i ==> (#[trigger] lines@[j])@ == count_lines(rv, av)[j],
        decreases n - i,
    {
        let count = size_text(all[i].len());
        lines.push(
            cat5("  ", reqs[i].name.as_str(), ": ", count.as_str(), " candidate combo(s)"),
        );
        i += 1;
    }
    assert(lines.deep_view() =~= count_lines(rv, av));
    let counts = join(&lines, "\n");
    if cut.len() == 0 {
        counts
    } else {
        let names = join(cut, "`, `");
        counts.concat("\nnote: pin combinations for `").concat(names.as_str()).concat(
            "` were capped at 512; a feasible assignment may have been dropped — constrain those requests (instance=/prefer=) to narrow the enumeration",
        )
    }
}

/// The chosen combos, by request.
pub open spec fn chosen_combos(all: Seq<Seq<ComboV>>, chosen: Seq<int>) -> Seq<ComboV> {
    Seq::new(all.len(), |i: int| all[i][chosen[i]])
}

/// What placing the requests comes to: warnings, and one combo for each request or the reason
/// for the failure.
pub struct Placement {
    pub warnings: Vec<String>,
    pub outcome: Result<Vec<Combo>, String>,
}

/// The value of a `Placement`.
pub struct PlacementV {
    pub warnings: Seq<Seq<char>>,
    pub outcome: Result<Seq<ComboV>, Seq<char>>,
}

impl DeepView for Placement {
    type V = PlacementV;

    open spec fn deep_view(&self) -> PlacementV {
        PlacementV {
            warnings: self.warnings.deep_view(),
            outcome: match self.outcome {
                Ok(c) => Ok(c.deep_view()),
                Err(e) => Err(e@),
            },
        }
    }
}

/// What the joint assignment of the free combos comes to.
pub open spec fn assigned_placement(
    reqs: Seq<RReqV>,
    free: Seq<Seq<ComboV>>,
    cut: Seq<Seq<char>>,
    warnings: Seq<Seq<char>>,
) -> PlacementV {
    match assigned(reqs, free) {
        AssignOutcomeV::Solved { chosen, capped } => PlacementV {
            warnings: if capped {
                warnings.push(
                    "pin_solve: solver budget (2000000 conflict checks) exhausted; the assignment is feasible but may be suboptimal"@,
                )
            } else {
                warnings
            },
            outcome: Ok(chosen_combos(free, chosen)),
        },
        AssignOutcomeV::Infeasible => PlacementV {
            warnings,
            outcome: Err(
                "pin_solve: no feasible assignment (instance/pin exclusivity):\n"@
                    + failure_detail(reqs, free, cut),
            ),
        },
        AssignOutcomeV::Unknown => PlacementV {
            warnings,
            outcome: Err(
                "pin_solve: search budget exhausted before feasibility could be proven; constrain requests (instance=/prefer=) to narrow the search:\n"@
                    + failure_detail(reqs, free, cut),
            ),
        },
    }
}

/// What placing the requests comes to.
pub open spec fn placed(
    reqs: Seq<RReqV>,
    periphs: Seq<RPeriphV>,
    config: Seq<(Seq<char>, ValueV)>,
    previous: Seq<(Seq<char>, PrevAssignV)>,
    verdicts: Seq<Seq<VerdictV>>,
    held: HeldV,
) -> PlacementV {
    let g = gathered_for(reqs, periphs, config, previous, verdicts, reqs.len());
    match g.error {
        Some(e) => PlacementV { warnings: g.warnings, outcome: Err(e) },
        None => {
            let free = all_free(g.combos, periphs, held);
            if exists|i: int| #[trigger] first_claimed_out(free, i) {
                let i = choose|i: int| #[trigger] first_claimed_out(free, i);
                PlacementV { warnings: g.warnings, outcome: Err(claimed_text(reqs[i])) }
            } else {
                assigned_placement(reqs, free, g.cut, g.warnings)
            }
        },
    }
}

/// Places the requests: one combo for each, no instance or pin twice, none that is held.
pub fn place(
    reqs: &Vec<RReq>,
    periphs: &Vec<RPeriph>,
    config: &Vec<(String, Value)>,
    previous: &Vec<(String, PrevAssign)>,
    verdicts: &Vec<Vec<Verdict>>,
    held: &Held,
) -> (r: Placement)
    requires
        verdicts@.len() == reqs@.len(),
        forall|i: int| 0 <= i < verdicts@.len() ==> (#[trigger] verdicts@[i])@.len() == periphs@.len(),
    ensures
        r.deep_view() == placed(
            reqs.deep_view(),
            periphs.deep_view(),
            config.deep_view(),
            previous.deep_view(),
            verdicts.deep_view(),
            held.deep_view(),
        ),
        match r.outcome {
            Ok(c) => c@.len() == reqs@.len() && all_within(c@, periphs@.len() as int) && forall|i: int|
                0 <= i < c@.len() ==> (#[trigger] c@[i]).pins@.len() == reqs@[i].uses@.len(),
            Err(_) => true,
        },
{
    let ghost rv = reqs.deep_view();
    let ghost pv = periphs.deep_view();
    let ghost hv = held.deep_view();
    let g = gather_combos(reqs, periphs, config, previous, verdicts);
    let ghost gv = g.deep_view();
    let Gathered { combos, cut, mut warnings, error } = g;
    if let Some(e) = error {
        return Placement { warnings, outcome: Err(e) };
    }
    let ghost free_v = all_free(gv.combos, pv, hv);
    let n: usize = combos.len();
    let mut free: Vec<Vec<Combo>> = Vec::new();
    let mut i: usize = 0;
    while i < n
        invariant
            n == combos@.len(),
            n == reqs@.len(),
            forall|k: int| 0 <= k < combos@.len() ==> all_within(#[trigger] combos@[k]@, periphs@.len() as int),
            forall|k: int|
                0 <= k < combos@.len() ==> all_sized(#[trigger] combos@[k]@, reqs@[k].uses@.len() as int),
            combos.deep_view() == gv.combos,
            rv == reqs.deep_view(),
            pv == periphs.deep_view(),
            hv == held.deep_view(),
            free_v == all_free(gv.combos, pv, hv),
            warnings.deep_view() == gv.warnings,
            placed(
                reqs.deep_view(),
                periphs.deep_view(),
                config.deep_view(),
                previous.deep_view(),
                verdicts.deep_view(),
                held.deep_view(),
            ) == if exists|k: int| #[trigger] first_claimed_out(free_v, k) {
                let k = choose|k: int| #[trigger] first_claimed_out(free_v, k);
                PlacementV { warnings: gv.warnings, outcome: Err(claimed_text(rv[k])) }
            } else {
                assigned_placement(rv, free_v, gv.cut, gv.warnings)
            },
            i <= n,
            free@.len() == i,
            forall|k: int| 0 <= k < i ==> (#[trigger] free@[k]).deep_view() == free_v[k],
            forall|k: int| 0 <= k < i ==> (#[trigger] free_v[k]).len() > 0,
            forall|k: int| 0 <= k < i ==> all_within(#[trigger] free@[k]@, periphs@.len() as int),
            forall|k: int| 0 <= k < i ==> all_sized(#[trigger] free@[k]@, reqs@[k].uses@.len() as int),
        decreases n - i,
    {
        assert(gv.combos[i as int] == combos@[i as int].deep_view());
        assert(all_within(combos@[i as int]@, periphs@.len() as int));
        assert(all_sized(combos@[i as int]@, reqs@[i as int].uses@.len() as int));
        let kept = keep_free(&combos[i], periphs, held);
        assert(all_sized(kept@, reqs@[i as int].uses@.len() as int));
        assert(kept.deep_view() == free_v[i as int]);
        if kept.len() == 0 {
            proof {
                assert(first_claimed_out(free_v, i as int));
                let k = choose|k: int| #[trigger] first_claimed_out(free_v, k);
                assert(k == i) by {
                    if k < i {
                        assert(free_v[k].len() > 0);
                    } else if i < k {
                        assert(free_v[i as int].len() > 0);
                    }
                }
            }
            let text = cat3(
                "pin_solve: request `",
                reqs[i].name.as_str(),
                "`: every candidate uses a pin or instance already claimed by an earlier pin_solve in this module",
            );
            return Placement { warnings, outcome: Err(text) };
        }
        free.push(kept);
        i += 1;
    }
    assert(free.deep_view() =~= free_v);
    assert(!exists|k: int| #[trigger] first_claimed_out(free_v, k));
    assert forall|k: int| 0 <= k < free@.len() implies (#[trigger] free@[k])@.len() > 0 by {
        assert(free@[k].deep_view() == free_v[k]);
    }
    match assign(reqs, &free) {
        AssignOutcome::Solved { chosen, capped } => {
            proof {
                assignment_is_sound(rv, free_v);
            }
            let ghost ch = as_ints(chosen@);
            assert(compatible(free_v, ch));
            if capped {
                let ghost w0 = warnings.deep_view();
                warnings.push(
                    "pin_solve: solver budget (2000000 conflict checks) exhausted; the assignment is feasible but may be suboptimal".to_string(),
                );
                assert(warnings.deep_view() =~= w0.push(
                    "pin_solve: solver budget (2000000 conflict checks) exhausted; the assignment is feasible but may be suboptimal"@,
                ));
            }
            let mut out: Vec<Combo> = Vec::new();
            let mut k: usize = 0;
            while k < n
                invariant
                    n == free@.len(),
                    n == chosen@.len(),
                    ch == as_ints(chosen@),
                    compatible(free_v, ch),
                    free.deep_view() == free_v,
                    forall|j: int|
                        0 <= j < free@.len() ==> all_within(#[trigger] free@[j]@, periphs@.len() as int),
                    k <= n,
                    out@.len() == k,
                    forall|j: int| 0 <= j < k ==> (#[trigger] out@[j]).deep_view() == chosen_combos(free_v, ch)[j],
                    all_within(out@, periphs@.len() as int),
                    forall|j: int|
                        0 <= j < free@.len() ==> all_sized(
                            #[trigger] free@[j]@,
                            reqs@[j].uses@.len() as int,
                        ),
                    forall|j: int| 0 <= j < k ==> (#[trigger] out@[j]).pins@.len() == reqs@[j].uses@.len(),
                decreases n - k,
            {
                assert(0 <= ch[k as int] < free_v[k as int].len());
                assert(free_v[k as int] == free@[k as int].deep_view());
                assert(all_within(free@[k as int]@, periphs@.len() as int));
                let at: usize = chosen[k];
                let c = free[k][at].duplicate();
                assert(c.deep_view() == free_v[k as int][ch[k as int]]);
                assert(free@[k as int]@[at as int].periph_idx < periphs@.len());
                assert(all_sized(free@[k as int]@, reqs@[k as int].uses@.len() as int));
                assert(free@[k as int]@[at as int].pins@.len() == reqs@[k as int].uses@.len());
                assert(c.deep_view().pins.len() == c.pins@.len());
                out.push(c);
                k += 1;
            }
            assert(out.deep_view() =~= chosen_combos(free_v, ch));
            Placement { warnings, outcome: Ok(out) }
        },
        AssignOutcome::Infeasible => {
            let detail = describe_failure(reqs, &free, &cut);
            Placement {
                warnings,
                outcome: Err(
                    "pin_solve: no feasible assignment (instance/pin exclusivity):\n".to_string().concat(
                        detail.as_str(),
                    ),
                ),
            }
        },
        AssignOutcome::Unknown => {
            let detail = describe_failure(reqs, &free, &cut);
            Placement {
                warnings,
                outcome: Err(
                    "pin_solve: search budget exhausted before feasibility could be proven; constrain requests (instance=/prefer=) to narrow the search:\n".to_string().concat(
                        detail.as_str(),
                    ),
                ),
            }
        },
    }
}

/// What is filtered keeps its order of cost.
proof fn free_combos_stay_sorted(combos: Seq<ComboV>, periphs: Seq<RPeriphV>, held: HeldV)
    requires
        forall|i: int, j: int|
            0 <= i <= j < combos.len() ==> (#[trigger] combos[i]).cost <= (#[trigger] combos[j]).cost,
    ensures
        forall|i: int, j: int|
            0 <= i <= j < free_combos(combos, periphs, held).len() ==> (
            #[trigger] free_combos(combos, periphs, held)[i]).cost <= (#[trigger] free_combos(
                combos,
                periphs,
                held,
            )[j]).cost,
        forall|i: int|
            0 <= i < free_combos(combos, periphs, held).len() ==> combos.contains(
                #[trigger] free_combos(combos, periphs, held)[i],
            ) && is_free(free_combos(combos, periphs, held)[i], periphs, held),
    decreases combos.len(),
{
    if combos.len() > 0 {
        let rest = combos.drop_last();
        assert forall|i: int, j: int| 0 <= i <= j < rest.len() implies (#[trigger] rest[i]).cost <= (
        #[trigger] rest[j]).cost by {
            assert(combos[i].cost <= combos[j].cost);
        }
        free_combos_stay_sorted(rest, periphs, held);
        let front = free_combos(rest, periphs, held);
        let r = free_combos(combos, periphs, held);
        assert forall|i: int| 0 <= i < r.len() implies combos.contains(#[trigger] r[i]) && is_free(
            r[i],
            periphs,
            held,
        ) by {
            if i < front.len() {
                assert(r[i] == front[i]);
                let k = choose|k: int| 0 <= k < rest.len() && rest[k] == front[i];
                assert(combos[k] == front[i]);
            } else {
                assert(r[i] == combos[combos.len() - 1]);
            }
        }
        assert forall|i: int, j: int| 0 <= i <= j < r.len() implies (#[trigger] r[i]).cost <= (
        #[trigger] r[j]).cost by {
            if j < front.len() {
                assert(r[i] == front[i] && r[j] == front[j]);
            } else if i < front.len() {
                assert(r[i] == front[i]);
                let k = choose|k: int| 0 <= k < rest.len() && rest[k] == front[i];
                assert(combos[k].cost <= combos[combos.len() - 1].cost);
            }
        }
    }
}

/// A placement gives each request an instance and pins that no other solve of the module holds.
pub proof fn placements_are_free(
    reqs: Seq<RReqV>,
    periphs: Seq<RPeriphV>,
    config: Seq<(Seq<char>, ValueV)>,
    previous: Seq<(Seq<char>, PrevAssignV)>,
    verdicts: Seq<Seq<VerdictV>>,
    held: HeldV,
    i: int,
)
    requires
        0 <= i < reqs.len(),
    ensures
        placed(reqs, periphs, config, previous, verdicts, held).outcome matches Ok(c) ==> {
            &&& c.len() == reqs.len()
            &&& is_free(c[i], periphs, held)
        },
{
    let g = gathered_for(reqs, periphs, config, previous, verdicts, reqs.len());
    gather_counts(reqs, periphs, config, previous, verdicts, reqs.len());
    if g.error is None {
        let free = all_free(g.combos, periphs, held);
        if !exists|k: int| #[trigger] first_claimed_out(free, k) {
            assignment_is_sound(reqs, free);
            match assigned(reqs, free) {
                AssignOutcomeV::Solved { chosen, capped } => {
                    assert(0 <= chosen[i] < free[i].len());
                    gathered_are_sorted(reqs, periphs, config, previous, verdicts, reqs.len(), i);
                    free_combos_stay_sorted(g.combos[i], periphs, held);
                    assert(free[i][chosen[i]] == free_combos(g.combos[i], periphs, held)[chosen[i]]);
                },
                _ => {},
            }
        }
    }
}

/// Exclusivity: a placement gives no two requests one instance or one pin.
pub proof fn placement_is_exclusive(
    reqs: Seq<RReqV>,
    periphs: Seq<RPeriphV>,
    config: Seq<(Seq<char>, ValueV)>,
    previous: Seq<(Seq<char>, PrevAssignV)>,
    verdicts: Seq<Seq<VerdictV>>,
    held: HeldV,
    i: int,
    j: int,
)
    requires
        0 <= i < reqs.len(),
        0 <= j < reqs.len(),
        i != j,
    ensures
        placed(reqs, periphs, config, previous, verdicts, held).outcome matches Ok(c) ==> {
            &&& c.len() == reqs.len()
            &&& !clash(c[i], c[j])
        },
{
    let g = gathered_for(reqs, periphs, config, previous, verdicts, reqs.len());
    gather_counts(reqs, periphs, config, previous, verdicts, reqs.len());
    if g.error is None {
        let free = all_free(g.combos, periphs, held);
        if !exists|k: int| #[trigger] first_claimed_out(free, k) {
            assignment_is_sound(reqs, free);
            match assigned(reqs, free) {
                AssignOutcomeV::Solved { chosen, capped } => {
                    assert(!clash(free[i][chosen[i]], free[j][chosen[j]]));
                },
                _ => {},
            }
        }
    }
}

proof fn gather_counts(
    reqs: Seq<RReqV>,
    periphs: Seq<RPeriphV>,
    config: Seq<(Seq<char>, ValueV)>,
    previous: Seq<(Seq<char>, PrevAssignV)>,
    verdicts: Seq<Seq<VerdictV>>,
    n: nat,
)
    ensures
        gathered_for(reqs, periphs, config, previous, verdicts, n).error is None ==> gathered_for(
            reqs,
            periphs,
            config,
            previous,
            verdicts,
            n,
        ).combos.len() == n,
    decreases n,
{
    if n > 0 {
        gather_counts(reqs, periphs, config, previous, verdicts, (n - 1) as nat);
    }
}

proof fn gathered_are_sorted(
    reqs: Seq<RReqV>,
    periphs: Seq<RPeriphV>,
    config: Seq<(Seq<char>, ValueV)>,
    previous: Seq<(Seq<char>, PrevAssignV)>,
    verdicts: Seq<Seq<VerdictV>>,
    n: nat,
    r: int,
)
    requires
        gathered_for(reqs, periphs, config, previous, verdicts, n).error is None,
        0 <= r < n,
    ensures
        forall|i: int, j: int|
            0 <= i <= j < gathered_for(
                reqs,
                periphs,
                config,
                previous,
                verdicts,
                n,
            ).combos[r].len() ==> (#[trigger] gathered_for(
                reqs,
                periphs,
                config,
                previous,
                verdicts,
                n,
            ).combos[r][i]).cost <= (#[trigger] gathered_for(
                reqs,
                periphs,
                config,
                previous,
                verdicts,
                n,
            ).combos[r][j]).cost,
    decreases n,
{
    let k = n - 1;
    let g = gathered_for(reqs, periphs, config, previous, verdicts, n);
    gather_counts(reqs, periphs, config, previous, verdicts, k as nat);
    if r < k {
        gathered_are_sorted(reqs, periphs, config, previous, verdicts, k as nat, r);
    } else {
        let raw = gathered(
            reqs[k],
            periphs,
            config,
            previous_for(previous, reqs[k].name),
            verdicts[k],
            periphs.len(),
        ).combos;
        let c = g.combos[r];
        assert(c == ordered_combos(periphs, raw));
        assert forall|i: int, j: int| 0 <= i <= j < c.len() implies (#[trigger] c[i]).cost <= (
        #[trigger] c[j]).cost by {
            ranking_is_stable::<(i64, (String, String))>(combo_ranks(periphs, raw));
            combos_are_cheapest_first(periphs, raw, i, j);
        }
    }
}

/// Optimality: where the search was not cut short, no other choice among the requests' free
/// combos is cheaper in total.
pub proof fn placement_is_cheapest(
    reqs: Seq<RReqV>,
    periphs: Seq<RPeriphV>,
    config: Seq<(Seq<char>, ValueV)>,
    previous: Seq<(Seq<char>, PrevAssignV)>,
    verdicts: Seq<Seq<VerdictV>>,
    held: HeldV,
    other: Seq<int>,
)
    requires
        gathered_for(reqs, periphs, config, previous, verdicts, reqs.len()).error is None,
        compatible(
            all_free(
                gathered_for(reqs, periphs, config, previous, verdicts, reqs.len()).combos,
                periphs,
                held,
            ),
            other,
        ),
    ensures
        ({
            let free = all_free(
                gathered_for(reqs, periphs, config, previous, verdicts, reqs.len()).combos,
                periphs,
                held,
            );
            &&& assigned(reqs, free) !is Infeasible
            &&& assigned(reqs, free) matches AssignOutcomeV::Solved { chosen, capped } ==> !capped
                ==> total_cost(free, evaluation_order(reqs, free), chosen) <= total_cost(
                free,
                evaluation_order(reqs, free),
                other,
            )
        }),
{
    let g = gathered_for(reqs, periphs, config, previous, verdicts, reqs.len());
    let free = all_free(g.combos, periphs, held);
    gather_counts(reqs, periphs, config, previous, verdicts, reqs.len());
    assert(sorted_by_cost(free)) by {
        assert forall|k: int, i: int, j: int|
            0 <= k < free.len() && 0 <= i <= j < free[k].len() implies (#[trigger] free[k][i]).cost <= (
        #[trigger] free[k][j]).cost by {
            gathered_are_sorted(reqs, periphs, config, previous, verdicts, reqs.len(), k);
            free_combos_stay_sorted(g.combos[k], periphs, held);
        }
    }
    assignment_is_sound(reqs, free);
}

} // verus!
