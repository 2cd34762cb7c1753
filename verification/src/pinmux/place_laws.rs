//! Why a request is placed where it is: no pin that is free would have served it at a lower price.
use vstd::prelude::*;

use crate::order::{is_permutation, permutation_is_onto, picked, ranking_is_stable};
use crate::pinmux::assign::{
    assigned, assignment_is_sound, clash, compatible, evaluation_order, path_cost, takes,
    total_cost, AssignOutcomeV,
};
use crate::pinmux::combo_laws::{
    combos_come_from_providers, earlier_for, exchange_costs, is_exact, is_wanted,
    pins_have_their_price, previous_goes_by_name, price, was_given,
};
use crate::pinmux::combos::{combo_of, combos_for, cut_text, served, Verdict, VerdictV};
use crate::pinmux::model::{ComboV, PrevAssign, PrevAssignV, RPeriph, RPeriphV, RPinV, RReq, RReqV};
use crate::pinmux::place::{
    all_free, first_claimed_out, free_combos, gathered_for, is_free, place, placed,
    placement_is_cheapest, Held, HeldV, Placement,
};
use crate::pinmux::value::{Value, ValueV};
use crate::pinmux::way_laws::{
    can_use, cut_is_told, fits_request, lock_lets, offers, served_are_those_that_fit, uses_pin,
};

verus! {

proof fn gathered_by_request(
    reqs: Seq<RReqV>,
    periphs: Seq<RPeriphV>,
    config: Seq<(Seq<char>, ValueV)>,
    previous: Seq<(Seq<char>, PrevAssignV)>,
    verdicts: Seq<Seq<VerdictV>>,
    n: nat,
    i: int,
)
    requires
        gathered_for(reqs, periphs, config, previous, verdicts, n).error is None,
        0 <= i < n,
    ensures
        ({
            let g = gathered_for(reqs, periphs, config, previous, verdicts, n);
            let c = combos_for(reqs[i], periphs, config, previous, verdicts[i]);
            &&& g.combos.len() == n
            &&& g.combos[i] == c.combos
            &&& forall|w: Seq<char>| c.warnings.contains(w) ==> #[trigger] g.warnings.contains(w)
        }),
    decreases n,
{
    let k = n - 1;
    let g = gathered_for(reqs, periphs, config, previous, verdicts, n);
    let front = gathered_for(reqs, periphs, config, previous, verdicts, k as nat);
    let c = combos_for(reqs[i], periphs, config, previous, verdicts[i]);
    if i < k {
        gathered_by_request(reqs, periphs, config, previous, verdicts, k as nat, i);
        assert forall|w: Seq<char>| c.warnings.contains(w) implies #[trigger] g.warnings.contains(
            w,
        ) by {
            assert(front.warnings.contains(w));
            let x = choose|x: int| 0 <= x < front.warnings.len() && front.warnings[x] == w;
            assert(g.warnings[x] == w);
        }
    } else {
        if k > 0 {
            gathered_by_request(reqs, periphs, config, previous, verdicts, k as nat, 0);
        }
        assert forall|w: Seq<char>| c.warnings.contains(w) implies #[trigger] g.warnings.contains(
            w,
        ) by {
            let x = choose|x: int| 0 <= x < c.warnings.len() && c.warnings[x] == w;
            assert(g.warnings[front.warnings.len() + x] == w);
        }
    }
}

proof fn free_are_all_there(combos: Seq<ComboV>, periphs: Seq<RPeriphV>, held: HeldV, c: ComboV)
    ensures
        free_combos(combos, periphs, held).contains(c) <==> combos.contains(c) && is_free(
            c,
            periphs,
            held,
        ),
    decreases combos.len(),
{
    if combos.len() > 0 {
        let rest = combos.drop_last();
        free_are_all_there(rest, periphs, held, c);
        let f = free_combos(rest, periphs, held);
        let r = free_combos(combos, periphs, held);
        if r.contains(c) {
            let i = choose|i: int| 0 <= i < r.len() && r[i] == c;
            if i < f.len() {
                assert(f[i] == c);
                let k = choose|k: int| 0 <= k < rest.len() && rest[k] == c;
                assert(combos[k] == c);
            } else {
                assert(combos[combos.len() - 1] == c);
            }
        }
        if combos.contains(c) && is_free(c, periphs, held) {
            let k = choose|k: int| 0 <= k < combos.len() && combos[k] == c;
            if k < rest.len() {
                assert(rest[k] == c);
                assert(f.contains(c));
                let i = choose|i: int| 0 <= i < f.len() && f[i] == c;
                assert(r[i] == c);
            } else {
                assert(r[r.len() - 1] == c);
            }
        }
    }
}

proof fn one_choice_changes_the_path(levels: Seq<Seq<ComboV>>, path: Seq<int>, at: int, o: int)
    requires
        0 <= at < path.len(),
    ensures
        path_cost(levels, path.update(at, o)) == path_cost(levels, path) - levels[at][path[at]].cost
            + levels[at][o].cost,
    decreases path.len(),
{
    let p = path.update(at, o);
    if at == path.len() - 1 {
        assert(p.drop_last() =~= path.drop_last());
    } else {
        assert(p.drop_last() =~= path.drop_last().update(at, o));
        one_choice_changes_the_path(levels, path.drop_last(), at, o);
    }
}

proof fn one_choice_changes_the_total(
    reqs: Seq<RReqV>,
    all: Seq<Seq<ComboV>>,
    chosen: Seq<int>,
    i: int,
    o: int,
)
    requires
        reqs.len() == all.len(),
        chosen.len() == all.len(),
        0 <= i < all.len(),
    ensures
        total_cost(all, evaluation_order(reqs, all), chosen.update(i, o)) == total_cost(
            all,
            evaluation_order(reqs, all),
            chosen,
        ) - all[i][chosen[i]].cost + all[i][o].cost,
{
    let order = evaluation_order(reqs, all);
    ranking_is_stable::<(bool, usize)>(
        Seq::new(reqs.len(), |i: int| (!reqs[i].lock, all[i].len() as usize)),
    );
    assert(is_permutation(order, all.len()));
    permutation_is_onto(order, all.len(), i);
    let at = choose|at: int| 0 <= at < order.len() && order[at] == i;
    let path = picked(chosen, order);
    assert(picked(chosen.update(i, o), order) =~= path.update(at, o)) by {
        assert forall|k: int| 0 <= k < order.len() implies picked(chosen.update(i, o), order)[k]
            == path.update(at, o)[k] by {
            if k != at {
                assert(order[k] != order[at]);
            }
        }
    }
    one_choice_changes_the_path(picked(all, order), path, at, o);
}

/// The words that say that the search was cut short.
pub open spec fn cut_short() -> Seq<char> {
    "pin_solve: solver budget (2000000 conflict checks) exhausted; the assignment is feasible but may be suboptimal"@
}

/// A chosen combo is one of the free combos of its request, the choice is sound, and, where no
/// warning says otherwise, it is cheapest.
proof fn choice_of(
    reqs: Seq<RReqV>,
    periphs: Seq<RPeriphV>,
    config: Seq<(Seq<char>, ValueV)>,
    previous: Seq<(Seq<char>, PrevAssignV)>,
    verdicts: Seq<Seq<VerdictV>>,
    held: HeldV,
) -> (chosen: Seq<int>)
    requires
        placed(reqs, periphs, config, previous, verdicts, held).outcome is Ok,
    ensures
        ({
            let p = placed(reqs, periphs, config, previous, verdicts, held);
            let g = gathered_for(reqs, periphs, config, previous, verdicts, reqs.len());
            let free = all_free(g.combos, periphs, held);
            let c = p.outcome->Ok_0;
            &&& g.error is None
            &&& g.combos.len() == reqs.len()
            &&& compatible(free, chosen)
            &&& c.len() == reqs.len()
            &&& forall|i: int| 0 <= i < reqs.len() ==> #[trigger] c[i] == free[i][chosen[i]]
            &&& forall|w: Seq<char>| g.warnings.contains(w) ==> #[trigger] p.warnings.contains(w)
            &&& !p.warnings.contains(cut_short()) ==> assigned(reqs, free) == (
            AssignOutcomeV::Solved { chosen, capped: false })
        }),
{
    let p = placed(reqs, periphs, config, previous, verdicts, held);
    let g = gathered_for(reqs, periphs, config, previous, verdicts, reqs.len());
    let free = all_free(g.combos, periphs, held);
    if reqs.len() > 0 {
        gathered_by_request(reqs, periphs, config, previous, verdicts, reqs.len(), 0);
    } else {
        assert(g.combos.len() == 0);
    }
    assert(!exists|i: int| #[trigger] first_claimed_out(free, i));
    assignment_is_sound(reqs, free);
    match assigned(reqs, free) {
        AssignOutcomeV::Solved { chosen, capped } => {
            assert forall|w: Seq<char>| g.warnings.contains(w) implies #[trigger] p.warnings.contains(
                w,
            ) by {
                let x = choose|x: int| 0 <= x < g.warnings.len() && g.warnings[x] == w;
                assert(p.warnings[x] == w);
            }
            if capped {
                assert(p.warnings[p.warnings.len() - 1] == cut_short());
            }
            chosen
        },
        _ => Seq::empty(),
    }
}

/// A request is placed on no pin for which a free one would have been cheaper: another pin that its
/// provider offers for the signal, that the request can use, and that neither another solve nor any
/// request of this one has taken, costs at least as much. So it is not placed on a strapping pin
/// where a plain pin of the same declared cost is free, unless the request names one of the two or
/// had one of them before. Where warnings say that the search or the pin maps were cut short, nothing
/// is said.
pub proof fn no_free_pin_is_cheaper(
    reqs: Vec<RReq>,
    periphs: Vec<RPeriph>,
    config: Vec<(String, Value)>,
    previous: Vec<(String, PrevAssign)>,
    verdicts: Vec<Vec<Verdict>>,
    held: Held,
    r: Placement,
    prev: Option<PrevAssignV>,
    i: int,
    k: int,
    q: RPinV,
)
    requires
        place.ensures((&reqs, &periphs, &config, &previous, &verdicts, &held), r),
        r.outcome is Ok,
        0 <= i < reqs@.len(),
        reqs.deep_view()[i].uses.no_duplicates(),
        earlier_for(previous.deep_view(), reqs@[i].name@, prev),
        !r.warnings.deep_view().contains(cut_short()),
        ({
            let c = r.outcome->Ok_0.deep_view();
            let req = reqs.deep_view()[i];
            let p = periphs.deep_view()[c[i].periph_idx as int];
            let old_pin = c[i].pins[k].1;
            &&& 0 <= k < c[i].pins.len()
            &&& is_exact(c[i])
            &&& !r.warnings.deep_view().contains(cut_text(req.name, p.name))
            &&& offers(p, req.uses[k], q)
            &&& can_use(req, q)
            &&& req.lock ==> !is_wanted(req, old_pin.name) && !is_wanted(req, q.name)
            &&& !held.deep_view().pins.contains(q.name)
            &&& forall|j: int| 0 <= j < c.len() ==> !uses_pin((#[trigger] c[j]).pins, q.name)
        }),
    ensures
        ({
            let c = r.outcome->Ok_0.deep_view();
            let req = reqs.deep_view()[i];
            let sig = req.uses[k];
            let old_pin = c[i].pins[k].1;
            &&& price(req, prev, sig, old_pin) <= price(req, prev, sig, q)
            &&& !q.strap && q.cost == old_pin.cost && !is_wanted(req, q.name) && !is_wanted(
                req,
                old_pin.name,
            ) && !was_given(prev, sig, q.name) && !was_given(prev, sig, old_pin.name)
                ==> !old_pin.strap
        }),
{
    let rv = reqs.deep_view();
    let pv = periphs.deep_view();
    let (cv, ov, vv, hv) = (
        config.deep_view(),
        previous.deep_view(),
        verdicts.deep_view(),
        held.deep_view(),
    );
    assert(pv.len() == periphs.len());
    assert(rv.len() == reqs@.len());
    let chosen = choice_of(rv, pv, cv, ov, vv, hv);
    let pl = placed(rv, pv, cv, ov, vv, hv);
    let g = gathered_for(rv, pv, cv, ov, vv, rv.len());
    let free = all_free(g.combos, pv, hv);
    let c = r.outcome->Ok_0.deep_view();
    assert(pl.outcome->Ok_0 == c);
    let req = rv[i];
    assert(req.name == reqs@[i].name@);
    let sig = req.uses[k];
    let x = c[i];
    previous_goes_by_name(ov, req.name, prev);
    gathered_by_request(rv, pv, cv, ov, vv, rv.len(), i);
    let all = g.combos[i];
    assert(0 <= chosen[i] < free[i].len());
    assert(x == free[i][chosen[i]]);
    assert(free[i].contains(x));
    free_are_all_there(all, pv, hv, x);
    combos_come_from_providers(req, pv, cv, ov, vv[i], x);
    let at = x.periph_idx;
    let p = pv[at as int];
    let verdict = vv[i][at as int];
    served_are_those_that_fit(req, p, at, cv, prev, verdict, x);
    // The same way, but for the pin of this signal.
    let old_pin = x.pins[k].1;
    let map = x.pins.update(k, (sig, q));
    let y = combo_of(req, p, at, prev, map);
    assert(!uses_pin(x.pins, q.name));
    assert(fits_request(req, p, map)) by {
        assert forall|m: int| 0 <= m < map.len() implies {
            &&& (#[trigger] map[m]).0 == req.uses[m]
            &&& offers(p, req.uses[m], map[m].1)
            &&& can_use(req, map[m].1)
            &&& lock_lets(req, req.uses[m], map[m].1.name)
        } by {
            assert(x.pins[m].0 == req.uses[m]);
            if m == k {
                assert(lock_lets(req, sig, old_pin.name));
                if req.lock {
                    assert forall|e: int|
                        0 <= e < req.prefer.by_signal.len() && (
                        #[trigger] req.prefer.by_signal[e]).0
                            == sig implies req.prefer.by_signal[e].1.contains(q.name) by {
                        assert(req.prefer.by_signal[e].1.contains(old_pin.name));
                    }
                }
            }
        }
        assert forall|m: int, o: int| 0 <= m < o < map.len() implies (#[trigger] map[m]).1.name != (
        #[trigger] map[o]).1.name by {
            assert(x.pins[m].1.name != x.pins[o].1.name);
            assert(x.pins[m].1.name != q.name);
            assert(x.pins[o].1.name != q.name);
        }
        if req.lock {
            assert forall|e: int| 0 <= e < req.prefer.any.len() implies uses_pin(
                map,
                #[trigger] req.prefer.any[e],
            ) by {
                assert(uses_pin(x.pins, req.prefer.any[e]));
                let m = choose|m: int|
                    0 <= m < x.pins.len() && (#[trigger] x.pins[m]).1.name == req.prefer.any[e];
                assert(req.prefer.any.contains(req.prefer.any[e]));
                assert(m != k);
                assert(map[m].1.name == req.prefer.any[e]);
            }
        }
    }
    if served(req, p, at, cv, prev, verdict).cut {
        cut_is_told(req, pv, cv, prev, vv[i], pv.len(), at as int);
        assert(g.warnings.contains(cut_text(req.name, p.name)));
        assert(pl.warnings.contains(cut_text(req.name, p.name)));
    }
    served_are_those_that_fit(req, p, at, cv, prev, verdict, y);
    combos_come_from_providers(req, pv, cv, ov, vv[i], y);
    assert(is_free(y, pv, hv)) by {
        assert forall|m: int| 0 <= m < y.pins.len() implies !hv.pins.contains(
            (#[trigger] y.pins[m]).1.name,
        ) by {
            assert(!hv.pins.contains(x.pins[m].1.name));
        }
    }
    free_are_all_there(all, pv, hv, y);
    let o = choose|o: int| 0 <= o < free[i].len() && free[i][o] == y;
    let other = chosen.update(i, o);
    assert(compatible(free, other)) by {
        assert forall|m: int, n: int|
            0 <= m < other.len() && 0 <= n < other.len() && m != n implies !clash(
            free[m][#[trigger] other[m]],
            free[n][#[trigger] other[n]],
        ) by {
            assert(!clash(free[m][chosen[m]], free[n][chosen[n]]));
            assert(!uses_pin(c[m].pins, q.name));
            assert(!uses_pin(c[n].pins, q.name));
            if m == i {
                apart_with_another_pin(x, y, c[n], k, q);
            } else if n == i {
                apart_with_another_pin(x, y, c[m], k, q);
            }
        }
        assert forall|m: int| 0 <= m < other.len() implies 0 <= (#[trigger] other[m])
            < free[m].len() by {
            assert(0 <= chosen[m] < free[m].len());
        }
    }
    placement_is_cheapest(rv, pv, cv, ov, vv, hv, other);
    one_choice_changes_the_total(rv, free, chosen, i, o);
    assert(x.cost <= y.cost);
    exchange_costs(req, prev, x.pins, map, k);
    pins_have_their_price(req, prev, x.pins[k]);
    pins_have_their_price(req, prev, map[k]);
}

proof fn apart_with_another_pin(x: ComboV, y: ComboV, z: ComboV, k: int, q: RPinV)
    requires
        0 <= k < x.pins.len(),
        y.periph_idx == x.periph_idx,
        y.pins == x.pins.update(k, (x.pins[k].0, q)),
        !clash(x, z) || !clash(z, x),
        !uses_pin(z.pins, q.name),
    ensures
        !clash(y, z),
        !clash(z, y),
{
    assert forall|pin: Seq<char>| !(#[trigger] takes(y, pin) && takes(z, pin)) by {
        if takes(y, pin) && takes(z, pin) {
            let m = choose|m: int| 0 <= m < y.pins.len() && (#[trigger] y.pins[m]).1.name == pin;
            let n = choose|n: int| 0 <= n < z.pins.len() && (#[trigger] z.pins[n]).1.name == pin;
            if m == k {
                assert(uses_pin(z.pins, q.name));
            } else {
                assert(x.pins[m].1.name == pin);
                assert(takes(x, pin));
                assert(takes(z, pin));
            }
        }
    }
}

} // verus!
