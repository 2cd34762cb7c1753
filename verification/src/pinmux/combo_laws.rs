//! Which ways there are to serve a request, and what each of them costs.
use vstd::prelude::*;

use crate::order::{permutation_is_onto, ranking, ranking_is_stable};
use crate::pinmux::combos::{
    among, candidates, combo_of, combo_ranks, combos_for, combos_for_request, combos_of, enumerated,
    gathered, ordered_combos, pair_find, pin_cost, pin_maps, pins_cost, previous_for,
    satisfies_lock, served, Combos, PinMapV, Verdict, VerdictV,
};
use crate::pinmux::model::{ComboV, PrevAssign, PrevAssignV, RPeriph, RPeriphV, RPinV, RReq, RReqV};
use crate::pinmux::value::{Value, ValueV};

verus! {

/// The request names the pin, for a signal or for any.
pub open spec fn is_wanted(req: RReqV, pin: Seq<char>) -> bool {
    ||| req.prefer.any.contains(pin)
    ||| exists|i: int|
        0 <= i < req.prefer.by_signal.len() && (#[trigger] req.prefer.by_signal[i]).1.contains(pin)
}

/// The earlier solve gave the signal the pin.
pub open spec fn was_given(prev: Option<PrevAssignV>, sig: Seq<char>, pin: Seq<char>) -> bool {
    prev is Some && exists|i: int|
        0 <= i < prev->0.pins.len() && #[trigger] prev->0.pins[i] == (sig, pin) && forall|j: int|
            0 <= j < i ==> (#[trigger] prev->0.pins[j]).0 != sig
}

/// The earlier solve gave the request the provider of the given name.
pub open spec fn was_on(prev: Option<PrevAssignV>, name: Seq<char>) -> bool {
    prev is Some && prev->0.instance == name
}

proof fn first_pair(pairs: Seq<(Seq<char>, Seq<char>)>, key: Seq<char>, v: Seq<char>)
    ensures
        pair_find(pairs, key) == Some(v) <==> exists|i: int|
            0 <= i < pairs.len() && #[trigger] pairs[i] == (key, v) && forall|j: int|
                0 <= j < i ==> (#[trigger] pairs[j]).0 != key,
    decreases pairs.len(),
{
    if pairs.len() > 0 {
        let rest = pairs.drop_first();
        first_pair(rest, key, v);
        if pairs[0].0 == key {
            if pairs[0].1 == v {
                assert(pairs[0] == (key, v));
            }
            if exists|i: int|
                0 <= i < pairs.len() && #[trigger] pairs[i] == (key, v) && forall|j: int|
                    0 <= j < i ==> (#[trigger] pairs[j]).0 != key {
                let i = choose|i: int|
                    0 <= i < pairs.len() && #[trigger] pairs[i] == (key, v) && forall|j: int|
                        0 <= j < i ==> (#[trigger] pairs[j]).0 != key;
                assert(i == 0) by {
                    if i > 0 {
                        assert(pairs[0].0 != key);
                    }
                }
            }
        } else {
            if exists|i: int|
                0 <= i < rest.len() && #[trigger] rest[i] == (key, v) && forall|j: int|
                    0 <= j < i ==> (#[trigger] rest[j]).0 != key {
                let i = choose|i: int|
                    0 <= i < rest.len() && #[trigger] rest[i] == (key, v) && forall|j: int|
                        0 <= j < i ==> (#[trigger] rest[j]).0 != key;
                assert(pairs[i + 1] == (key, v));
                assert forall|j: int| 0 <= j < i + 1 implies (#[trigger] pairs[j]).0 != key by {
                    if j > 0 {
                        assert(rest[j - 1] == pairs[j]);
                    }
                }
            }
            if exists|i: int|
                0 <= i < pairs.len() && #[trigger] pairs[i] == (key, v) && forall|j: int|
                    0 <= j < i ==> (#[trigger] pairs[j]).0 != key {
                let i = choose|i: int|
                    0 <= i < pairs.len() && #[trigger] pairs[i] == (key, v) && forall|j: int|
                        0 <= j < i ==> (#[trigger] pairs[j]).0 != key;
                assert(rest[i - 1] == (key, v));
                assert forall|j: int| 0 <= j < i - 1 implies (#[trigger] rest[j]).0 != key by {
                    assert(pairs[j + 1] == rest[j]);
                }
            }
        }
    }
}

/// What one pin adds to the cost of a way to serve a request: its declared cost, 50 where it is a
/// strapping pin, less 10 where the request names it, less 5 where the earlier solve gave it.
pub open spec fn price(req: RReqV, prev: Option<PrevAssignV>, sig: Seq<char>, pin: RPinV) -> int {
    pin.cost + (if pin.strap {
        50int
    } else {
        0
    }) - (if is_wanted(req, pin.name) {
        10int
    } else {
        0
    }) - (if was_given(prev, sig, pin.name) {
        5int
    } else {
        0
    })
}

/// Each pin adds its price.
pub proof fn pins_have_their_price(req: RReqV, prev: Option<PrevAssignV>, e: (Seq<char>, RPinV))
    ensures
        pin_cost(req, prev, e) == price(req, prev, e.0, e.1),
{
    if prev is Some {
        first_pair(prev->0.pins, e.0, e.1.name);
    }
}

/// Pin maps that differ at one place differ in cost by the pins there.
pub proof fn exchange_costs(req: RReqV, prev: Option<PrevAssignV>, a: PinMapV, b: PinMapV, k: int)
    requires
        0 <= k < a.len(),
        a.len() == b.len(),
        forall|j: int| 0 <= j < a.len() && j != k ==> #[trigger] a[j] == b[j],
    ensures
        pins_cost(req, prev, b) - pins_cost(req, prev, a) == pin_cost(req, prev, b[k]) - pin_cost(
            req,
            prev,
            a[k],
        ),
    decreases a.len(),
{
    let fa = a.drop_last();
    let fb = b.drop_last();
    if k == a.len() - 1 {
        assert forall|j: int| 0 <= j < fa.len() implies fa[j] == fb[j] by {
            assert(a[j] == b[j]);
        }
        assert(fa =~= fb);
    } else {
        assert forall|j: int| 0 <= j < fa.len() && j != k implies #[trigger] fa[j] == fb[j] by {
            assert(a[j] == b[j]);
        }
        exchange_costs(req, prev, fa, fb, k);
        assert(a[a.len() - 1] == b[a.len() - 1]);
    }
}

/// The combo is what the provider at its place makes of its pins.
spec fn is_priced(
    c: ComboV,
    req: RReqV,
    periphs: Seq<RPeriphV>,
    prev: Option<PrevAssignV>,
) -> bool {
    &&& c.periph_idx < periphs.len()
    &&& c == combo_of(req, periphs[c.periph_idx as int], c.periph_idx, prev, c.pins)
}

/// The combos of a provider are its maps that satisfy the lock.
pub proof fn combos_come_from_maps(
    req: RReqV,
    p: RPeriphV,
    at: usize,
    prev: Option<PrevAssignV>,
    maps: Seq<PinMapV>,
    c: ComboV,
)
    ensures
        combos_of(req, p, at, prev, maps).contains(c) <==> maps.contains(c.pins) && satisfies_lock(
            req,
            c.pins,
        ) && c == combo_of(req, p, at, prev, c.pins),
    decreases maps.len(),
{
    let all = combos_of(req, p, at, prev, maps);
    if maps.len() > 0 {
        let front = maps.drop_last();
        let before = combos_of(req, p, at, prev, front);
        combos_come_from_maps(req, p, at, prev, front, c);
        if all.contains(c) {
            let k = choose|k: int| 0 <= k < all.len() && all[k] == c;
            if k < before.len() {
                assert(before[k] == c);
                let m = choose|m: int| 0 <= m < front.len() && front[m] == c.pins;
                assert(maps[m] == c.pins);
            } else {
                assert(maps[maps.len() - 1] == c.pins);
            }
        }
        if maps.contains(c.pins) && satisfies_lock(req, c.pins) && c == combo_of(
            req,
            p,
            at,
            prev,
            c.pins,
        ) {
            let m = choose|m: int| 0 <= m < maps.len() && maps[m] == c.pins;
            if m < front.len() {
                assert(front[m] == c.pins);
                assert(before.contains(c));
                let k = choose|k: int| 0 <= k < before.len() && before[k] == c;
                assert(all[k] == c);
            } else {
                assert(all[all.len() - 1] == c);
            }
        }
    }
}

proof fn gathered_come_from_providers(
    req: RReqV,
    periphs: Seq<RPeriphV>,
    config: Seq<(Seq<char>, ValueV)>,
    prev: Option<PrevAssignV>,
    verdicts: Seq<VerdictV>,
    n: nat,
    c: ComboV,
)
    requires
        n <= periphs.len(),
        periphs.len() <= usize::MAX,
    ensures
        gathered(req, periphs, config, prev, verdicts, n).combos.contains(c) <==> c.periph_idx < n
            && served(
            req,
            periphs[c.periph_idx as int],
            c.periph_idx,
            config,
            prev,
            verdicts[c.periph_idx as int],
        ).combos.contains(c),
    decreases n,
{
    let all = gathered(req, periphs, config, prev, verdicts, n).combos;
    if n > 0 {
        let k = n - 1;
        gathered_come_from_providers(req, periphs, config, prev, verdicts, k as nat, c);
        let before = gathered(req, periphs, config, prev, verdicts, k as nat).combos;
        let s = served(req, periphs[k], k as usize, config, prev, verdicts[k]);
        assert(all == before + s.combos);
        if s.combos.contains(c) {
            match candidates(req, periphs[k]) {
                Ok(found) => {
                    combos_come_from_maps(
                        req,
                        periphs[k],
                        k as usize,
                        prev,
                        pin_maps(enumerated(req, found)).0,
                        c,
                    );
                },
                Err(_) => {},
            }
            assert(c.periph_idx == k);
            let i = choose|i: int| 0 <= i < s.combos.len() && s.combos[i] == c;
            assert(all[before.len() + i] == c);
        }
        if before.contains(c) {
            let i = choose|i: int| 0 <= i < before.len() && before[i] == c;
            assert(all[i] == c);
        }
        if all.contains(c) {
            let i = choose|i: int| 0 <= i < all.len() && all[i] == c;
            if i < before.len() {
                assert(before[i] == c);
            } else {
                assert(s.combos[i - before.len()] == c);
            }
        }
    }
}

proof fn ordering_keeps_combos(periphs: Seq<RPeriphV>, combos: Seq<ComboV>, c: ComboV)
    ensures
        ordered_combos(periphs, combos).contains(c) <==> combos.contains(c),
{
    let ranks = combo_ranks(periphs, combos);
    ranking_is_stable::<(i64, (String, String))>(ranks);
    let p = ranking::<(i64, (String, String))>(ranks);
    let r = ordered_combos(periphs, combos);
    if r.contains(c) {
        let i = choose|i: int| 0 <= i < r.len() && r[i] == c;
        assert(combos[p[i]] == c);
    }
    if combos.contains(c) {
        let k = choose|k: int| 0 <= k < combos.len() && combos[k] == c;
        permutation_is_onto(p, combos.len(), k);
        let i = choose|i: int| 0 <= i < p.len() && p[i] == k;
        assert(r[i] == c);
    }
}

/// A combo is among those of the request exactly where its provider serves it.
pub proof fn combos_come_from_providers(
    req: RReqV,
    periphs: Seq<RPeriphV>,
    config: Seq<(Seq<char>, ValueV)>,
    previous: Seq<(Seq<char>, PrevAssignV)>,
    verdicts: Seq<VerdictV>,
    c: ComboV,
)
    requires
        periphs.len() <= usize::MAX,
    ensures
        combos_for(req, periphs, config, previous, verdicts).combos.contains(c) <==> c.periph_idx
            < periphs.len() && served(
            req,
            periphs[c.periph_idx as int],
            c.periph_idx,
            config,
            previous_for(previous, req.name),
            verdicts[c.periph_idx as int],
        ).combos.contains(c),
{
    let prev = previous_for(previous, req.name);
    let raw = gathered(req, periphs, config, prev, verdicts, periphs.len()).combos;
    gathered_come_from_providers(req, periphs, config, prev, verdicts, periphs.len(), c);
    ordering_keeps_combos(periphs, raw, c);
}

proof fn combos_are_priced(
    req: RReqV,
    periphs: Seq<RPeriphV>,
    config: Seq<(Seq<char>, ValueV)>,
    previous: Seq<(Seq<char>, PrevAssignV)>,
    verdicts: Seq<VerdictV>,
    c: ComboV,
)
    requires
        periphs.len() <= usize::MAX,
        combos_for(req, periphs, config, previous, verdicts).combos.contains(c),
    ensures
        is_priced(c, req, periphs, previous_for(previous, req.name)),
{
    combos_come_from_providers(req, periphs, config, previous, verdicts, c);
    let p = periphs[c.periph_idx as int];
    match candidates(req, p) {
        Ok(found) => {
            combos_come_from_maps(
                req,
                p,
                c.periph_idx,
                previous_for(previous, req.name),
                pin_maps(enumerated(req, found)).0,
                c,
            );
        },
        Err(_) => {},
    }
}

/// What the earlier solves gave the request.
pub open spec fn earlier_for(previous: Seq<(Seq<char>, PrevAssignV)>, name: Seq<char>, prev: Option<
    PrevAssignV,
>) -> bool {
    match prev {
        Some(p) => exists|i: int|
            0 <= i < previous.len() && #[trigger] previous[i] == (name, p) && forall|j: int|
                0 <= j < i ==> (#[trigger] previous[j]).0 != name,
        None => forall|i: int| 0 <= i < previous.len() ==> (#[trigger] previous[i]).0 != name,
    }
}

/// What an earlier solve gave the request is found under the name of the request.
pub proof fn previous_goes_by_name(
    previous: Seq<(Seq<char>, PrevAssignV)>,
    name: Seq<char>,
    prev: Option<PrevAssignV>,
)
    requires
        earlier_for(previous, name, prev),
    ensures
        previous_for(previous, name) == prev,
    decreases previous.len(),
{
    if previous.len() > 0 {
        let rest = previous.drop_first();
        if previous[0].0 == name {
            if let Some(p) = prev {
                let i = choose|i: int|
                    0 <= i < previous.len() && #[trigger] previous[i] == (name, p) && forall|j: int|
                        0 <= j < i ==> (#[trigger] previous[j]).0 != name;
                assert(i == 0) by {
                    if i > 0 {
                        assert(previous[0].0 != name);
                    }
                }
            } else {
                assert(previous[0].0 != name);
            }
        } else {
            if let Some(p) = prev {
                let i = choose|i: int|
                    0 <= i < previous.len() && #[trigger] previous[i] == (name, p) && forall|j: int|
                        0 <= j < i ==> (#[trigger] previous[j]).0 != name;
                assert(rest[i - 1] == (name, p));
                assert forall|j: int| 0 <= j < i - 1 implies (#[trigger] rest[j]).0 != name by {
                    assert(previous[j + 1] == rest[j]);
                }
            } else {
                assert forall|j: int| 0 <= j < rest.len() implies (#[trigger] rest[j]).0 != name by {
                    assert(previous[j + 1] == rest[j]);
                }
            }
            previous_goes_by_name(rest, name, prev);
        }
    }
}

/// The two pin maps differ at one place only.
pub open spec fn differ_at(a: PinMapV, b: PinMapV, k: int) -> bool {
    &&& a.len() == b.len()
    &&& 0 <= k < a.len()
    &&& a[k].0 == b[k].0
    &&& forall|j: int| 0 <= j < a.len() && j != k ==> #[trigger] a[j] == b[j]
}

/// The cost lies within the range of its type, so that it is exact.
pub open spec fn is_exact(c: ComboV) -> bool {
    i64::MIN < c.cost < i64::MAX
}

/// Two ways to serve a request with one provider that differ in one pin differ in cost by that pin
/// alone: by what the pins are declared to cost, by 50 for a strapping pin, by 10 for a pin that the
/// request names, by 5 for the pin that the signal had before.
pub proof fn one_pin_changes_the_cost_by_its_price(
    req: RReq,
    periphs: Vec<RPeriph>,
    config: Vec<(String, Value)>,
    previous: Vec<(String, PrevAssign)>,
    verdicts: Vec<Verdict>,
    r: Combos,
    prev: Option<PrevAssignV>,
    x: int,
    y: int,
    k: int,
)
    requires
        combos_for_request.ensures((&req, &periphs, &config, &previous, &verdicts), r),
        earlier_for(previous.deep_view(), req.name@, prev),
        0 <= x < r.combos@.len(),
        0 <= y < r.combos@.len(),
        r.combos@[x].periph_idx == r.combos@[y].periph_idx,
        differ_at(r.combos@[x].deep_view().pins, r.combos@[y].deep_view().pins, k),
        is_exact(r.combos@[x].deep_view()),
        is_exact(r.combos@[y].deep_view()),
    ensures
        ({
            let rv = req.deep_view();
            let (sig, p) = r.combos@[x].deep_view().pins[k];
            let q = r.combos@[y].deep_view().pins[k].1;
            &&& r.combos@[y].cost - r.combos@[x].cost == price(rv, prev, sig, q) - price(
                rv,
                prev,
                sig,
                p,
            )
            &&& (p.cost == q.cost && !p.strap && q.strap && !is_wanted(rv, p.name) && !is_wanted(
                rv,
                q.name,
            ) && !was_given(prev, sig, p.name) && !was_given(prev, sig, q.name))
                ==> r.combos@[x].cost < r.combos@[y].cost
        }),
{
    let rv = req.deep_view();
    let pv = periphs.deep_view();
    let all = r.deep_view().combos;
    assert(all.len() == r.combos@.len());
    let a = r.combos@[x].deep_view();
    let b = r.combos@[y].deep_view();
    assert(all[x] == a && all[y] == b);
    assert(all.contains(a) && all.contains(b));
    assert(pv.len() == periphs.len());
    let (cv, ov, vv) = (config.deep_view(), previous.deep_view(), verdicts.deep_view());
    combos_are_priced(rv, pv, cv, ov, vv, a);
    combos_are_priced(rv, pv, cv, ov, vv, b);
    previous_goes_by_name(ov, rv.name, prev);
    exchange_costs(rv, prev, a.pins, b.pins, k);
    pins_have_their_price(rv, prev, a.pins[k]);
    pins_have_their_price(rv, prev, b.pins[k]);
}

/// Two ways to serve a request with the same pins differ in cost by their providers alone: by 100
/// for each capability that one has more than the other, and by 20 for the provider that the request
/// had before.
pub proof fn providers_change_the_cost_by_what_they_provide(
    req: RReq,
    periphs: Vec<RPeriph>,
    config: Vec<(String, Value)>,
    previous: Vec<(String, PrevAssign)>,
    verdicts: Vec<Verdict>,
    r: Combos,
    prev: Option<PrevAssignV>,
    x: int,
    y: int,
)
    requires
        combos_for_request.ensures((&req, &periphs, &config, &previous, &verdicts), r),
        earlier_for(previous.deep_view(), req.name@, prev),
        0 <= x < r.combos@.len(),
        0 <= y < r.combos@.len(),
        r.combos@[x].deep_view().pins == r.combos@[y].deep_view().pins,
        is_exact(r.combos@[x].deep_view()),
        is_exact(r.combos@[y].deep_view()),
    ensures
        ({
            let p = periphs@[r.combos@[x].periph_idx as int];
            let q = periphs@[r.combos@[y].periph_idx as int];
            r.combos@[y].cost - r.combos@[x].cost == 100 * (q.provides_ids@.len()
                - p.provides_ids@.len()) + (if was_on(prev, p.name@) {
                20int
            } else {
                0
            }) - (if was_on(prev, q.name@) {
                20int
            } else {
                0
            })
        }),
{
    let rv = req.deep_view();
    let pv = periphs.deep_view();
    let all = r.deep_view().combos;
    assert(all.len() == r.combos@.len());
    let a = r.combos@[x].deep_view();
    let b = r.combos@[y].deep_view();
    assert(all[x] == a && all[y] == b);
    assert(all.contains(a) && all.contains(b));
    assert(pv.len() == periphs.len());
    let (cv, ov, vv) = (config.deep_view(), previous.deep_view(), verdicts.deep_view());
    combos_are_priced(rv, pv, cv, ov, vv, a);
    combos_are_priced(rv, pv, cv, ov, vv, b);
    previous_goes_by_name(ov, rv.name, prev);
    assert(pv[a.periph_idx as int] == periphs@[a.periph_idx as int].deep_view());
    assert(pv[b.periph_idx as int] == periphs@[b.periph_idx as int].deep_view());
}

/// The prices of the pins of a map, added up.
pub open spec fn total_price(req: RReqV, prev: Option<PrevAssignV>, map: PinMapV) -> int {
    map.fold_left(0int, |sum: int, e: (Seq<char>, RPinV)| sum + price(req, prev, e.0, e.1))
}

proof fn prices_add_up(req: RReqV, prev: Option<PrevAssignV>, map: PinMapV)
    ensures
        pins_cost(req, prev, map) == total_price(req, prev, map),
    decreases map.len(),
{
    if map.len() > 0 {
        prices_add_up(req, prev, map.drop_last());
        pins_have_their_price(req, prev, map.last());
    }
}

/// A way to serve a request with a provider that offers just what is asked, and that the request did
/// not have before, costs what its pins cost.
pub proof fn a_fitting_provider_costs_its_pins(
    req: RReq,
    periphs: Vec<RPeriph>,
    config: Vec<(String, Value)>,
    previous: Vec<(String, PrevAssign)>,
    verdicts: Vec<Verdict>,
    r: Combos,
    prev: Option<PrevAssignV>,
    x: int,
)
    requires
        combos_for_request.ensures((&req, &periphs, &config, &previous, &verdicts), r),
        earlier_for(previous.deep_view(), req.name@, prev),
        0 <= x < r.combos@.len(),
        is_exact(r.combos@[x].deep_view()),
        r.combos@[x].periph_idx < periphs@.len(),
        periphs@[r.combos@[x].periph_idx as int].provides_ids@.len() == req.iface_closure_len,
        !was_on(prev, periphs@[r.combos@[x].periph_idx as int].name@),
    ensures
        r.combos@[x].cost == total_price(req.deep_view(), prev, r.combos@[x].deep_view().pins),
{
    let rv = req.deep_view();
    let pv = periphs.deep_view();
    let all = r.deep_view().combos;
    assert(all.len() == r.combos@.len());
    let a = r.combos@[x].deep_view();
    assert(all[x] == a);
    assert(all.contains(a));
    assert(pv.len() == periphs.len());
    let (cv, ov, vv) = (config.deep_view(), previous.deep_view(), verdicts.deep_view());
    combos_are_priced(rv, pv, cv, ov, vv, a);
    previous_goes_by_name(ov, rv.name, prev);
    assert(pv[a.periph_idx as int] == periphs@[a.periph_idx as int].deep_view());
    prices_add_up(rv, prev, a.pins);
}

} // verus!
