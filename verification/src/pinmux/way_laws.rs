//! Which pin maps serve a request: those that fit it, all of them.
use vstd::prelude::*;

use crate::pinmux::combo_laws::{combos_come_from_maps, combos_come_from_providers};
use crate::pinmux::combos::{
    among, bound_of, candidate_step, candidates, combo_of, combos_for_request, covering, cut_text,
    enumerated, extensions, gathered, keeps_bounds, kept, map_has, map_over, narrowed,
    not_preferred, pin_for, pin_maps, pin_maps_are_maps, preferred, previous_for, product,
    satisfies_lock, served, signal_pins, usable, Combos, PinMapV, Verdict, VerdictV,
};
use crate::pinmux::lock::first_entry;
use crate::pinmux::model::{ComboV, PrevAssign, PrevAssignV, RPeriph, RPeriphV, RPinV, RReq, RReqV};
use crate::pinmux::parse::axis_on;
use crate::pinmux::value::{Value, ValueV};
use crate::steps::take_all;

verus! {

/// The provider offers the pin for the signal: its first entry for the signal lists it.
pub open spec fn offers(p: RPeriphV, sig: Seq<char>, pin: RPinV) -> bool {
    exists|i: int|
        0 <= i < p.signals.len() && (#[trigger] p.signals[i]).0 == sig && p.signals[i].1.contains(
            pin,
        ) && forall|j: int| 0 <= j < i ==> (#[trigger] p.signals[j]).0 != sig
}

/// The request can use the pin at all: it does not drive a pin that is an input only.
pub open spec fn can_use(req: RReqV, pin: RPinV) -> bool {
    req.direction == Some("output"@) ==> !pin.input_only
}

/// A lock lets the signal take the pin: every entry of the lock for the signal lists it, and where
/// there is none, bare pins that are as many as the signals in use must hold it.
pub open spec fn lock_lets(req: RReqV, sig: Seq<char>, pin: Seq<char>) -> bool {
    req.lock ==> {
        &&& forall|i: int|
            0 <= i < req.prefer.by_signal.len() && (#[trigger] req.prefer.by_signal[i]).0 == sig
                ==> req.prefer.by_signal[i].1.contains(pin)
        &&& (forall|i: int|
            0 <= i < req.prefer.by_signal.len() ==> (#[trigger] req.prefer.by_signal[i]).0 != sig)
            && req.prefer.any.len() > 0 && req.prefer.any.len() == req.uses.len()
            ==> req.prefer.any.contains(pin)
    }
}

/// The map uses the pin.
pub open spec fn uses_pin(map: PinMapV, pin: Seq<char>) -> bool {
    exists|k: int| 0 <= k < map.len() && (#[trigger] map[k]).1.name == pin
}

/// The map fits the request and the provider: it gives every signal in use, in order, a pin that the
/// provider offers for it, that the request can use and that a lock lets it take; no pin twice; and
/// under a lock every bare pin that the lock names.
pub open spec fn fits_request(req: RReqV, p: RPeriphV, map: PinMapV) -> bool {
    &&& map.len() == req.uses.len()
    &&& forall|k: int|
        0 <= k < map.len() ==> {
            &&& (#[trigger] map[k]).0 == req.uses[k]
            &&& offers(p, req.uses[k], map[k].1)
            &&& can_use(req, map[k].1)
            &&& lock_lets(req, req.uses[k], map[k].1.name)
        }
    &&& forall|j: int, k: int|
        0 <= j < k < map.len() ==> (#[trigger] map[j]).1.name != (#[trigger] map[k]).1.name
    &&& req.lock ==> forall|i: int|
        0 <= i < req.prefer.any.len() ==> uses_pin(map, #[trigger] req.prefer.any[i])
}

/// The provider is open to the request: no axis of the configuration turns it off, it provides the
/// interface, it is the instance or of the pool that the request is held to, if to any, and the
/// predicate of the request, if it has one, accepts it.
pub open spec fn is_open(
    req: RReqV,
    p: RPeriphV,
    config: Seq<(Seq<char>, ValueV)>,
    verdict: VerdictV,
) -> bool {
    &&& p.unless is None || !axis_on(config, p.unless->0)
    &&& p.provides_ids.contains(req.iface_id)
    &&& req.instance is None || p.name == req.instance->0 || p.pool == req.instance
    &&& req.where_fn ==> verdict is Accepted
}

proof fn first_signal(
    signals: Seq<(Seq<char>, Seq<RPinV>)>,
    sig: Seq<char>,
) -> (at: int)
    ensures
        match signal_pins(signals, sig) {
            Some(pins) => {
                &&& 0 <= at < signals.len()
                &&& signals[at].0 == sig
                &&& signals[at].1 == pins
                &&& forall|j: int| 0 <= j < at ==> (#[trigger] signals[j]).0 != sig
            },
            None => forall|j: int| 0 <= j < signals.len() ==> (#[trigger] signals[j]).0 != sig,
        },
    decreases signals.len(),
{
    if signals.len() == 0 {
        0
    } else if signals[0].0 == sig {
        0
    } else {
        let rest = signals.drop_first();
        let at = first_signal(rest, sig);
        if signal_pins(rest, sig) is Some {
            assert(signals[at + 1] == rest[at]);
            assert forall|j: int| 0 <= j < at + 1 implies (#[trigger] signals[j]).0 != sig by {
                if j > 0 {
                    assert(rest[j - 1] == signals[j]);
                }
            }
        } else {
            assert forall|j: int| 0 <= j < signals.len() implies (#[trigger] signals[j]).0 != sig by {
                if j > 0 {
                    assert(rest[j - 1] == signals[j]);
                }
            }
        }
        at + 1
    }
}

proof fn offered_pins(p: RPeriphV, sig: Seq<char>, pin: RPinV)
    ensures
        offers(p, sig, pin) <==> signal_pins(p.signals, sig) is Some && signal_pins(
            p.signals,
            sig,
        )->0.contains(pin),
{
    let at = first_signal(p.signals, sig);
    if offers(p, sig, pin) {
        let i = choose|i: int|
            0 <= i < p.signals.len() && (#[trigger] p.signals[i]).0 == sig
                && p.signals[i].1.contains(pin) && forall|j: int|
                0 <= j < i ==> (#[trigger] p.signals[j]).0 != sig;
        assert(signal_pins(p.signals, sig) is Some);
        assert(at == i) by {
            if at < i {
                assert(p.signals[at].0 != sig);
            } else if i < at {
                assert(p.signals[i].0 != sig);
            }
        }
    }
    if signal_pins(p.signals, sig) is Some {
        assert(p.signals[at].0 == sig);
    }
}

proof fn kept_holds(pins: Seq<RPinV>, test: spec_fn(RPinV) -> bool, x: RPinV)
    ensures
        kept(pins, test).contains(x) <==> pins.contains(x) && test(x),
    decreases pins.len(),
{
    if pins.len() > 0 {
        let front = pins.drop_last();
        kept_holds(front, test, x);
        let f = kept(front, test);
        let r = kept(pins, test);
        if r.contains(x) {
            let i = choose|i: int| 0 <= i < r.len() && r[i] == x;
            if i < f.len() {
                assert(f[i] == x);
                let k = choose|k: int| 0 <= k < front.len() && front[k] == x;
                assert(pins[k] == x);
            } else {
                assert(pins[pins.len() - 1] == x);
            }
        }
        if pins.contains(x) && test(x) {
            let k = choose|k: int| 0 <= k < pins.len() && pins[k] == x;
            if k < front.len() {
                assert(front[k] == x);
                let i = choose|i: int| 0 <= i < f.len() && f[i] == x;
                assert(r[i] == x);
            } else {
                assert(r[r.len() - 1] == x);
            }
        }
    }
}

proof fn first_of_signal(req: RReqV, sig: Seq<char>, i: int)
    requires
        0 <= i < req.prefer.by_signal.len(),
        req.prefer.by_signal[i].0 == sig,
    ensures
        exists|k: int| #[trigger] first_entry(req.prefer, sig, k),
    decreases i,
{
    if exists|j: int| 0 <= j < i && (#[trigger] req.prefer.by_signal[j]).0 == sig {
        let j = choose|j: int| 0 <= j < i && (#[trigger] req.prefer.by_signal[j]).0 == sig;
        first_of_signal(req, sig, j);
    } else {
        assert(first_entry(req.prefer, sig, i));
    }
}

/// What the search takes as candidates of a signal in use.
proof fn candidates_are_usable(req: RReqV, p: RPeriphV, uses: Seq<Seq<char>>)
    ensures
        match take_all(uses, Seq::empty(), candidate_step(req, p)) {
            Ok(found) => {
                &&& found.len() == uses.len()
                &&& forall|k: int|
                    0 <= k < uses.len() ==> {
                        &&& (#[trigger] found[k]).0 == uses[k]
                        &&& signal_pins(p.signals, uses[k]) is Some
                        &&& found[k].1 == kept(signal_pins(p.signals, uses[k])->0, usable(req))
                    }
            },
            Err(_) => exists|k: int|
                0 <= k < uses.len() && (signal_pins(p.signals, #[trigger] uses[k]) is None || kept(
                    signal_pins(p.signals, uses[k])->0,
                    usable(req),
                ).len() == 0),
        },
    decreases uses.len(),
{
    if uses.len() > 0 {
        let front = uses.drop_last();
        candidates_are_usable(req, p, front);
        let end = uses.len() - 1;
        assert(uses[end] == uses.last());
        match take_all(front, Seq::empty(), candidate_step(req, p)) {
            Ok(f) => {
                match take_all(uses, Seq::empty(), candidate_step(req, p)) {
                    Ok(found) => {
                        assert forall|k: int| 0 <= k < uses.len() implies {
                            &&& (#[trigger] found[k]).0 == uses[k]
                            &&& signal_pins(p.signals, uses[k]) is Some
                            &&& found[k].1 == kept(
                                signal_pins(p.signals, uses[k])->0,
                                usable(req),
                            )
                        } by {
                            if k < end {
                                assert(found[k] == f[k]);
                                assert(front[k] == uses[k]);
                            }
                        }
                    },
                    Err(_) => {
                        assert(signal_pins(p.signals, uses[end]) is None || kept(
                            signal_pins(p.signals, uses[end])->0,
                            usable(req),
                        ).len() == 0);
                    },
                }
            },
            Err(_) => {
                let k = choose|k: int|
                    0 <= k < front.len() && (signal_pins(p.signals, #[trigger] front[k]) is None
                        || kept(signal_pins(p.signals, front[k])->0, usable(req)).len() == 0);
                assert(uses[k] == front[k]);
            },
        }
    }
}

/// The lists from which the maps are made hold what the signal may take.
proof fn lists_hold(req: RReqV, p: RPeriphV, found: Seq<(Seq<char>, Seq<RPinV>)>, k: int, x: RPinV)
    requires
        candidates(req, p) == Ok::<_, Seq<char>>(found),
        0 <= k < req.uses.len(),
    ensures
        found.len() == req.uses.len(),
        enumerated(req, found)[k].0 == req.uses[k],
        enumerated(req, found)[k].1.contains(x) <==> offers(p, req.uses[k], x) && can_use(req, x)
            && (bound_of(req, req.uses[k]) matches Some(a) ==> a.contains(x.name)),
{
    candidates_are_usable(req, p, req.uses);
    let sig = req.uses[k];
    offered_pins(p, sig, x);
    assert(found[k].0 == sig);
    let pins = found[k].1;
    let all = signal_pins(p.signals, sig)->0;
    kept_holds(all, usable(req), x);
    let e = narrowed(req, found[k]);
    if let Some(a) = bound_of(req, sig) {
        kept_holds(pins, among(a), x);
    }
    let one = kept(e.1, preferred(req));
    let two = kept(e.1, not_preferred(req));
    kept_holds(e.1, preferred(req), x);
    kept_holds(e.1, not_preferred(req), x);
    let r = one + two;
    assert(enumerated(req, found)[k].1 == r);
    if one.contains(x) {
        let i = choose|i: int| 0 <= i < one.len() && one[i] == x;
        assert(r[i] == x);
    }
    if two.contains(x) {
        let i = choose|i: int| 0 <= i < two.len() && two[i] == x;
        assert(r[one.len() + i] == x);
    }
    if r.contains(x) {
        let i = choose|i: int| 0 <= i < r.len() && r[i] == x;
        if i < one.len() {
            assert(one[i] == x);
        } else {
            assert(two[i - one.len()] == x);
        }
    }
}

proof fn extension_is_there(base: PinMapV, sig: Seq<char>, pins: Seq<RPinV>, x: RPinV)
    requires
        pins.contains(x),
        !map_has(base, x.name),
    ensures
        extensions(base, sig, pins).contains(base.push((sig, x))),
    decreases pins.len(),
{
    let all = extensions(base, sig, pins);
    let front = extensions(base, sig, pins.drop_last());
    let i = choose|i: int| 0 <= i < pins.len() && pins[i] == x;
    if i < pins.len() - 1 {
        assert(pins.drop_last()[i] == x);
        extension_is_there(base, sig, pins.drop_last(), x);
        let m = base.push((sig, x));
        let k = choose|k: int| 0 <= k < front.len() && front[k] == m;
        assert(all[k] == m);
    } else {
        assert(all[all.len() - 1] == base.push((sig, x)));
    }
}

proof fn product_is_there(bases: Seq<PinMapV>, b: int, sig: Seq<char>, pins: Seq<RPinV>, x: RPinV)
    requires
        0 <= b < bases.len(),
        pins.contains(x),
        !map_has(bases[b], x.name),
    ensures
        product(bases, sig, pins).contains(bases[b].push((sig, x))),
    decreases bases.len(),
{
    let m = bases[b].push((sig, x));
    let all = product(bases, sig, pins);
    let front = product(bases.drop_last(), sig, pins);
    let more = extensions(bases.last(), sig, pins);
    if b < bases.len() - 1 {
        product_is_there(bases.drop_last(), b, sig, pins, x);
        let k = choose|k: int| 0 <= k < front.len() && front[k] == m;
        assert(all[k] == m);
    } else {
        extension_is_there(bases.last(), sig, pins, x);
        let k = choose|k: int| 0 <= k < more.len() && more[k] == m;
        assert(all[front.len() + k] == m);
    }
}

/// Where nothing was cut off, every map over the lists is made.
proof fn maps_are_all_there(found: Seq<(Seq<char>, Seq<RPinV>)>, map: PinMapV)
    requires
        !pin_maps(found).1,
        map_over(map, found),
    ensures
        pin_maps(found).0.contains(map),
    decreases found.len(),
{
    if found.len() == 0 {
        assert(map =~= Seq::empty());
        assert(pin_maps(found).0[0] == map);
    } else {
        let front = found.drop_last();
        let base = map.drop_last();
        let bases = pin_maps(front).0;
        assert(map_over(base, front)) by {
            assert forall|i: int| 0 <= i < base.len() implies (#[trigger] base[i]).0 == front[i].0
                && front[i].1.contains(base[i].1) by {
                assert(base[i] == map[i]);
                assert(front[i] == found[i]);
            }
            assert forall|i: int, j: int| 0 <= i < j < base.len() implies (
            #[trigger] base[i]).1.name != (#[trigger] base[j]).1.name by {
                assert(base[i] == map[i] && base[j] == map[j]);
            }
        }
        maps_are_all_there(front, base);
        let b = choose|b: int| 0 <= b < bases.len() && bases[b] == base;
        let end = map.len() - 1;
        let x = map[end].1;
        assert(map[end].0 == found[end].0 && found[end].1.contains(x));
        assert(!map_has(base, x.name)) by {
            if map_has(base, x.name) {
                let i = choose|i: int| 0 <= i < base.len() && (#[trigger] base[i]).1.name == x.name;
                assert(map[i].1.name != map[end].1.name);
            }
        }
        product_is_there(bases, b, found.last().0, found.last().1, x);
        assert(base.push((found.last().0, x)) =~= map);
    }
}

proof fn first_pin(map: PinMapV, sig: Seq<char>) -> (k: int)
    ensures
        match pin_for(map, sig) {
            Some(c) => 0 <= k < map.len() && map[k] == (sig, c),
            None => forall|j: int| 0 <= j < map.len() ==> (#[trigger] map[j]).0 != sig,
        },
    decreases map.len(),
{
    if map.len() == 0 {
        0
    } else if map[0].0 == sig {
        0
    } else {
        let rest = map.drop_first();
        let k = first_pin(rest, sig);
        if pin_for(rest, sig) is Some {
            assert(map[k + 1] == rest[k]);
        } else {
            assert forall|j: int| 0 <= j < map.len() implies (#[trigger] map[j]).0 != sig by {
                if j > 0 {
                    assert(rest[j - 1] == map[j]);
                }
            }
        }
        k + 1
    }
}

/// The maps that are made and satisfy the lock are those that fit the request.
proof fn maps_fit(
    req: RReqV,
    p: RPeriphV,
    found: Seq<(Seq<char>, Seq<RPinV>)>,
    map: PinMapV,
)
    requires
        req.uses.no_duplicates(),
        candidates(req, p) == Ok::<_, Seq<char>>(found),
    ensures
        map_over(map, enumerated(req, found)) && satisfies_lock(req, map) <==> fits_request(
            req,
            p,
            map,
        ),
{
    let lists = enumerated(req, found);
    candidates_are_usable(req, p, req.uses);
    assert(lists.len() == req.uses.len());
    if map_over(map, lists) && satisfies_lock(req, map) {
        assert forall|k: int| 0 <= k < map.len() implies {
            &&& (#[trigger] map[k]).0 == req.uses[k]
            &&& offers(p, req.uses[k], map[k].1)
            &&& can_use(req, map[k].1)
            &&& lock_lets(req, req.uses[k], map[k].1.name)
        } by {
            lists_hold(req, p, found, k, map[k].1);
            let sig = req.uses[k];
            let pin = map[k].1.name;
            if req.lock {
                assert forall|i: int|
                    0 <= i < req.prefer.by_signal.len() && (#[trigger] req.prefer.by_signal[i]).0
                        == sig implies req.prefer.by_signal[i].1.contains(pin) by {
                    let f = first_pin(map, sig);
                    assert(map[k].0 == sig);
                    assert(pin_for(map, sig) is Some);
                    assert(map[f].0 == req.uses[f]);
                    assert(f == k);
                }
                if (forall|i: int|
                    0 <= i < req.prefer.by_signal.len() ==> (#[trigger] req.prefer.by_signal[i]).0
                        != sig) && covering(req) {
                    assert(!exists|i: int| #[trigger] first_entry(req.prefer, sig, i));
                    assert(bound_of(req, sig) == Some(req.prefer.any));
                }
            }
        }
        if req.lock {
            assert forall|i: int| 0 <= i < req.prefer.any.len() implies uses_pin(
                map,
                #[trigger] req.prefer.any[i],
            ) by {
                assert(map_has(map, req.prefer.any[i]));
                let k = choose|k: int|
                    0 <= k < map.len() && (#[trigger] map[k]).1.name == req.prefer.any[i];
                assert(map[k].1.name == req.prefer.any[i]);
            }
        }
    }
    if fits_request(req, p, map) {
        assert forall|k: int| 0 <= k < map.len() implies (#[trigger] map[k]).0 == lists[k].0
            && lists[k].1.contains(map[k].1) by {
            lists_hold(req, p, found, k, map[k].1);
            let sig = req.uses[k];
            if let Some(a) = bound_of(req, sig) {
                if exists|i: int| #[trigger] first_entry(req.prefer, sig, i) {
                    let i = choose|i: int| #[trigger] first_entry(req.prefer, sig, i);
                    assert(req.prefer.by_signal[i].0 == sig);
                    assert(a == req.prefer.by_signal[i].1);
                } else {
                    assert forall|i: int| 0 <= i < req.prefer.by_signal.len() implies (
                    #[trigger] req.prefer.by_signal[i]).0 != sig by {
                        if req.prefer.by_signal[i].0 == sig {
                            first_of_signal(req, sig, i);
                        }
                    }
                }
                assert(a.contains(map[k].1.name));
            }
        }
        if req.lock {
            assert forall|i: int| 0 <= i < req.prefer.any.len() implies map_has(
                map,
                #[trigger] req.prefer.any[i],
            ) by {
                assert(uses_pin(map, req.prefer.any[i]));
                let k = choose|k: int|
                    0 <= k < map.len() && (#[trigger] map[k]).1.name == req.prefer.any[i];
                assert(map[k].1.name == req.prefer.any[i]);
            }
            assert(keeps_bounds(map, req.prefer.by_signal)) by {
                assert forall|i: int| 0 <= i < req.prefer.by_signal.len() implies match pin_for(
                    map,
                    (#[trigger] req.prefer.by_signal[i]).0,
                ) {
                    Some(c) => req.prefer.by_signal[i].1.contains(c.name),
                    None => true,
                } by {
                    let sig = req.prefer.by_signal[i].0;
                    let k = first_pin(map, sig);
                    if pin_for(map, sig) is Some {
                        assert(map[k].0 == req.uses[k]);
                        assert(lock_lets(req, req.uses[k], map[k].1.name));
                    }
                }
            }
        }
    }
}

/// That pin maps were cut off is told.
pub proof fn cut_is_told(
    req: RReqV,
    periphs: Seq<RPeriphV>,
    config: Seq<(Seq<char>, ValueV)>,
    prev: Option<PrevAssignV>,
    verdicts: Seq<VerdictV>,
    n: nat,
    at: int,
)
    requires
        0 <= at < n <= periphs.len(),
        periphs.len() <= usize::MAX,
        served(req, periphs[at], at as usize, config, prev, verdicts[at]).cut,
    ensures
        gathered(req, periphs, config, prev, verdicts, n).truncated,
        gathered(req, periphs, config, prev, verdicts, n).warnings.contains(
            cut_text(req.name, periphs[at].name),
        ),
    decreases n,
{
    let k = n - 1;
    let all = gathered(req, periphs, config, prev, verdicts, n).warnings;
    let t = cut_text(req.name, periphs[at].name);
    if at < k {
        cut_is_told(req, periphs, config, prev, verdicts, k as nat, at);
        let before = gathered(req, periphs, config, prev, verdicts, k as nat).warnings;
        let i = choose|i: int| 0 <= i < before.len() && before[i] == t;
        assert(all[i] == t);
    } else {
        assert(all[all.len() - 1] == t);
    }
}

/// A provider serves a request with the maps that fit it, and, where none were cut off, with all of
/// them; a provider that is not open to it serves it with none.
pub proof fn served_are_those_that_fit(
    req: RReqV,
    p: RPeriphV,
    at: usize,
    config: Seq<(Seq<char>, ValueV)>,
    prev: Option<PrevAssignV>,
    verdict: VerdictV,
    c: ComboV,
)
    requires
        req.uses.no_duplicates(),
    ensures
        served(req, p, at, config, prev, verdict).combos.contains(c) ==> is_open(
            req,
            p,
            config,
            verdict,
        ) && fits_request(req, p, c.pins) && c == combo_of(req, p, at, prev, c.pins),
        is_open(req, p, config, verdict) && fits_request(req, p, c.pins) && c == combo_of(
            req,
            p,
            at,
            prev,
            c.pins,
        ) && !served(req, p, at, config, prev, verdict).cut ==> served(
            req,
            p,
            at,
            config,
            prev,
            verdict,
        ).combos.contains(c),
{
    let s = served(req, p, at, config, prev, verdict);
    candidates_are_usable(req, p, req.uses);
    match candidates(req, p) {
        Ok(found) => {
            let lists = enumerated(req, found);
            let maps = pin_maps(lists).0;
            combos_come_from_maps(req, p, at, prev, maps, c);
            maps_fit(req, p, found, c.pins);
            if s.combos.contains(c) {
                let k = choose|k: int| 0 <= k < maps.len() && maps[k] == c.pins;
                pin_maps_are_maps(lists, k);
            }
            if fits_request(req, p, c.pins) && is_open(req, p, config, verdict) && !s.cut {
                maps_are_all_there(lists, c.pins);
            }
        },
        Err(_) => {
            if fits_request(req, p, c.pins) {
                let k = choose|k: int|
                    0 <= k < req.uses.len() && (signal_pins(p.signals, #[trigger] req.uses[k]) is None
                        || kept(signal_pins(p.signals, req.uses[k])->0, usable(req)).len() == 0);
                assert(c.pins[k].0 == req.uses[k]);
                let x = c.pins[k].1;
                offered_pins(p, req.uses[k], x);
                kept_holds(signal_pins(p.signals, req.uses[k])->0, usable(req), x);
            }
        },
    }
}

/// The ways to serve a request are its pin maps over the providers that are open to it: every way is
/// one that fits, and every one that fits is there, unless the search says that it cut some off.
pub proof fn ways_are_those_that_fit(
    req: RReq,
    periphs: Vec<RPeriph>,
    config: Vec<(String, Value)>,
    previous: Vec<(String, PrevAssign)>,
    verdicts: Vec<Verdict>,
    r: Combos,
    at: usize,
    map: PinMapV,
)
    requires
        combos_for_request.ensures((&req, &periphs, &config, &previous, &verdicts), r),
        req.deep_view().uses.no_duplicates(),
        verdicts@.len() == periphs@.len(),
        at < periphs@.len(),
    ensures
        ({
            let rv = req.deep_view();
            let p = periphs@[at as int].deep_view();
            let is_way = exists|i: int|
                0 <= i < r.combos@.len() && (#[trigger] r.combos@[i]).periph_idx == at
                    && r.combos@[i].deep_view().pins == map;
            let fitting = is_open(
                rv,
                p,
                config.deep_view(),
                verdicts@[at as int].deep_view(),
            ) && fits_request(rv, p, map);
            &&& is_way ==> fitting
            &&& fitting && !r.truncated ==> is_way
        }),
{
    let rv = req.deep_view();
    let pv = periphs.deep_view();
    let (cv, ov, vv) = (config.deep_view(), previous.deep_view(), verdicts.deep_view());
    let prev = previous_for(ov, rv.name);
    let p = pv[at as int];
    assert(pv.len() == periphs.len());
    assert(p == periphs@[at as int].deep_view());
    assert(vv[at as int] == verdicts@[at as int].deep_view());
    let all = r.deep_view().combos;
    assert(all.len() == r.combos@.len());
    let is_way = exists|i: int|
        0 <= i < r.combos@.len() && (#[trigger] r.combos@[i]).periph_idx == at
            && r.combos@[i].deep_view().pins == map;
    if is_way {
        let i = choose|i: int|
            0 <= i < r.combos@.len() && (#[trigger] r.combos@[i]).periph_idx == at
                && r.combos@[i].deep_view().pins == map;
        let c = all[i];
        assert(c == r.combos@[i].deep_view());
        assert(all.contains(c));
        combos_come_from_providers(rv, pv, cv, ov, vv, c);
        served_are_those_that_fit(rv, p, at, cv, prev, vv[at as int], c);
    }
    if is_open(rv, p, cv, vv[at as int]) && fits_request(rv, p, map) && !r.truncated {
        let c = combo_of(rv, p, at, prev, map);
        if served(rv, p, at, cv, prev, vv[at as int]).cut {
            cut_is_told(rv, pv, cv, prev, vv, pv.len(), at as int);
        }
        served_are_those_that_fit(rv, p, at, cv, prev, vv[at as int], c);
        combos_come_from_providers(rv, pv, cv, ov, vv, c);
        let i = choose|i: int| 0 <= i < all.len() && all[i] == c;
        assert(r.combos@[i].deep_view() == c);
        assert(r.combos@[i].periph_idx == at);
    }
}

} // verus!
