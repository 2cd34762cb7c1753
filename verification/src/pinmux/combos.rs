//! The ways to serve a request, provider by provider.
use vstd::prelude::*;

use crate::duplicate::Duplicate;
use crate::order::{as_ints, goes_before, picked, rank_order, ranking, ranking_is_stable};
use crate::pinmux::lock::{allowed_pins, lock_is_empty, lock_mentions, lock_names};
use crate::pinmux::model::{
    Combo, ComboV, PrevAssign, PrevAssignV, RPeriph, RPeriphV, RPin, RPinV, RReq, RReqV,
};
use crate::pinmux::parse::{axis_on, config_truthy};
use crate::pinmux::value::{Value, ValueV};
use crate::steps::{failure_stays, take_all, take_one_more};
use crate::text::{cat3, first_line, headline, holds, join, joined, same, trimmed};

verus! {

/// Pin maps that are kept per provider.
pub const PINMAP_CAP: usize = 512;

/// What a request's predicate said of a provider.
pub enum Verdict {
    Accepted,
    Rejected,
    /// It failed with the given message.
    Failed(String),
}

/// The value of a `Verdict`.
pub enum VerdictV {
    Accepted,
    Rejected,
    Failed(Seq<char>),
}

impl DeepView for Verdict {
    type V = VerdictV;

    open spec fn deep_view(&self) -> VerdictV {
        match self {
            Verdict::Accepted => VerdictV::Accepted,
            Verdict::Rejected => VerdictV::Rejected,
            Verdict::Failed(m) => VerdictV::Failed(m@),
        }
    }
}

/// The candidates of a signal: those of the provider's first entry for it.
pub open spec fn signal_pins(signals: Seq<(Seq<char>, Seq<RPinV>)>, name: Seq<char>) -> Option<
    Seq<RPinV>,
>
    decreases signals.len(),
{
    if signals.len() == 0 {
        None
    } else if signals[0].0 == name {
        Some(signals[0].1)
    } else {
        signal_pins(signals.drop_first(), name)
    }
}

impl RPeriph {
    /// The candidates of a signal.
    pub fn signal(&self, name: &str) -> (r: Option<&Vec<RPin>>)
        ensures
            match r {
                Some(p) => signal_pins(self.deep_view().signals, name@) == Some(p.deep_view()),
                None => signal_pins(self.deep_view().signals, name@) is None,
            },
    {
        let ghost all = self.signals.deep_view();
        let n: usize = self.signals.len();
        let mut i: usize = 0;
        assert(all.skip(0) =~= all);
        while i < n
            invariant
                n == self.signals@.len(),
                all == self.signals.deep_view(),
                i <= n,
                signal_pins(all, name@) == signal_pins(all.skip(i as int), name@),
            decreases n - i,
        {
            assert(all.skip(i as int).drop_first() =~= all.skip(i + 1));
            assert(all.skip(i as int)[0] == (
                self.signals@[i as int].0@,
                self.signals@[i as int].1.deep_view(),
            ));
            if same(self.signals[i].0.as_str(), name) {
                return Some(&self.signals[i].1);
            }
            i += 1;
        }
        None
    }
}

/// The pins that pass a test, in order.
pub open spec fn kept(pins: Seq<RPinV>, test: spec_fn(RPinV) -> bool) -> Seq<RPinV>
    decreases pins.len(),
{
    if pins.len() == 0 {
        Seq::empty()
    } else if test(pins.last()) {
        kept(pins.drop_last(), test).push(pins.last())
    } else {
        kept(pins.drop_last(), test)
    }
}

/// The request drives its pins.
pub open spec fn drives(req: RReqV) -> bool {
    req.direction == Some("output"@)
}

/// A pin that the request's direction allows.
pub open spec fn usable(req: RReqV) -> spec_fn(RPinV) -> bool {
    |c: RPinV| !(drives(req) && c.input_only)
}

/// Takes one signal in use; fails with its name when no candidate is usable.
pub open spec fn candidate_step(req: RReqV, p: RPeriphV) -> spec_fn(
    Seq<(Seq<char>, Seq<RPinV>)>,
    Seq<char>,
) -> Result<Seq<(Seq<char>, Seq<RPinV>)>, Seq<char>> {
    |out: Seq<(Seq<char>, Seq<RPinV>)>, s: Seq<char>|
        match signal_pins(p.signals, s) {
            None => Err(s),
            Some(c) => {
                let u = kept(c, usable(req));
                if u.len() == 0 {
                    Err(s)
                } else {
                    Ok(out.push((s, u)))
                }
            },
        }
}

/// The usable candidates of each signal in use, or the first signal without any.
pub open spec fn candidates(req: RReqV, p: RPeriphV) -> Result<
    Seq<(Seq<char>, Seq<RPinV>)>,
    Seq<char>,
> {
    take_all(req.uses, Seq::empty(), candidate_step(req, p))
}

/// The lock's bare pins must fill every signal.
pub open spec fn covering(req: RReqV) -> bool {
    req.prefer.any.len() > 0 && req.prefer.any.len() == req.uses.len()
}

/// The pins to which a locked request holds a signal.
pub open spec fn bound_of(req: RReqV, sig: Seq<char>) -> Option<Seq<Seq<char>>> {
    if !req.lock {
        None
    } else {
        match allowed_pins(req.prefer, sig) {
            Some(a) => Some(a),
            None => if covering(req) {
                Some(req.prefer.any)
            } else {
                None
            },
        }
    }
}

/// A pin of the given names.
pub open spec fn among(names: Seq<Seq<char>>) -> spec_fn(RPinV) -> bool {
    |c: RPinV| names.contains(c.name)
}

/// The candidates of a signal, narrowed to what a lock holds the signal to.
pub open spec fn narrowed(req: RReqV, e: (Seq<char>, Seq<RPinV>)) -> (Seq<char>, Seq<RPinV>) {
    match bound_of(req, e.0) {
        Some(a) => (e.0, kept(e.1, among(a))),
        None => e,
    }
}

/// A pin that the preference names.
pub open spec fn preferred(req: RReqV) -> spec_fn(RPinV) -> bool {
    |c: RPinV| lock_mentions(req.prefer, c.name)
}

/// A pin that the preference does not name.
pub open spec fn not_preferred(req: RReqV) -> spec_fn(RPinV) -> bool {
    |c: RPinV| !lock_mentions(req.prefer, c.name)
}

/// The candidates with those that the preference names first.
pub open spec fn preferred_first(req: RReqV, pins: Seq<RPinV>) -> Seq<RPinV> {
    kept(pins, preferred(req)) + kept(pins, not_preferred(req))
}

/// The candidates in the order of enumeration.
pub open spec fn enumerated(req: RReqV, found: Seq<(Seq<char>, Seq<RPinV>)>) -> Seq<
    (Seq<char>, Seq<RPinV>),
> {
    Seq::new(
        found.len(),
        |i: int|
            {
                let e = narrowed(req, found[i]);
                (e.0, preferred_first(req, e.1))
            },
    )
}

/// The first signal that a lock leaves without a candidate, with the pins it is held to.
pub open spec fn starved(req: RReqV, found: Seq<(Seq<char>, Seq<RPinV>)>) -> Option<
    (Seq<char>, Seq<Seq<char>>),
>
    decreases found.len(),
{
    if found.len() == 0 {
        None
    } else {
        match starved(req, found.drop_last()) {
            Some(s) => Some(s),
            None => match bound_of(req, found.last().0) {
                Some(a) => if kept(found.last().1, among(a)).len() == 0 {
                    Some((found.last().0, a))
                } else {
                    None
                },
                None => None,
            },
        }
    }
}

/// A pin map: a pin for each of the signals.
pub type PinMapV = Seq<(Seq<char>, RPinV)>;

/// The map uses the pin.
pub open spec fn map_has(map: PinMapV, pin: Seq<char>) -> bool {
    exists|i: int| 0 <= i < map.len() && (#[trigger] map[i]).1.name == pin
}

/// The maps that extend `base` by a candidate for `sig` that it does not use yet.
pub open spec fn extensions(base: PinMapV, sig: Seq<char>, pins: Seq<RPinV>) -> Seq<PinMapV>
    decreases pins.len(),
{
    if pins.len() == 0 {
        Seq::empty()
    } else {
        let front = extensions(base, sig, pins.drop_last());
        if map_has(base, pins.last().name) {
            front
        } else {
            front.push(base.push((sig, pins.last())))
        }
    }
}

/// The extensions of all the maps, in order.
pub open spec fn product(bases: Seq<PinMapV>, sig: Seq<char>, pins: Seq<RPinV>) -> Seq<PinMapV>
    decreases bases.len(),
{
    if bases.len() == 0 {
        Seq::empty()
    } else {
        product(bases.drop_last(), sig, pins) + extensions(bases.last(), sig, pins)
    }
}

/// The first `PINMAP_CAP` maps.
pub open spec fn capped(maps: Seq<PinMapV>) -> Seq<PinMapV> {
    if maps.len() > PINMAP_CAP {
        maps.take(PINMAP_CAP as int)
    } else {
        maps
    }
}

/// The pin maps over the signals, and whether any were cut off.
pub open spec fn pin_maps(found: Seq<(Seq<char>, Seq<RPinV>)>) -> (Seq<PinMapV>, bool)
    decreases found.len(),
{
    if found.len() == 0 {
        (seq![Seq::empty()], false)
    } else {
        let (bases, cut) = pin_maps(found.drop_last());
        let all = product(bases, found.last().0, found.last().1);
        (capped(all), cut || all.len() > PINMAP_CAP)
    }
}

/// The pin that the map gives a signal.
pub open spec fn pin_for(map: PinMapV, sig: Seq<char>) -> Option<RPinV>
    decreases map.len(),
{
    if map.len() == 0 {
        None
    } else if map[0].0 == sig {
        Some(map[0].1)
    } else {
        pin_for(map.drop_first(), sig)
    }
}

/// The map claims each of the pins.
pub open spec fn claims_all(map: PinMapV, pins: Seq<Seq<char>>) -> bool {
    forall|i: int| 0 <= i < pins.len() ==> map_has(map, #[trigger] pins[i])
}

/// The map keeps each signal to the pins it is bound to.
pub open spec fn keeps_bounds(map: PinMapV, by_signal: Seq<(Seq<char>, Seq<Seq<char>>)>) -> bool {
    forall|i: int|
        0 <= i < by_signal.len() ==> match pin_for(map, (#[trigger] by_signal[i]).0) {
            Some(c) => by_signal[i].1.contains(c.name),
            None => true,
        }
}

/// The map satisfies the request's lock.
pub open spec fn satisfies_lock(req: RReqV, map: PinMapV) -> bool {
    req.lock && !lock_is_empty(req.prefer) ==> claims_all(map, req.prefer.any) && keeps_bounds(
        map,
        req.prefer.by_signal,
    )
}

/// The value under a name in a list of pairs.
pub open spec fn pair_find(pairs: Seq<(Seq<char>, Seq<char>)>, key: Seq<char>) -> Option<Seq<char>>
    decreases pairs.len(),
{
    if pairs.len() == 0 {
        None
    } else if pairs[0].0 == key {
        Some(pairs[0].1)
    } else {
        pair_find(pairs.drop_first(), key)
    }
}

/// What an earlier solve gave the request.
pub open spec fn previous_for(previous: Seq<(Seq<char>, PrevAssignV)>, name: Seq<char>) -> Option<
    PrevAssignV,
>
    decreases previous.len(),
{
    if previous.len() == 0 {
        None
    } else if previous[0].0 == name {
        Some(previous[0].1)
    } else {
        previous_for(previous.drop_first(), name)
    }
}

/// What one pin of a map adds to the cost.
pub open spec fn pin_cost(req: RReqV, prev: Option<PrevAssignV>, e: (Seq<char>, RPinV)) -> int {
    let strap: int = if e.1.strap {
        50
    } else {
        0
    };
    let wanted: int = if lock_mentions(req.prefer, e.1.name) {
        10
    } else {
        0
    };
    let kept: int = if prev is Some && pair_find(prev.unwrap().pins, e.0) == Some(e.1.name) {
        5
    } else {
        0
    };
    e.1.cost + strap - wanted - kept
}

/// What the pins of a map add to the cost.
pub open spec fn pins_cost(req: RReqV, prev: Option<PrevAssignV>, map: PinMapV) -> int
    decreases map.len(),
{
    if map.len() == 0 {
        0
    } else {
        pins_cost(req, prev, map.drop_last()) + pin_cost(req, prev, map.last())
    }
}

/// The cost of serving the request with a pin map: capabilities beyond the demand, the pins,
/// and a bonus for the instance of the earlier solve.
pub open spec fn map_cost(
    req: RReqV,
    p: RPeriphV,
    prev: Option<PrevAssignV>,
    map: PinMapV,
) -> int {
    let again: int = if prev is Some && prev.unwrap().instance == p.name {
        20
    } else {
        0
    };
    100 * (p.provides_ids.len() - req.iface_closure_len) + pins_cost(req, prev, map) - again
}

/// The nearest 64-bit number.
pub open spec fn fit(cost: int) -> i64 {
    if cost < i64::MIN {
        i64::MIN
    } else if cost > i64::MAX {
        i64::MAX
    } else {
        cost as i64
    }
}

/// The map in words: `signal=pin` for each signal.
pub open spec fn map_key(map: PinMapV) -> Seq<char> {
    joined(Seq::new(map.len(), |i: int| map[i].0 + "="@ + map[i].1.name), ","@)
}

/// The combo that a pin map makes.
pub open spec fn combo_of(
    req: RReqV,
    p: RPeriphV,
    at: usize,
    prev: Option<PrevAssignV>,
    map: PinMapV,
) -> ComboV {
    ComboV {
        periph_idx: at,
        pins: map,
        cost: fit(map_cost(req, p, prev, map)),
        key: map_key(map),
    }
}

/// The combos of the maps that satisfy the lock, in order.
pub open spec fn combos_of(
    req: RReqV,
    p: RPeriphV,
    at: usize,
    prev: Option<PrevAssignV>,
    maps: Seq<PinMapV>,
) -> Seq<ComboV>
    decreases maps.len(),
{
    if maps.len() == 0 {
        Seq::empty()
    } else {
        let front = combos_of(req, p, at, prev, maps.drop_last());
        if satisfies_lock(req, maps.last()) {
            front.push(combo_of(req, p, at, prev, maps.last()))
        } else {
            front
        }
    }
}

/// Why a provider is out before its predicate is asked.
pub open spec fn early_reject(
    req: RReqV,
    p: RPeriphV,
    config: Seq<(Seq<char>, ValueV)>,
) -> Option<Seq<char>> {
    if p.unless is Some && axis_on(config, p.unless.unwrap()) {
        Some("disabled by config axis `"@ + p.unless.unwrap() + "`"@)
    } else if !p.provides_ids.contains(req.iface_id) {
        if p.provides_names.contains(req.iface_name) {
            Some(
                "provides a different "@ + req.iface_name
                    + " — capability types are per interface() declaration, so two declarations never match"@,
            )
        } else {
            Some("does not provide "@ + req.iface_name)
        }
    } else if req.instance is Some && p.name != req.instance.unwrap() && p.pool != req.instance {
        Some("instance pinned to `"@ + req.instance.unwrap() + "`"@)
    } else {
        None
    }
}

/// The predicate of the request has to be asked about the provider.
pub open spec fn asks_predicate(
    req: RReqV,
    p: RPeriphV,
    config: Seq<(Seq<char>, ValueV)>,
) -> bool {
    req.where_fn && early_reject(req, p, config) is None
}

/// Why the predicate puts a provider out.
pub open spec fn predicate_reject(verdict: VerdictV) -> Option<Seq<char>> {
    match verdict {
        VerdictV::Accepted => None,
        VerdictV::Rejected => Some("where= predicate rejected"@),
        VerdictV::Failed(m) => Some(
            "where= predicate failed: "@ + if m.len() == 0 {
                "error"@
            } else {
                trimmed(first_line(m))
            },
        ),
    }
}

/// Why a provider with candidates for every signal serves no combo.
pub open spec fn late_reject(
    req: RReqV,
    found: Seq<(Seq<char>, Seq<RPinV>)>,
    maps: Seq<PinMapV>,
) -> Seq<char> {
    match starved(req, found) {
        Some(s) => "signal `"@ + s.0 + "` has no candidate among the locked pins `"@ + joined(
            s.1,
            "`, `"@,
        ) + "`"@,
        None => if maps.len() > 0 {
            "no pin combination satisfies the locked pins `"@ + joined(
                lock_names(req.prefer),
                "`, `"@,
            ) + "`"@
        } else {
            "candidate pins collide within the instance"@
        },
    }
}

/// What one provider has for a request.
pub struct ServedV {
    pub combos: Seq<ComboV>,
    pub reject: Option<Seq<char>>,
    pub cut: bool,
}

/// What provider `p`, at place `at`, has for the request.
pub open spec fn served(
    req: RReqV,
    p: RPeriphV,
    at: usize,
    config: Seq<(Seq<char>, ValueV)>,
    prev: Option<PrevAssignV>,
    verdict: VerdictV,
) -> ServedV {
    let out = |reason: Seq<char>|
        ServedV { combos: Seq::empty(), reject: Some(reason), cut: false };
    if early_reject(req, p, config) is Some {
        out(early_reject(req, p, config).unwrap())
    } else if req.where_fn && predicate_reject(verdict) is Some {
        out(predicate_reject(verdict).unwrap())
    } else {
        match candidates(req, p) {
            Err(s) => out("no usable candidate for signal `"@ + s + "`"@),
            Ok(found) => {
                let (maps, cut) = pin_maps(enumerated(req, found));
                let combos = combos_of(req, p, at, prev, maps);
                ServedV {
                    combos,
                    reject: if combos.len() == 0 {
                        Some(late_reject(req, found, maps))
                    } else {
                        None
                    },
                    cut,
                }
            },
        }
    }
}

proof fn extensions_grow(base: PinMapV, sig: Seq<char>, pins: Seq<RPinV>, k: int)
    requires
        0 <= k <= pins.len(),
    ensures
        extensions(base, sig, pins.take(k)).is_prefix_of(extensions(base, sig, pins)),
    decreases pins.len() - k,
{
    if k < pins.len() {
        extensions_grow(base, sig, pins, k + 1);
        assert(pins.take(k + 1).drop_last() =~= pins.take(k));
        let a = extensions(base, sig, pins.take(k));
        let b = extensions(base, sig, pins.take(k + 1));
        let c = extensions(base, sig, pins);
        assert(a =~= b.take(a.len() as int));
        assert(c.take(b.len() as int).take(a.len() as int) =~= c.take(a.len() as int));
    } else {
        assert(pins.take(k) =~= pins);
        let c = extensions(base, sig, pins);
        assert(c =~= c.take(c.len() as int));
    }
}

proof fn product_grows(bases: Seq<PinMapV>, sig: Seq<char>, pins: Seq<RPinV>, b: int)
    requires
        0 <= b <= bases.len(),
    ensures
        product(bases.take(b), sig, pins).is_prefix_of(product(bases, sig, pins)),
    decreases bases.len() - b,
{
    if b < bases.len() {
        product_grows(bases, sig, pins, b + 1);
        assert(bases.take(b + 1).drop_last() =~= bases.take(b));
        let x = product(bases.take(b), sig, pins);
        let y = product(bases.take(b + 1), sig, pins);
        let z = product(bases, sig, pins);
        assert(x =~= y.take(x.len() as int));
        assert(z.take(y.len() as int).take(x.len() as int) =~= z.take(x.len() as int));
    } else {
        assert(bases.take(b) =~= bases);
        let z = product(bases, sig, pins);
        assert(z =~= z.take(z.len() as int));
    }
}

/// Whether the map uses the pin.
fn uses_pin(map: &Vec<(String, RPin)>, pin: &str) -> (r: bool)
    ensures
        r == map_has(map.deep_view(), pin@),
{
    let ghost mv = map.deep_view();
    let n: usize = map.len();
    let mut i: usize = 0;
    while i < n
        invariant
            n == map@.len(),
            mv == map.deep_view(),
            i <= n,
            forall|j: int| 0 <= j < i ==> (#[trigger] mv[j]).1.name != pin@,
        decreases n - i,
    {
        assert(mv[i as int].1.name == map@[i as int].1.name@);
        if same(map[i].1.name.as_str(), pin) {
            return true;
        }
        i += 1;
    }
    false
}

/// Extends the maps by a candidate for one more signal, up to `PINMAP_CAP` maps.
fn grow(bases: &Vec<Vec<(String, RPin)>>, sig: &str, pins: &Vec<&RPin>) -> (r: (
    Vec<Vec<(String, RPin)>>,
    bool,
))
    ensures
        r.0.deep_view() == capped(product(bases.deep_view(), sig@, pins.deep_view())),
        r.1 == (product(bases.deep_view(), sig@, pins.deep_view()).len() > PINMAP_CAP),
{
    let ghost bv = bases.deep_view();
    let ghost pv = pins.deep_view();
    let mut next: Vec<Vec<(String, RPin)>> = Vec::new();
    let nb: usize = bases.len();
    let np: usize = pins.len();
    let mut b: usize = 0;
    assert(next.deep_view() =~= product(bv.take(0), sig@, pv));
    while b < nb
        invariant
            nb == bases@.len(),
            np == pins@.len(),
            bv == bases.deep_view(),
            pv == pins.deep_view(),
            b <= nb,
            next.deep_view() == product(bv.take(b as int), sig@, pv),
            next@.len() <= PINMAP_CAP,
        decreases nb - b,
    {
        let ghost head = product(bv.take(b as int), sig@, pv);
        let ghost base = bv[b as int];
        assert(base == bases@[b as int].deep_view());
        assert(bv.take(b + 1).drop_last() =~= bv.take(b as int));
        let mut k: usize = 0;
        assert(head + extensions(base, sig@, pv.take(0)) =~= head);
        while k < np
            invariant
                nb == bases@.len(),
                np == pins@.len(),
                bv == bases.deep_view(),
                pv == pins.deep_view(),
                b < nb,
                base == bv[b as int],
                base == bases@[b as int].deep_view(),
                head == product(bv.take(b as int), sig@, pv),
                product(bv.take(b + 1), sig@, pv) == head + extensions(base, sig@, pv),
                k <= np,
                next.deep_view() == head + extensions(base, sig@, pv.take(k as int)),
                next@.len() <= PINMAP_CAP,
            decreases np - k,
        {
            let ghost now = pv.take(k + 1);
            assert(now.drop_last() =~= pv.take(k as int));
            assert(now.last() == pins@[k as int].deep_view());
            let c: &RPin = pins[k];
            if !uses_pin(&bases[b], c.name.as_str()) {
                let ghost longer = head + extensions(base, sig@, now);
                let ghost so_far = next.deep_view();
                assert(longer =~= so_far.push(base.push((sig@, pv[k as int]))));
                if next.len() >= PINMAP_CAP {
                    proof {
                        let all = product(bv, sig@, pv);
                        product_grows(bv, sig@, pv, b + 1);
                        extensions_grow(base, sig@, pv, k + 1);
                        let upto = product(bv.take(b + 1), sig@, pv);
                        let ext = extensions(base, sig@, pv);
                        let part = extensions(base, sig@, now);
                        assert(part == ext.take(part.len() as int));
                        assert(longer =~= upto.take(longer.len() as int));
                        assert(longer =~= all.take(longer.len() as int)) by {
                            assert(upto == all.take(upto.len() as int));
                        }
                        assert(all.len() >= longer.len());
                        assert(so_far =~= all.take(PINMAP_CAP as int)) by {
                            assert forall|i: int| 0 <= i < so_far.len() implies so_far[i]
                                == all.take(PINMAP_CAP as int)[i] by {
                                assert(longer[i] == so_far[i]);
                                assert(longer[i] == all.take(longer.len() as int)[i]);
                            }
                        }
                    }
                    return (next, true);
                }
                let mut d = bases[b].duplicate();
                let ghost dv = d.deep_view();
                d.push((sig.to_string(), c.duplicate()));
                assert(d.deep_view() =~= dv.push((sig@, pv[k as int])));
                next.push(d);
                assert(next.deep_view() =~= longer);
            }
            k += 1;
        }
        assert(pv.take(np as int) =~= pv);
        b += 1;
    }
    assert(bv.take(nb as int) =~= bv);
    (next, false)
}

/// The pins that the request's direction allows.
fn keep_usable<'a>(req: &RReq, pins: &'a Vec<RPin>) -> (r: Vec<&'a RPin>)
    ensures
        r.deep_view() == kept(pins.deep_view(), usable(req.deep_view())),
{
    let output = match &req.direction {
        Some(d) => same(d.as_str(), "output"),
        None => false,
    };
    let ghost pv = pins.deep_view();
    let ghost test = usable(req.deep_view());
    let mut out: Vec<&'a RPin> = Vec::new();
    let n: usize = pins.len();
    let mut i: usize = 0;
    assert(out.deep_view() =~= Seq::empty());
    assert(output == drives(req.deep_view()));
    while i < n
        invariant
            n == pins@.len(),
            pv == pins.deep_view(),
            test == usable(req.deep_view()),
            output == drives(req.deep_view()),
            i <= n,
            out.deep_view() == kept(pv.take(i as int), test),
        decreases n - i,
    {
        let ghost before = out.deep_view();
        assert(pv.take(i + 1).drop_last() =~= pv.take(i as int));
        assert(pv[i as int] == pins@[i as int].deep_view());
        if !(output && pins[i].input_only) {
            out.push(&pins[i]);
            assert(out.deep_view() =~= before.push(pv[i as int]));
        }
        i += 1;
    }
    assert(pv.take(n as int) =~= pv);
    out
}

/// The pins of the given names.
fn keep_among<'a>(pins: &Vec<&'a RPin>, names: &Vec<String>) -> (r: Vec<&'a RPin>)
    ensures
        r.deep_view() == kept(pins.deep_view(), among(names.deep_view())),
{
    let ghost pv = pins.deep_view();
    let ghost test = among(names.deep_view());
    let mut out: Vec<&'a RPin> = Vec::new();
    let n: usize = pins.len();
    let mut i: usize = 0;
    assert(out.deep_view() =~= Seq::empty());
    while i < n
        invariant
            n == pins@.len(),
            pv == pins.deep_view(),
            test == among(names.deep_view()),
            i <= n,
            out.deep_view() == kept(pv.take(i as int), test),
        decreases n - i,
    {
        let ghost before = out.deep_view();
        assert(pv.take(i + 1).drop_last() =~= pv.take(i as int));
        let c: &'a RPin = pins[i];
        assert(pv[i as int] == c.deep_view());
        if holds(names, c.name.as_str()) {
            out.push(c);
            assert(out.deep_view() =~= before.push(pv[i as int]));
        }
        i += 1;
    }
    assert(pv.take(n as int) =~= pv);
    out
}

/// The pins with those that the preference names first.
fn put_preferred_first<'a>(req: &RReq, pins: &Vec<&'a RPin>) -> (r: Vec<&'a RPin>)
    ensures
        r.deep_view() == preferred_first(req.deep_view(), pins.deep_view()),
{
    let ghost pv = pins.deep_view();
    let ghost yes = preferred(req.deep_view());
    let ghost no = not_preferred(req.deep_view());
    let mut out: Vec<&'a RPin> = Vec::new();
    let mut rest: Vec<&'a RPin> = Vec::new();
    let n: usize = pins.len();
    let mut i: usize = 0;
    assert(out.deep_view() =~= Seq::empty());
    assert(rest.deep_view() =~= Seq::empty());
    while i < n
        invariant
            n == pins@.len(),
            pv == pins.deep_view(),
            yes == preferred(req.deep_view()),
            no == not_preferred(req.deep_view()),
            i <= n,
            out.deep_view() == kept(pv.take(i as int), yes),
            rest.deep_view() == kept(pv.take(i as int), no),
        decreases n - i,
    {
        let ghost before = out.deep_view();
        let ghost others = rest.deep_view();
        assert(pv.take(i + 1).drop_last() =~= pv.take(i as int));
        let c: &'a RPin = pins[i];
        assert(pv[i as int] == c.deep_view());
        if req.prefer.mentions(c.name.as_str()) {
            out.push(c);
            assert(out.deep_view() =~= before.push(pv[i as int]));
        } else {
            rest.push(c);
            assert(rest.deep_view() =~= others.push(pv[i as int]));
        }
        i += 1;
    }
    assert(pv.take(n as int) =~= pv);
    let ghost first = out.deep_view();
    let ghost second = rest.deep_view();
    out.append(&mut rest);
    assert(out.deep_view() =~= first + second);
    out
}

/// The usable candidates of each signal in use, or the first signal without any.
fn find_candidates<'a>(req: &'a RReq, p: &'a RPeriph) -> (r: Result<
    Vec<(&'a String, Vec<&'a RPin>)>,
    &'a String,
>)
    ensures
        match r {
            Ok(found) => candidates(req.deep_view(), p.deep_view()) == Ok::<_, Seq<char>>(
                found.deep_view(),
            ),
            Err(s) => candidates(req.deep_view(), p.deep_view()) == Err::<
                Seq<(Seq<char>, Seq<RPinV>)>,
                _,
            >(s@),
        },
{
    let ghost uv = req.uses.deep_view();
    let ghost f = candidate_step(req.deep_view(), p.deep_view());
    let ghost init = Seq::<(Seq<char>, Seq<RPinV>)>::empty();
    let n: usize = req.uses.len();
    let mut out: Vec<(&'a String, Vec<&'a RPin>)> = Vec::new();
    let mut i: usize = 0;
    assert(out.deep_view() =~= init);
    while i < n
        invariant
            n == req.uses@.len(),
            uv == req.uses.deep_view(),
            f == candidate_step(req.deep_view(), p.deep_view()),
            init == Seq::<(Seq<char>, Seq<RPinV>)>::empty(),
            i <= n,
            take_all(uv.take(i as int), init, f) == Ok::<_, Seq<char>>(out.deep_view()),
        decreases n - i,
    {
        let ghost before = out.deep_view();
        proof {
            take_one_more(uv, init, f, i as int);
            if take_all(uv.take(i + 1), init, f) is Err {
                failure_stays(uv, init, f, i + 1);
            }
        }
        let s: &'a String = &req.uses[i];
        assert(uv[i as int] == s@);
        match p.signal(s.as_str()) {
            None => {
                return Err(s);
            },
            Some(c) => {
                let u = keep_usable(req, c);
                let ghost ul = u.deep_view();
                if u.len() == 0 {
                    return Err(s);
                }
                out.push((s, u));
                assert(out.deep_view() =~= before.push((s@, ul)));
            },
        }
        i += 1;
    }
    assert(uv.take(n as int) =~= uv);
    Ok(out)
}

/// The pins to which a locked request holds a signal.
fn lock_bound<'a>(req: &'a RReq, sig: &str) -> (r: Option<&'a Vec<String>>)
    ensures
        match r {
            Some(a) => bound_of(req.deep_view(), sig@) == Some(a.deep_view()),
            None => bound_of(req.deep_view(), sig@) is None,
        },
{
    if !req.lock {
        return None;
    }
    match req.prefer.allowed(sig) {
        Some(a) => Some(a),
        None => {
            if req.prefer.any.len() > 0 && req.prefer.any.len() == req.uses.len() {
                Some(&req.prefer.any)
            } else {
                None
            }
        },
    }
}

/// Puts the candidates in the order of enumeration; gives the first signal that a lock
/// leaves without a candidate too.
fn enumerate<'a>(req: &'a RReq, found: &Vec<(&'a String, Vec<&'a RPin>)>) -> (r: (
    Vec<(&'a String, Vec<&'a RPin>)>,
    Option<(&'a String, &'a Vec<String>)>,
))
    ensures
        r.0.deep_view() == enumerated(req.deep_view(), found.deep_view()),
        r.1.deep_view() == starved(req.deep_view(), found.deep_view()),
{
    let ghost rv = req.deep_view();
    let ghost fv = found.deep_view();
    let n: usize = found.len();
    let mut out: Vec<(&'a String, Vec<&'a RPin>)> = Vec::new();
    let mut none_left: Option<(&'a String, &'a Vec<String>)> = None;
    let mut i: usize = 0;
    while i < n
        invariant
            n == found@.len(),
            rv == req.deep_view(),
            fv == found.deep_view(),
            i <= n,
            out@.len() == i,
            forall|j: int|
                0 <= j < i ==> (#[trigger] out@[j]).deep_view() == enumerated(rv, fv)[j],
            none_left.deep_view() == starved(rv, fv.take(i as int)),
        decreases n - i,
    {
        assert(fv.take(i + 1).drop_last() =~= fv.take(i as int));
        let sig: &'a String = found[i].0;
        assert(fv[i as int] == (sig@, found@[i as int].1.deep_view()));
        match lock_bound(req, sig.as_str()) {
            Some(a) => {
                let k = keep_among(&found[i].1, a);
                if k.len() == 0 && none_left.is_none() {
                    none_left = Some((sig, a));
                }
                let ordered = put_preferred_first(req, &k);
                out.push((sig, ordered));
            },
            None => {
                let ordered = put_preferred_first(req, &found[i].1);
                out.push((sig, ordered));
            },
        }
        assert(out@[i as int].deep_view() == enumerated(rv, fv)[i as int]);
        i += 1;
    }
    assert(fv.take(n as int) =~= fv);
    assert(out.deep_view() =~= enumerated(rv, fv));
    (out, none_left)
}

/// The pin maps over the signals, and whether any were cut off.
fn map_pins<'a>(found: &Vec<(&'a String, Vec<&'a RPin>)>) -> (r: (Vec<Vec<(String, RPin)>>, bool))
    ensures
        (r.0.deep_view(), r.1) == pin_maps(found.deep_view()),
{
    let ghost fv = found.deep_view();
    let mut maps: Vec<Vec<(String, RPin)>> = Vec::new();
    let first: Vec<(String, RPin)> = Vec::new();
    assert(first.deep_view() =~= Seq::empty());
    maps.push(first);
    assert(maps.deep_view() =~= seq![Seq::empty()]);
    let mut cut = false;
    let n: usize = found.len();
    let mut i: usize = 0;
    while i < n
        invariant
            n == found@.len(),
            fv == found.deep_view(),
            i <= n,
            (maps.deep_view(), cut) == pin_maps(fv.take(i as int)),
        decreases n - i,
    {
        assert(fv.take(i + 1).drop_last() =~= fv.take(i as int));
        assert(fv[i as int] == (found@[i as int].0@, found@[i as int].1.deep_view()));
        let (next, more) = grow(&maps, found[i].0.as_str(), &found[i].1);
        maps = next;
        cut = cut || more;
        i += 1;
    }
    assert(fv.take(n as int) =~= fv);
    (maps, cut)
}

/// The pin that the map gives a signal.
fn find_pin<'a>(map: &'a Vec<(String, RPin)>, sig: &str) -> (r: Option<&'a RPin>)
    ensures
        r.deep_view() == pin_for(map.deep_view(), sig@),
{
    let ghost all = map.deep_view();
    let n: usize = map.len();
    let mut i: usize = 0;
    assert(all.skip(0) =~= all);
    while i < n
        invariant
            n == map@.len(),
            all == map.deep_view(),
            i <= n,
            pin_for(all, sig@) == pin_for(all.skip(i as int), sig@),
        decreases n - i,
    {
        assert(all.skip(i as int).drop_first() =~= all.skip(i + 1));
        assert(all.skip(i as int)[0] == (map@[i as int].0@, map@[i as int].1.deep_view()));
        if same(map[i].0.as_str(), sig) {
            return Some(&map[i].1);
        }
        i += 1;
    }
    None
}

/// Whether the map satisfies the request's lock.
fn meets_lock(req: &RReq, map: &Vec<(String, RPin)>) -> (r: bool)
    ensures
        r == satisfies_lock(req.deep_view(), map.deep_view()),
{
    let ghost rv = req.deep_view();
    let ghost mv = map.deep_view();
    if !req.lock || req.prefer.is_empty() {
        return true;
    }
    let n: usize = req.prefer.any.len();
    let mut i: usize = 0;
    while i < n
        invariant
            n == req.prefer.any@.len(),
            rv == req.deep_view(),
            mv == map.deep_view(),
            rv.lock,
            !lock_is_empty(rv.prefer),
            i <= n,
            forall|j: int| 0 <= j < i ==> map_has(mv, #[trigger] rv.prefer.any[j]),
        decreases n - i,
    {
        assert(rv.prefer.any[i as int] == req.prefer.any@[i as int]@);
        if !uses_pin(map, req.prefer.any[i].as_str()) {
            return false;
        }
        i += 1;
    }
    let m: usize = req.prefer.by_signal.len();
    let mut k: usize = 0;
    while k < m
        invariant
            m == req.prefer.by_signal@.len(),
            rv == req.deep_view(),
            mv == map.deep_view(),
            rv.lock,
            !lock_is_empty(rv.prefer),
            k <= m,
            forall|j: int|
                0 <= j < k ==> match pin_for(mv, (#[trigger] rv.prefer.by_signal[j]).0) {
                    Some(c) => rv.prefer.by_signal[j].1.contains(c.name),
                    None => true,
                },
        decreases m - k,
    {
        assert(rv.prefer.by_signal[k as int] == (
            req.prefer.by_signal@[k as int].0@,
            req.prefer.by_signal@[k as int].1.deep_view(),
        ));
        if let Some(c) = find_pin(map, req.prefer.by_signal[k].0.as_str()) {
            if !holds(&req.prefer.by_signal[k].1, c.name.as_str()) {
                return false;
            }
        }
        k += 1;
    }
    true
}

/// The value under a name in a list of pairs.
fn find_pair<'a>(pairs: &'a Vec<(String, String)>, key: &str) -> (r: Option<&'a String>)
    ensures
        r.deep_view() == pair_find(pairs.deep_view(), key@),
{
    let ghost all = pairs.deep_view();
    let n: usize = pairs.len();
    let mut i: usize = 0;
    assert(all.skip(0) =~= all);
    while i < n
        invariant
            n == pairs@.len(),
            all == pairs.deep_view(),
            i <= n,
            pair_find(all, key@) == pair_find(all.skip(i as int), key@),
        decreases n - i,
    {
        assert(all.skip(i as int).drop_first() =~= all.skip(i + 1));
        assert(all.skip(i as int)[0] == (pairs@[i as int].0@, pairs@[i as int].1@));
        if same(pairs[i].0.as_str(), key) {
            return Some(&pairs[i].1);
        }
        i += 1;
    }
    None
}

/// What an earlier solve gave the request.
fn find_previous<'a>(previous: &'a Vec<(String, PrevAssign)>, name: &str) -> (r: Option<
    &'a PrevAssign,
>)
    ensures
        r.deep_view() == previous_for(previous.deep_view(), name@),
{
    let ghost all = previous.deep_view();
    let n: usize = previous.len();
    let mut i: usize = 0;
    assert(all.skip(0) =~= all);
    while i < n
        invariant
            n == previous@.len(),
            all == previous.deep_view(),
            i <= n,
            previous_for(all, name@) == previous_for(all.skip(i as int), name@),
        decreases n - i,
    {
        assert(all.skip(i as int).drop_first() =~= all.skip(i + 1));
        assert(all.skip(i as int)[0] == (previous@[i as int].0@, previous@[i as int].1.deep_view()));
        if same(previous[i].0.as_str(), name) {
            return Some(&previous[i].1);
        }
        i += 1;
    }
    None
}

/// The cost of serving the request with a pin map.
fn cost_of(req: &RReq, p: &RPeriph, prev: Option<&PrevAssign>, map: &Vec<(String, RPin)>) -> (r: i64)
    ensures
        r == fit(map_cost(req.deep_view(), p.deep_view(), prev.deep_view(), map.deep_view())),
{
    let ghost rv = req.deep_view();
    let ghost pv = prev.deep_view();
    let ghost mv = map.deep_view();
    let n: usize = map.len();
    let mut total: i128 = 0;
    let mut i: usize = 0;
    while i < n
        invariant
            n == map@.len(),
            rv == req.deep_view(),
            pv == prev.deep_view(),
            mv == map.deep_view(),
            i <= n,
            total == pins_cost(rv, pv, mv.take(i as int)),
            -(i * 0x1_0000_0000) <= total <= i * 0x1_0000_0000,
        decreases n - i,
    {
        assert(mv.take(i + 1).drop_last() =~= mv.take(i as int));
        assert(mv[i as int] == (map@[i as int].0@, map@[i as int].1.deep_view()));
        let c: &RPin = &map[i].1;
        let mut one: i128 = c.cost as i128;
        if c.strap {
            one += 50;
        }
        if req.prefer.mentions(c.name.as_str()) {
            one -= 10;
        }
        if let Some(before) = prev {
            if let Some(pin) = find_pair(&before.pins, map[i].0.as_str()) {
                if same(pin.as_str(), c.name.as_str()) {
                    one -= 5;
                }
            }
        }
        assert(one == pin_cost(rv, pv, mv[i as int]));
        total += one;
        i += 1;
    }
    assert(mv.take(n as int) =~= mv);
    let surplus: i128 = p.provides_ids.len() as i128 - req.iface_closure_len as i128;
    let mut cost: i128 = 100 * surplus + total;
    if let Some(before) = prev {
        if same(before.instance.as_str(), p.name.as_str()) {
            cost -= 20;
        }
    }
    if cost < i64::MIN as i128 {
        i64::MIN
    } else if cost > i64::MAX as i128 {
        i64::MAX
    } else {
        cost as i64
    }
}

/// The map in words.
fn key_of(map: &Vec<(String, RPin)>) -> (r: String)
    ensures
        r@ == map_key(map.deep_view()),
{
    let ghost mv = map.deep_view();
    let n: usize = map.len();
    let mut parts: Vec<String> = Vec::new();
    let mut i: usize = 0;
    while i < n
        invariant
            n == map@.len(),
            mv == map.deep_view(),
            i <= n,
            parts@.len() == i,
            forall|j: int| 0 <= j < i ==> (#[trigger] parts@[j])@ == mv[j].0 + "="@ + mv[j].1.name,
        decreases n - i,
    {
        assert(mv[i as int] == (map@[i as int].0@, map@[i as int].1.deep_view()));
        parts.push(cat3(map[i].0.as_str(), "=", map[i].1.name.as_str()));
        i += 1;
    }
    assert(parts.deep_view() =~= Seq::new(mv.len(), |i: int| mv[i].0 + "="@ + mv[i].1.name));
    join(&parts, ",")
}

/// The combos of the maps that satisfy the lock.
fn make_combos(
    req: &RReq,
    p: &RPeriph,
    at: usize,
    prev: Option<&PrevAssign>,
    maps: &Vec<Vec<(String, RPin)>>,
) -> (r: Vec<Combo>)
    ensures
        r.deep_view() == combos_of(
            req.deep_view(),
            p.deep_view(),
            at,
            prev.deep_view(),
            maps.deep_view(),
        ),
{
    let ghost rv = req.deep_view();
    let ghost pv = p.deep_view();
    let ghost bv = prev.deep_view();
    let ghost mv = maps.deep_view();
    let n: usize = maps.len();
    let mut out: Vec<Combo> = Vec::new();
    let mut i: usize = 0;
    assert(out.deep_view() =~= Seq::empty());
    while i < n
        invariant
            n == maps@.len(),
            rv == req.deep_view(),
            pv == p.deep_view(),
            bv == prev.deep_view(),
            mv == maps.deep_view(),
            i <= n,
            out.deep_view() == combos_of(rv, pv, at, bv, mv.take(i as int)),
        decreases n - i,
    {
        let ghost before = out.deep_view();
        assert(mv.take(i + 1).drop_last() =~= mv.take(i as int));
        assert(mv[i as int] == maps@[i as int].deep_view());
        if meets_lock(req, &maps[i]) {
            let cost: i64 = cost_of(req, p, prev, &maps[i]);
            let key = key_of(&maps[i]);
            let c = Combo { periph_idx: at, pins: maps[i].duplicate(), cost, key };
            let ghost cv = c.deep_view();
            out.push(c);
            assert(out.deep_view() =~= before.push(cv));
        }
        i += 1;
    }
    assert(mv.take(n as int) =~= mv);
    out
}

/// What the providers have for a request.
pub struct Combos {
    /// The combos, cheapest first.
    pub combos: Vec<Combo>,
    /// The providers without a combo, each with the reason.
    pub rejects: Vec<(String, String)>,
    /// Pin maps were cut off.
    pub truncated: bool,
    pub warnings: Vec<String>,
}

/// The value of `Combos`.
#[verifier::ext_equal]
pub struct CombosV {
    pub combos: Seq<ComboV>,
    pub rejects: Seq<(Seq<char>, Seq<char>)>,
    pub truncated: bool,
    pub warnings: Seq<Seq<char>>,
}

impl DeepView for Combos {
    type V = CombosV;

    open spec fn deep_view(&self) -> CombosV {
        CombosV {
            combos: self.combos.deep_view(),
            rejects: self.rejects.deep_view(),
            truncated: self.truncated,
            warnings: self.warnings.deep_view(),
        }
    }
}

/// The warning about pin maps that were cut off.
pub open spec fn cut_text(req: Seq<char>, periph: Seq<char>) -> Seq<char> {
    "pin_solve: request `"@ + req + "`: pin combinations for `"@ + periph
        + "` capped at 512; the assignment may be suboptimal"@
}

/// What the first `n` providers have for the request, in the order of the providers.
pub open spec fn gathered(
    req: RReqV,
    periphs: Seq<RPeriphV>,
    config: Seq<(Seq<char>, ValueV)>,
    prev: Option<PrevAssignV>,
    verdicts: Seq<VerdictV>,
    n: nat,
) -> CombosV
    decreases n,
{
    if n == 0 {
        CombosV {
            combos: Seq::empty(),
            rejects: Seq::empty(),
            truncated: false,
            warnings: Seq::empty(),
        }
    } else {
        let k = n - 1;
        let so_far = gathered(req, periphs, config, prev, verdicts, k as nat);
        let s = served(req, periphs[k], k as usize, config, prev, verdicts[k]);
        CombosV {
            combos: so_far.combos + s.combos,
            rejects: match s.reject {
                Some(why) => so_far.rejects.push((periphs[k].name, why)),
                None => so_far.rejects,
            },
            truncated: so_far.truncated || s.cut,
            warnings: if s.cut {
                so_far.warnings.push(cut_text(req.name, periphs[k].name))
            } else {
                so_far.warnings
            },
        }
    }
}

/// By what the combos are ordered: cost, provider's name, key.
pub open spec fn combo_ranks(periphs: Seq<RPeriphV>, combos: Seq<ComboV>) -> Seq<
    (i64, (Seq<char>, Seq<char>)),
> {
    Seq::new(
        combos.len(),
        |i: int| (combos[i].cost, (periphs[combos[i].periph_idx as int].name, combos[i].key)),
    )
}

/// The combos in order.
pub open spec fn ordered_combos(periphs: Seq<RPeriphV>, combos: Seq<ComboV>) -> Seq<ComboV> {
    picked(combos, ranking::<(i64, (String, String))>(combo_ranks(periphs, combos)))
}

/// What `combos_for_request` returns.
pub open spec fn combos_for(
    req: RReqV,
    periphs: Seq<RPeriphV>,
    config: Seq<(Seq<char>, ValueV)>,
    previous: Seq<(Seq<char>, PrevAssignV)>,
    verdicts: Seq<VerdictV>,
) -> CombosV {
    let all = gathered(
        req,
        periphs,
        config,
        previous_for(previous, req.name),
        verdicts,
        periphs.len(),
    );
    CombosV { combos: ordered_combos(periphs, all.combos), ..all }
}

/// The provider index of each combo is below `n`.
pub open spec fn within(combos: Seq<ComboV>, n: int) -> bool {
    forall|i: int| 0 <= i < combos.len() ==> (#[trigger] combos[i]).periph_idx < n
}

proof fn combos_of_are_at(
    req: RReqV,
    p: RPeriphV,
    at: usize,
    prev: Option<PrevAssignV>,
    maps: Seq<PinMapV>,
)
    ensures
        within(combos_of(req, p, at, prev, maps), at + 1),
    decreases maps.len(),
{
    if maps.len() > 0 {
        combos_of_are_at(req, p, at, prev, maps.drop_last());
    }
}

fn has_id(ids: &Vec<u64>, id: u64) -> (r: bool)
    ensures
        r == ids@.contains(id),
{
    let mut i: usize = 0;
    while i < ids.len()
        invariant
            i <= ids@.len(),
            forall|j: int| 0 <= j < i ==> ids@[j] != id,
        decreases ids@.len() - i,
    {
        if ids[i] == id {
            assert(ids@[i as int] == id);
            return true;
        }
        i += 1;
    }
    false
}

/// Why a provider is out before its predicate is asked.
fn reject_early(req: &RReq, p: &RPeriph, config: &Vec<(String, Value)>) -> (r: Option<String>)
    ensures
        r.deep_view() == early_reject(req.deep_view(), p.deep_view(), config.deep_view()),
{
    if let Some(axis) = &p.unless {
        if config_truthy(config, axis.as_str()) {
            return Some(cat3("disabled by config axis `", axis.as_str(), "`"));
        }
    }
    if !has_id(&p.provides_ids, req.iface_id) {
        if holds(&p.provides_names, req.iface_name.as_str()) {
            return Some(
                cat3(
                    "provides a different ",
                    req.iface_name.as_str(),
                    " — capability types are per interface() declaration, so two declarations never match",
                ),
            );
        }
        return Some("does not provide ".to_string().concat(req.iface_name.as_str()));
    }
    if let Some(inst) = &req.instance {
        let in_pool = match &p.pool {
            Some(pool) => same(pool.as_str(), inst.as_str()),
            None => false,
        };
        if !same(p.name.as_str(), inst.as_str()) && !in_pool {
            return Some(cat3("instance pinned to `", inst.as_str(), "`"));
        }
    }
    None
}

/// Whether the predicate of the request has to be asked about the provider.
pub fn needs_predicate(req: &RReq, p: &RPeriph, config: &Vec<(String, Value)>) -> (r: bool)
    ensures
        r == asks_predicate(req.deep_view(), p.deep_view(), config.deep_view()),
{
    req.where_fn && reject_early(req, p, config).is_none()
}

/// Why the predicate puts a provider out.
fn reject_by_predicate(verdict: &Verdict) -> (r: Option<String>)
    ensures
        r.deep_view() == predicate_reject(verdict.deep_view()),
{
    match verdict {
        Verdict::Accepted => None,
        Verdict::Rejected => Some("where= predicate rejected".to_string()),
        Verdict::Failed(m) => {
            let first = if m.as_str().is_empty() {
                "error".to_string()
            } else {
                headline(m.as_str())
            };
            Some("where= predicate failed: ".to_string().concat(first.as_str()))
        },
    }
}

/// What provider `p`, at place `at`, has for the request.
fn serve(
    req: &RReq,
    p: &RPeriph,
    at: usize,
    config: &Vec<(String, Value)>,
    prev: Option<&PrevAssign>,
    verdict: &Verdict,
) -> (r: (Vec<Combo>, Option<String>, bool))
    ensures
        ({
            let s = served(
                req.deep_view(),
                p.deep_view(),
                at,
                config.deep_view(),
                prev.deep_view(),
                verdict.deep_view(),
            );
            &&& r.0.deep_view() == s.combos
            &&& r.1.deep_view() == s.reject
            &&& r.2 == s.cut
        }),
{
    let none: Vec<Combo> = Vec::new();
    assert(none.deep_view() =~= Seq::empty());
    if let Some(why) = reject_early(req, p, config) {
        return (none, Some(why), false);
    }
    if req.where_fn {
        if let Some(why) = reject_by_predicate(verdict) {
            return (none, Some(why), false);
        }
    }
    let found = match find_candidates(req, p) {
        Ok(found) => found,
        Err(s) => {
            return (none, Some(cat3("no usable candidate for signal `", s.as_str(), "`")), false);
        },
    };
    let (lists, none_left) = enumerate(req, &found);
    let (maps, cut) = map_pins(&lists);
    let combos = make_combos(req, p, at, prev, &maps);
    if combos.len() > 0 {
        return (combos, None, cut);
    }
    let why = match none_left {
        Some(s) => {
            let list = join(s.1, "`, `");
            "signal `".to_string().concat(s.0.as_str()).concat(
                "` has no candidate among the locked pins `",
            ).concat(list.as_str()).concat("`")
        },
        None => {
            if maps.len() > 0 {
                let list = join(&req.prefer.names(), "`, `");
                cat3("no pin combination satisfies the locked pins `", list.as_str(), "`")
            } else {
                "candidate pins collide within the instance".to_string()
            }
        },
    };
    (combos, Some(why), cut)
}

/// Each combo gives a pin to each of `n` signals.
pub open spec fn all_sized(combos: Seq<Combo>, n: int) -> bool {
    forall|i: int| 0 <= i < combos.len() ==> (#[trigger] combos[i]).pins@.len() == n
}

/// Each combo gives a pin to each of `n` signals.
pub open spec fn sized(combos: Seq<ComboV>, n: int) -> bool {
    forall|i: int| 0 <= i < combos.len() ==> (#[trigger] combos[i]).pins.len() == n
}

proof fn candidates_cover_uses(req: RReqV, p: RPeriphV, uses: Seq<Seq<char>>)
    ensures
        take_all(uses, Seq::empty(), candidate_step(req, p)) matches Ok(found) ==> found.len()
            == uses.len(),
    decreases uses.len(),
{
    if uses.len() > 0 {
        candidates_cover_uses(req, p, uses.drop_last());
    }
}

/// Every combo gives a pin to each signal in use.
pub proof fn served_are_sized(
    req: RReqV,
    p: RPeriphV,
    at: usize,
    config: Seq<(Seq<char>, ValueV)>,
    prev: Option<PrevAssignV>,
    verdict: VerdictV,
)
    ensures
        sized(served(req, p, at, config, prev, verdict).combos, req.uses.len() as int),
{
    match candidates(req, p) {
        Ok(found) => {
            candidates_cover_uses(req, p, req.uses);
            let lists = enumerated(req, found);
            let maps = pin_maps(lists).0;
            let combos = combos_of(req, p, at, prev, maps);
            assert forall|i: int| 0 <= i < combos.len() implies (#[trigger] combos[i]).pins.len()
                == req.uses.len() by {
                combos_satisfy_lock(req, p, at, prev, maps, i);
                let k = choose|k: int| 0 <= k < maps.len() && maps[k] == combos[i].pins;
                pin_maps_are_maps(lists, k);
            }
        },
        Err(_) => {},
    }
}

/// Puts the combos in order: by cost, provider's name and key.
fn order_combos(periphs: &Vec<RPeriph>, combos: &Vec<Combo>) -> (r: Vec<Combo>)
    requires
        within(combos.deep_view(), periphs@.len() as int),
    ensures
        forall|n: int| sized(combos.deep_view(), n) ==> #[trigger] all_sized(r@, n),
        r.deep_view() == ordered_combos(periphs.deep_view(), combos.deep_view()),
        forall|i: int| 0 <= i < r@.len() ==> (#[trigger] r@[i]).periph_idx < periphs@.len(),
{
    let ghost pv = periphs.deep_view();
    let ghost cv = combos.deep_view();
    let n: usize = combos.len();
    let mut keys: Vec<(i64, (String, String))> = Vec::new();
    let mut i: usize = 0;
    while i < n
        invariant
            n == combos@.len(),
            pv == periphs.deep_view(),
            cv == combos.deep_view(),
            within(cv, periphs@.len() as int),
            i <= n,
            keys@.len() == i,
            forall|j: int| 0 <= j < i ==> (#[trigger] keys@[j]).deep_view() == combo_ranks(pv, cv)[j],
        decreases n - i,
    {
        assert(cv[i as int] == combos@[i as int].deep_view());
        let c = &combos[i];
        keys.push((c.cost, (periphs[c.periph_idx].name.clone(), c.key.clone())));
        i += 1;
    }
    assert(keys.deep_view() =~= combo_ranks(pv, cv));
    let p = rank_order(&keys);
    let mut out: Vec<Combo> = Vec::new();
    let mut k: usize = 0;
    while k < n
        invariant
            n == combos@.len(),
            n == p@.len(),
            cv == combos.deep_view(),
            forall|j: int| 0 <= j < p@.len() ==> (#[trigger] p@[j]) < n,
            k <= n,
            out@.len() == k,
            forall|j: int| 0 <= j < k ==> (#[trigger] out@[j]).deep_view() == cv[p@[j] as int],
        decreases n - k,
    {
        out.push(combos[p[k]].duplicate());
        k += 1;
    }
    assert(out.deep_view() =~= picked(cv, as_ints(p@)));
    assert forall|i: int| 0 <= i < out@.len() implies (#[trigger] out@[i]).periph_idx
        < periphs@.len() by {
        assert(out@[i].deep_view() == cv[p@[i] as int]);
        assert(cv[p@[i] as int].periph_idx < periphs@.len());
    }
    assert forall|n: int| sized(cv, n) implies #[trigger] all_sized(out@, n) by {
        assert forall|i: int| 0 <= i < out@.len() implies (#[trigger] out@[i]).pins@.len() == n by {
            assert(out@[i].deep_view() == cv[p@[i] as int]);
            assert(cv[p@[i] as int].pins.len() == n);
        }
    }
    out
}

/// The ways to serve a request. `verdicts` holds, for each provider about which the request's
/// predicate has to be asked, what it said.
pub fn combos_for_request(
    req: &RReq,
    periphs: &Vec<RPeriph>,
    config: &Vec<(String, Value)>,
    previous: &Vec<(String, PrevAssign)>,
    verdicts: &Vec<Verdict>,
) -> (r: Combos)
    requires
        verdicts@.len() == periphs@.len(),
    ensures
        r.deep_view() == combos_for(
            req.deep_view(),
            periphs.deep_view(),
            config.deep_view(),
            previous.deep_view(),
            verdicts.deep_view(),
        ),
        forall|i: int|
            0 <= i < r.combos@.len() ==> (#[trigger] r.combos@[i]).periph_idx < periphs@.len(),
        all_sized(r.combos@, req.uses@.len() as int),
{
    let ghost rv = req.deep_view();
    let ghost pv = periphs.deep_view();
    let ghost cv = config.deep_view();
    let ghost vv = verdicts.deep_view();
    let prev = find_previous(previous, req.name.as_str());
    let ghost bv = prev.deep_view();
    let n: usize = periphs.len();
    let mut combos: Vec<Combo> = Vec::new();
    let mut rejects: Vec<(String, String)> = Vec::new();
    let mut truncated = false;
    let mut warnings: Vec<String> = Vec::new();
    let mut i: usize = 0;
    assert(combos.deep_view() =~= Seq::empty());
    assert(rejects.deep_view() =~= Seq::empty());
    assert(warnings.deep_view() =~= Seq::empty());
    while i < n
        invariant
            n == periphs@.len(),
            n == verdicts@.len(),
            rv == req.deep_view(),
            pv == periphs.deep_view(),
            cv == config.deep_view(),
            vv == verdicts.deep_view(),
            bv == prev.deep_view(),
            i <= n,
            gathered(rv, pv, cv, bv, vv, i as nat) == (CombosV {
                combos: combos.deep_view(),
                rejects: rejects.deep_view(),
                truncated,
                warnings: warnings.deep_view(),
            }),
            within(combos.deep_view(), i as int),
            sized(combos.deep_view(), req.uses@.len() as int),
        decreases n - i,
    {
        let ghost s = served(rv, pv[i as int], i, cv, bv, vv[i as int]);
        let ghost c0 = combos.deep_view();
        let ghost r0 = rejects.deep_view();
        let ghost w0 = warnings.deep_view();
        assert(pv[i as int] == periphs@[i as int].deep_view());
        assert(vv[i as int] == verdicts@[i as int].deep_view());
        let (mut found, why, cut) = serve(req, &periphs[i], i, config, prev, &verdicts[i]);
        proof {
            match candidates(rv, pv[i as int]) {
                Ok(lists) => combos_of_are_at(
                    rv,
                    pv[i as int],
                    i,
                    bv,
                    pin_maps(enumerated(rv, lists)).0,
                ),
                Err(_) => {},
            }
            assert(within(s.combos, i + 1));
            served_are_sized(rv, pv[i as int], i, cv, bv, vv[i as int]);
        }
        combos.append(&mut found);
        assert(combos.deep_view() =~= c0 + s.combos);
        assert(within(combos.deep_view(), i + 1)) by {
            assert forall|j: int| 0 <= j < combos.deep_view().len() implies (
            #[trigger] combos.deep_view()[j]).periph_idx < i + 1 by {
                if j < c0.len() {
                    assert(combos.deep_view()[j] == c0[j]);
                } else {
                    assert(combos.deep_view()[j] == s.combos[j - c0.len()]);
                }
            }
        }
        assert(sized(combos.deep_view(), req.uses@.len() as int)) by {
            assert forall|j: int| 0 <= j < combos.deep_view().len() implies (
            #[trigger] combos.deep_view()[j]).pins.len() == req.uses@.len() by {
                if j < c0.len() {
                    assert(combos.deep_view()[j] == c0[j]);
                } else {
                    assert(combos.deep_view()[j] == s.combos[j - c0.len()]);
                }
            }
        }
        if let Some(text) = why {
            let ghost tv = text@;
            rejects.push((periphs[i].name.clone(), text));
            assert(rejects.deep_view() =~= r0.push((pv[i as int].name, tv)));
        }
        if cut {
            truncated = true;
            let text = "pin_solve: request `".to_string().concat(req.name.as_str()).concat(
                "`: pin combinations for `",
            ).concat(periphs[i].name.as_str()).concat(
                "` capped at 512; the assignment may be suboptimal",
            );
            let ghost tv = text@;
            warnings.push(text);
            assert(warnings.deep_view() =~= w0.push(tv));
        }
        i += 1;
    }
    let ordered = order_combos(periphs, &combos);
    Combos { combos: ordered, rejects, truncated, warnings }
}

/// The combos come cheapest first.
pub proof fn combos_are_cheapest_first(periphs: Seq<RPeriphV>, combos: Seq<ComboV>, i: int, j: int)
    requires
        0 <= i <= j < combos.len(),
    ensures
        ordered_combos(periphs, combos).len() == combos.len(),
        ordered_combos(periphs, combos)[i].cost <= ordered_combos(periphs, combos)[j].cost,
{
    let ranks = combo_ranks(periphs, combos);
    ranking_is_stable::<(i64, (String, String))>(ranks);
    let p = ranking::<(i64, (String, String))>(ranks);
    if i < j {
        assert(goes_before::<(i64, (String, String))>(ranks, p[i], p[j]));
    }
}

/// The map gives the signals, in order, each one of its candidates, and no pin twice.
pub open spec fn map_over(map: PinMapV, found: Seq<(Seq<char>, Seq<RPinV>)>) -> bool {
    &&& map.len() == found.len()
    &&& forall|i: int|
        0 <= i < map.len() ==> (#[trigger] map[i]).0 == found[i].0 && found[i].1.contains(map[i].1)
    &&& forall|i: int, j: int|
        0 <= i < j < map.len() ==> (#[trigger] map[i]).1.name != (#[trigger] map[j]).1.name
}

proof fn extensions_are_maps(
    base: PinMapV,
    front: Seq<(Seq<char>, Seq<RPinV>)>,
    sig: Seq<char>,
    all: Seq<RPinV>,
    pins: Seq<RPinV>,
    k: int,
)
    requires
        map_over(base, front),
        0 <= k < extensions(base, sig, pins).len(),
        forall|i: int| 0 <= i < pins.len() ==> all.contains(#[trigger] pins[i]),
    ensures
        map_over(extensions(base, sig, pins)[k], front.push((sig, all))),
    decreases pins.len(),
{
    let rest = extensions(base, sig, pins.drop_last());
    if k < rest.len() {
        assert forall|i: int| 0 <= i < pins.drop_last().len() implies all.contains(
            #[trigger] pins.drop_last()[i],
        ) by {
            assert(pins.drop_last()[i] == pins[i]);
        }
        extensions_are_maps(base, front, sig, all, pins.drop_last(), k);
    } else {
        let m = base.push((sig, pins.last()));
        assert(extensions(base, sig, pins)[k] == m);
        assert(pins[pins.len() - 1] == pins.last());
        assert forall|i: int, j: int| 0 <= i < j < m.len() implies (#[trigger] m[i]).1.name != (
        #[trigger] m[j]).1.name by {
            if j < base.len() {
                assert(base[i].1.name != base[j].1.name);
            } else {
                assert(base[i].1.name == m[i].1.name);
            }
        }
        assert forall|i: int| 0 <= i < m.len() implies (#[trigger] m[i]).0 == front.push(
            (sig, all),
        )[i].0 && front.push((sig, all))[i].1.contains(m[i].1) by {
            if i < base.len() {
                assert(m[i] == base[i]);
            }
        }
    }
}

proof fn product_is_maps(
    bases: Seq<PinMapV>,
    front: Seq<(Seq<char>, Seq<RPinV>)>,
    sig: Seq<char>,
    pins: Seq<RPinV>,
    k: int,
)
    requires
        forall|b: int| 0 <= b < bases.len() ==> map_over(#[trigger] bases[b], front),
        0 <= k < product(bases, sig, pins).len(),
    ensures
        map_over(product(bases, sig, pins)[k], front.push((sig, pins))),
    decreases bases.len(),
{
    let rest = product(bases.drop_last(), sig, pins);
    if k < rest.len() {
        assert forall|b: int| 0 <= b < bases.drop_last().len() implies map_over(
            #[trigger] bases.drop_last()[b],
            front,
        ) by {
            assert(bases.drop_last()[b] == bases[b]);
        }
        product_is_maps(bases.drop_last(), front, sig, pins, k);
    } else {
        assert(bases[bases.len() - 1] == bases.last());
        extensions_are_maps(bases.last(), front, sig, pins, pins, k - rest.len());
    }
}

/// Every pin map gives each signal, in order, one of its candidates, and uses no pin twice.
pub proof fn pin_maps_are_maps(found: Seq<(Seq<char>, Seq<RPinV>)>, k: int)
    requires
        0 <= k < pin_maps(found).0.len(),
    ensures
        map_over(pin_maps(found).0[k], found),
    decreases found.len(),
{
    if found.len() > 0 {
        let front = found.drop_last();
        let bases = pin_maps(front).0;
        assert forall|b: int| 0 <= b < bases.len() implies map_over(#[trigger] bases[b], front) by {
            pin_maps_are_maps(front, b);
        }
        product_is_maps(bases, front, found.last().0, found.last().1, k);
        assert(front.push(found.last()) =~= found);
    }
}

/// Every combo comes from a pin map that satisfies the request's lock.
pub proof fn combos_satisfy_lock(
    req: RReqV,
    p: RPeriphV,
    at: usize,
    prev: Option<PrevAssignV>,
    maps: Seq<PinMapV>,
    k: int,
)
    requires
        0 <= k < combos_of(req, p, at, prev, maps).len(),
    ensures
        satisfies_lock(req, combos_of(req, p, at, prev, maps)[k].pins),
        maps.contains(combos_of(req, p, at, prev, maps)[k].pins),
    decreases maps.len(),
{
    if maps.len() > 0 {
        let front = combos_of(req, p, at, prev, maps.drop_last());
        if k < front.len() {
            combos_satisfy_lock(req, p, at, prev, maps.drop_last(), k);
            let m = front[k].pins;
            let i = choose|i: int| 0 <= i < maps.drop_last().len() && maps.drop_last()[i] == m;
            assert(maps[i] == m);
        } else {
            assert(maps[maps.len() - 1] == maps.last());
        }
    }
}

} // verus!
