//! What a solve reports: warnings, assignment, what is held, and what may be swapped.
use vstd::prelude::*;

use crate::json::{json_find, member_find, member_put, put_is_found, put_keeps_others, JsonV};
use crate::order::sorting_keeps_items;
use crate::pinmux::constraints::{
    claim_index, claim_is_unique, claimable, first_net, is_claim, EntryV,
};
use crate::pinmux::model::{Combo, ComboV, RPeriph, RPeriphV, RPinV, RReq, RReqV};
use crate::pinmux::place::{
    claim_instances, claim_pins, counted, counts, find_held, Claim, ClaimV, Held,
};
use crate::pinmux::prepare::{input_for, is_served, periph_names, req_names};
use crate::pinmux::report::{
    all_strap_warnings, alternates_json, assignment_json, not_in, pin_entry, request_entry,
    signals_json, strap_warnings, with_data,
};
use crate::pinmux::solve::{report_solve, Ledger, Solved};
use crate::pinmux::swaps::{
    cluster_units, pool_class, pool_members, provider, same_ids, swaps, unit_pins,
};
use crate::pinmux::value::ValueV;
use crate::steps::{only, only_holds};

verus! {

/// The words of the warning about a strapping pin.
pub open spec fn strap_text(request: Seq<char>, sig: Seq<char>, pin: Seq<char>) -> Seq<char> {
    "pin_solve: request `"@ + request + "` signal `"@ + sig + "` uses strapping pin `"@ + pin + "`"@
}

/// Signal `k` of request `i` was given a strapping pin.
pub open spec fn is_strapped(chosen: Seq<ComboV>, i: int, k: int) -> bool {
    &&& 0 <= i < chosen.len()
    &&& 0 <= k < chosen[i].pins.len()
    &&& chosen[i].pins[k].1.strap
}

proof fn straps_of_request(name: Seq<char>, pins: Seq<(Seq<char>, RPinV)>, w: Seq<char>)
    ensures
        strap_warnings(name, pins).contains(w) <==> exists|k: int|
            0 <= k < pins.len() && (#[trigger] pins[k]).1.strap && w == strap_text(
                name,
                pins[k].0,
                pins[k].1.name,
            ),
    decreases pins.len(),
{
    if pins.len() > 0 {
        let front = pins.drop_last();
        straps_of_request(name, front, w);
        let f = strap_warnings(name, front);
        let r = strap_warnings(name, pins);
        let end = pins.len() - 1;
        assert(pins[end] == pins.last());
        if f.contains(w) {
            let x = choose|x: int| 0 <= x < f.len() && f[x] == w;
            assert(r[x] == w);
            let k = choose|k: int|
                0 <= k < front.len() && (#[trigger] front[k]).1.strap && w == strap_text(
                    name,
                    front[k].0,
                    front[k].1.name,
                );
            assert(pins[k].1.strap);
        }
        if r.contains(w) {
            let x = choose|x: int| 0 <= x < r.len() && r[x] == w;
            if x < f.len() {
                assert(f[x] == w);
            } else {
                assert(pins[end].1.strap);
            }
        }
        if exists|k: int|
            0 <= k < pins.len() && (#[trigger] pins[k]).1.strap && w == strap_text(
                name,
                pins[k].0,
                pins[k].1.name,
            ) {
            let k = choose|k: int|
                0 <= k < pins.len() && (#[trigger] pins[k]).1.strap && w == strap_text(
                    name,
                    pins[k].0,
                    pins[k].1.name,
                );
            if k < end {
                assert(front[k].1.strap);
            } else {
                assert(r[r.len() - 1] == w);
            }
        }
    }
}

proof fn straps_of_all(reqs: Seq<RReqV>, chosen: Seq<ComboV>, n: nat, w: Seq<char>)
    requires
        n <= chosen.len(),
    ensures
        all_strap_warnings(reqs, chosen, n).contains(w) <==> exists|i: int, k: int|
            i < n && #[trigger] is_strapped(chosen, i, k) && w == strap_text(
                reqs[i].name,
                chosen[i].pins[k].0,
                chosen[i].pins[k].1.name,
            ),
    decreases n,
{
    if n > 0 {
        straps_of_all(reqs, chosen, (n - 1) as nat, w);
        let i = n - 1;
        straps_of_request(reqs[i].name, chosen[i].pins, w);
        let f = all_strap_warnings(reqs, chosen, (n - 1) as nat);
        let g = strap_warnings(reqs[i].name, chosen[i].pins);
        let r = all_strap_warnings(reqs, chosen, n);
        assert(r == f + g);
        if f.contains(w) {
            let x = choose|x: int| 0 <= x < f.len() && f[x] == w;
            assert(r[x] == w);
        }
        if g.contains(w) {
            let x = choose|x: int| 0 <= x < g.len() && g[x] == w;
            assert(r[f.len() + x] == w);
            let pins = chosen[i].pins;
            let k = choose|k: int|
                0 <= k < pins.len() && (#[trigger] pins[k]).1.strap && w == strap_text(
                    reqs[i].name,
                    pins[k].0,
                    pins[k].1.name,
                );
            assert(is_strapped(chosen, i, k));
        }
        if r.contains(w) {
            let x = choose|x: int| 0 <= x < r.len() && r[x] == w;
            if x < f.len() {
                assert(f[x] == w);
            } else {
                assert(g[x - f.len()] == w);
            }
        }
        if exists|j: int, k: int|
            j < n && #[trigger] is_strapped(chosen, j, k) && w == strap_text(
                reqs[j].name,
                chosen[j].pins[k].0,
                chosen[j].pins[k].1.name,
            ) {
            let (j, k) = choose|j: int, k: int|
                j < n && #[trigger] is_strapped(chosen, j, k) && w == strap_text(
                    reqs[j].name,
                    chosen[j].pins[k].0,
                    chosen[j].pins[k].1.name,
                );
            if j == i {
                assert(chosen[i].pins[k].1.strap);
            }
        }
    }
}

/// A solve warns of every strapping pin that it uses, and of no other.
pub proof fn every_strapping_pin_is_told(
    reqs: Vec<RReq>,
    periphs: Vec<RPeriph>,
    chosen: Vec<Combo>,
    ledger: Ledger,
    r: (Solved, Vec<String>),
    w: Seq<char>,
)
    requires
        report_solve.ensures((&reqs, &periphs, &chosen, &ledger), r),
        reqs@.len() == chosen@.len(),
    ensures
        r.1.deep_view().contains(w) <==> exists|i: int, k: int| #[trigger]
            is_strapped(chosen.deep_view(), i, k) && w == strap_text(
                reqs.deep_view()[i].name,
                chosen.deep_view()[i].pins[k].0,
                chosen.deep_view()[i].pins[k].1.name,
            ),
{
    straps_of_all(reqs.deep_view(), chosen.deep_view(), reqs@.len(), w);
}

proof fn data_keeps_pin(members: Seq<(Seq<char>, JsonV)>, data: Seq<(Seq<char>, JsonV)>, key: Seq<char>)
    requires
        forall|i: int| 0 <= i < data.len() ==> (#[trigger] data[i]).0 != key,
    ensures
        member_find(with_data(members, data), key) == member_find(members, key),
    decreases data.len(),
{
    if data.len() > 0 {
        let front = data.drop_last();
        assert forall|i: int| 0 <= i < front.len() implies (#[trigger] front[i]).0 != key by {
            assert(front[i] == data[i]);
        }
        data_keeps_pin(members, front, key);
        assert(data[data.len() - 1].0 != key);
        put_keeps_others(with_data(members, front), data.last().0, data.last().1, key);
    }
}

proof fn signal_is_listed(pins: Seq<(Seq<char>, RPinV)>, k: int)
    requires
        0 <= k < pins.len(),
        forall|i: int, j: int| 0 <= i < j < pins.len() ==> (#[trigger] pins[i]).0 != (#[trigger] pins[j]).0,
    ensures
        member_find(signals_json(pins), pins[k].0) == Some(pin_entry(pins[k].1)),
    decreases pins.len(),
{
    let front = pins.drop_last();
    if k == pins.len() - 1 {
        put_is_found(signals_json(front), pins[k].0, pin_entry(pins[k].1));
    } else {
        assert forall|i: int, j: int| 0 <= i < j < front.len() implies (#[trigger] front[i]).0 != (
        #[trigger] front[j]).0 by {
            assert(pins[i].0 != pins[j].0);
        }
        signal_is_listed(front, k);
        assert(pins[k].0 != pins[pins.len() - 1].0);
        put_keeps_others(signals_json(front), pins.last().0, pin_entry(pins.last().1), pins[k].0);
    }
}

proof fn entry_keys_differ()
    ensures
        "instance"@ != "iface"@,
        "instance"@ != "pool"@,
        "instance"@ != "rebind"@,
        "instance"@ != "signals"@,
        "instance"@ != "alternates"@,
        "iface"@ != "pool"@,
        "iface"@ != "rebind"@,
        "iface"@ != "signals"@,
        "iface"@ != "alternates"@,
        "pool"@ != "rebind"@,
        "pool"@ != "signals"@,
        "pool"@ != "alternates"@,
        "rebind"@ != "signals"@,
        "rebind"@ != "alternates"@,
        "signals"@ != "alternates"@,
{
    reveal_strlit("instance");
    reveal_strlit("iface");
    reveal_strlit("pool");
    reveal_strlit("rebind");
    reveal_strlit("signals");
    reveal_strlit("alternates");
    assert("instance"@[0] == 'i' && "instance"@.len() == 8);
    assert("iface"@[0] == 'i' && "iface"@.len() == 5);
    assert("pool"@[0] == 'p');
    assert("rebind"@[0] == 'r');
    assert("signals"@[0] == 's');
    assert("alternates"@[0] == 'a');
}

/// The entry of a request in the assignment names the provider, its pool and how it is rebound, the
/// interface, and under each signal the pin that it was given.
pub proof fn entries_name_provider_and_pins(
    r: RReqV,
    p: RPeriphV,
    c: ComboV,
    used: Seq<Seq<char>>,
    k: int,
)
    requires
        0 <= k < c.pins.len(),
        forall|i: int, j: int|
            0 <= i < j < c.pins.len() ==> (#[trigger] c.pins[i]).0 != (#[trigger] c.pins[j]).0,
        forall|i: int|
            0 <= i < c.pins[k].1.data.len() ==> (#[trigger] c.pins[k].1.data[i]).0 != "pin"@,
    ensures
        ({
            let e = request_entry(r, p, c, used);
            let signals = json_find(e, "signals"@);
            &&& json_find(e, "instance"@) == Some(JsonV::Str(p.name))
            &&& json_find(e, "iface"@) == Some(JsonV::Str(r.iface_name))
            &&& p.pool matches Some(pool) ==> json_find(e, "pool"@) == Some(JsonV::Str(pool))
            &&& p.pool is None ==> json_find(e, "pool"@) == Some(JsonV::Null)
            &&& json_find(e, "rebind"@) == Some(JsonV::Str(p.rebind))
            &&& signals is Some
            &&& json_find(signals->0, c.pins[k].0) is Some
            &&& json_find(json_find(signals->0, c.pins[k].0)->0, "pin"@) == Some(
                JsonV::Str(c.pins[k].1.name),
            )
        }),
{
    entry_keys_differ();
    signal_is_listed(c.pins, k);
    let pin = c.pins[k].1;
    let own = member_put(Seq::empty(), "pin"@, JsonV::Str(pin.name));
    put_is_found(Seq::empty(), "pin"@, JsonV::Str(pin.name));
    data_keeps_pin(own, pin.data, "pin"@);
    let m0 = Seq::<(Seq<char>, JsonV)>::empty();
    let v1 = JsonV::Str(p.name);
    let m1 = member_put(m0, "instance"@, v1);
    let v2 = JsonV::Str(r.iface_name);
    let m2 = member_put(m1, "iface"@, v2);
    let v3 = match p.pool {
        Some(pool) => JsonV::Str(pool),
        None => JsonV::Null,
    };
    let m3 = member_put(m2, "pool"@, v3);
    let v4 = JsonV::Str(p.rebind);
    let m4 = member_put(m3, "rebind"@, v4);
    let v5 = JsonV::Object(signals_json(c.pins));
    let m5 = member_put(m4, "signals"@, v5);
    let v6 = JsonV::Object(alternates_json(p, c.pins, used));
    put_is_found(m0, "instance"@, v1);
    put_is_found(m1, "iface"@, v2);
    put_is_found(m2, "pool"@, v3);
    put_is_found(m3, "rebind"@, v4);
    put_is_found(m4, "signals"@, v5);
    put_keeps_others(m1, "iface"@, v2, "instance"@);
    put_keeps_others(m2, "pool"@, v3, "instance"@);
    put_keeps_others(m2, "pool"@, v3, "iface"@);
    put_keeps_others(m3, "rebind"@, v4, "instance"@);
    put_keeps_others(m3, "rebind"@, v4, "iface"@);
    put_keeps_others(m3, "rebind"@, v4, "pool"@);
    put_keeps_others(m4, "signals"@, v5, "instance"@);
    put_keeps_others(m4, "signals"@, v5, "iface"@);
    put_keeps_others(m4, "signals"@, v5, "pool"@);
    put_keeps_others(m4, "signals"@, v5, "rebind"@);
    put_keeps_others(m5, "alternates"@, v6, "instance"@);
    put_keeps_others(m5, "alternates"@, v6, "iface"@);
    put_keeps_others(m5, "alternates"@, v6, "pool"@);
    put_keeps_others(m5, "alternates"@, v6, "rebind"@);
    put_keeps_others(m5, "alternates"@, v6, "signals"@);
}

/// Each request has its own entry in the assignment: that of the combo that was chosen for it.
pub proof fn every_request_is_assigned(
    reqs: Seq<RReqV>,
    periphs: Seq<RPeriphV>,
    chosen: Seq<ComboV>,
    used: Seq<Seq<char>>,
    n: nat,
    i: int,
)
    requires
        0 <= i < n <= reqs.len(),
        forall|a: int, b: int| 0 <= a < b < reqs.len() ==> (#[trigger] reqs[a]).name != (#[trigger] reqs[b]).name,
    ensures
        member_find(assignment_json(reqs, periphs, chosen, used, n), reqs[i].name) == Some(
            request_entry(reqs[i], periphs[chosen[i].periph_idx as int], chosen[i], used),
        ),
    decreases n,
{
    let k = n - 1;
    let front = assignment_json(reqs, periphs, chosen, used, k as nat);
    let e = request_entry(reqs[k], periphs[chosen[k].periph_idx as int], chosen[k], used);
    if i == k {
        put_is_found(front, reqs[k].name, e);
    } else {
        every_request_is_assigned(reqs, periphs, chosen, used, k as nat, i);
        assert(reqs[i].name != reqs[k].name);
        put_keeps_others(front, reqs[k].name, e, reqs[i].name);
    }
}

/// Another request holds an instance of this table by the claim.
pub open spec fn stands_against(c: ClaimV, reqs: Seq<RReqV>, periphs: Seq<RPeriphV>) -> bool {
    &&& forall|i: int| 0 <= i < reqs.len() ==> (#[trigger] reqs[i]).name != c.request
    &&& exists|i: int| 0 <= i < periphs.len() && (#[trigger] periphs[i]).name == c.instance
}

proof fn claims_that_count(c: ClaimV, reqs: Seq<RReqV>, periphs: Seq<RPeriphV>)
    ensures
        counts(c, reqs, periphs) <==> stands_against(c, reqs, periphs),
{
    let rn = req_names(reqs);
    let pn = periph_names(periphs);
    if rn.contains(c.request) {
        let i = choose|i: int| 0 <= i < rn.len() && rn[i] == c.request;
        assert(reqs[i].name == c.request);
    }
    if exists|i: int| 0 <= i < reqs.len() && (#[trigger] reqs[i]).name == c.request {
        let i = choose|i: int| 0 <= i < reqs.len() && (#[trigger] reqs[i]).name == c.request;
        assert(rn[i] == c.request);
    }
    if pn.contains(c.instance) {
        let i = choose|i: int| 0 <= i < pn.len() && pn[i] == c.instance;
        assert(periphs[i].name == c.instance);
    }
    if exists|i: int| 0 <= i < periphs.len() && (#[trigger] periphs[i]).name == c.instance {
        let i = choose|i: int| 0 <= i < periphs.len() && (#[trigger] periphs[i]).name == c.instance;
        assert(pn[i] == c.instance);
    }
}

proof fn counted_claims(claims: Seq<ClaimV>, reqs: Seq<RReqV>, periphs: Seq<RPeriphV>, x: ClaimV)
    ensures
        counted(claims, reqs, periphs).contains(x) <==> claims.contains(x) && stands_against(
            x,
            reqs,
            periphs,
        ),
    decreases claims.len(),
{
    if claims.len() > 0 {
        let front = claims.drop_last();
        counted_claims(front, reqs, periphs, x);
        claims_that_count(claims.last(), reqs, periphs);
        let f = counted(front, reqs, periphs);
        let r = counted(claims, reqs, periphs);
        if f.contains(x) {
            let k = choose|k: int| 0 <= k < f.len() && f[k] == x;
            assert(r[k] == x);
            let j = choose|j: int| 0 <= j < front.len() && front[j] == x;
            assert(claims[j] == x);
        }
        if r.contains(x) {
            let k = choose|k: int| 0 <= k < r.len() && r[k] == x;
            if k < f.len() {
                assert(f[k] == x);
            } else {
                assert(claims[claims.len() - 1] == x);
            }
        }
        if claims.contains(x) && stands_against(x, reqs, periphs) {
            let j = choose|j: int| 0 <= j < claims.len() && claims[j] == x;
            if j < front.len() {
                assert(front[j] == x);
            } else {
                assert(r[r.len() - 1] == x);
            }
        }
    }
}

proof fn pins_of_claims(claims: Seq<ClaimV>, pin: Seq<char>)
    ensures
        claim_pins(claims).contains(pin) <==> exists|i: int|
            0 <= i < claims.len() && (#[trigger] claims[i]).pins.contains(pin),
    decreases claims.len(),
{
    if claims.len() > 0 {
        let front = claims.drop_last();
        pins_of_claims(front, pin);
        let f = claim_pins(front);
        let g = claims.last().pins;
        let r = claim_pins(claims);
        let end = claims.len() - 1;
        assert(claims[end] == claims.last());
        if f.contains(pin) {
            let k = choose|k: int| 0 <= k < f.len() && f[k] == pin;
            assert(r[k] == pin);
            let i = choose|i: int| 0 <= i < front.len() && (#[trigger] front[i]).pins.contains(pin);
            assert(claims[i].pins.contains(pin));
        }
        if g.contains(pin) {
            let k = choose|k: int| 0 <= k < g.len() && g[k] == pin;
            assert(r[f.len() + k] == pin);
            assert(claims[end].pins.contains(pin));
        }
        if r.contains(pin) {
            let k = choose|k: int| 0 <= k < r.len() && r[k] == pin;
            if k < f.len() {
                assert(f[k] == pin);
            } else {
                assert(g[k - f.len()] == pin);
            }
        }
        if exists|i: int| 0 <= i < claims.len() && (#[trigger] claims[i]).pins.contains(pin) {
            let i = choose|i: int| 0 <= i < claims.len() && (#[trigger] claims[i]).pins.contains(pin);
            if i < end {
                assert(front[i].pins.contains(pin));
            }
        }
    }
}

/// What earlier solves hold against this one is what they claimed for other requests on instances of
/// this table; a request that is solved again gives up what it had.
pub proof fn other_requests_keep_their_claims(
    claims: Vec<Claim>,
    reqs: Vec<RReq>,
    periphs: Vec<RPeriph>,
    r: Held,
    name: Seq<char>,
)
    requires
        find_held.ensures((&claims, &reqs, &periphs), r),
    ensures
        ({
            let cv = claims.deep_view();
            let rv = reqs.deep_view();
            let pv = periphs.deep_view();
            &&& r.deep_view().pins.contains(name) <==> exists|i: int|
                0 <= i < cv.len() && stands_against(#[trigger] cv[i], rv, pv)
                    && cv[i].pins.contains(name)
            &&& r.deep_view().instances.contains(name) <==> exists|i: int|
                0 <= i < cv.len() && stands_against(#[trigger] cv[i], rv, pv) && cv[i].instance
                    == name
        }),
{
    let cv = claims.deep_view();
    let rv = reqs.deep_view();
    let pv = periphs.deep_view();
    let c = counted(cv, rv, pv);
    pins_of_claims(c, name);
    let names = r.deep_view().instances;
    assert(names == claim_instances(c));
    if exists|i: int| 0 <= i < c.len() && (#[trigger] c[i]).pins.contains(name) {
        let i = choose|i: int| 0 <= i < c.len() && (#[trigger] c[i]).pins.contains(name);
        assert(c.contains(c[i]));
        counted_claims(cv, rv, pv, c[i]);
        let k = choose|k: int| 0 <= k < cv.len() && cv[k] == c[i];
        assert(stands_against(cv[k], rv, pv));
    }
    if exists|i: int|
        0 <= i < cv.len() && stands_against(#[trigger] cv[i], rv, pv) && cv[i].pins.contains(name) {
        let i = choose|i: int|
            0 <= i < cv.len() && stands_against(#[trigger] cv[i], rv, pv) && cv[i].pins.contains(
                name,
            );
        counted_claims(cv, rv, pv, cv[i]);
        assert(cv.contains(cv[i]));
        let k = choose|k: int| 0 <= k < c.len() && c[k] == cv[i];
        assert(c[k].pins.contains(name));
    }
    if names.contains(name) {
        let i = choose|i: int| 0 <= i < names.len() && names[i] == name;
        assert(c.contains(c[i]));
        counted_claims(cv, rv, pv, c[i]);
        let k = choose|k: int| 0 <= k < cv.len() && cv[k] == c[i];
        assert(stands_against(cv[k], rv, pv));
    }
    if exists|i: int|
        0 <= i < cv.len() && stands_against(#[trigger] cv[i], rv, pv) && cv[i].instance == name {
        let i = choose|i: int|
            0 <= i < cv.len() && stands_against(#[trigger] cv[i], rv, pv) && cv[i].instance == name;
        counted_claims(cv, rv, pv, cv[i]);
        assert(cv.contains(cv[i]));
        let k = choose|k: int| 0 <= k < c.len() && c[k] == cv[i];
        assert(names[k] == name);
    }
}

/// A request is left out only where it asks to be served when connected, and is not: no input of its
/// name is there, or the name is that of a configuration.
pub proof fn requests_are_served_when_connected(
    r: RReqV,
    configs: Seq<Seq<char>>,
    inputs: Seq<(Seq<char>, ValueV)>,
)
    ensures
        is_served(r, configs, inputs) <==> !r.if_connected || (!configs.contains(r.name) && exists|
            i: int,
        |
            0 <= i < inputs.len() && (#[trigger] inputs[i]).0 == r.name),
{
    input_is_found(inputs, r.name);
}

proof fn input_is_found(inputs: Seq<(Seq<char>, ValueV)>, name: Seq<char>)
    ensures
        input_for(inputs, name) is Some <==> exists|i: int|
            0 <= i < inputs.len() && (#[trigger] inputs[i]).0 == name,
    decreases inputs.len(),
{
    if inputs.len() > 0 {
        let rest = inputs.drop_first();
        input_is_found(rest, name);
        if inputs[0].0 != name {
            if exists|i: int| 0 <= i < rest.len() && (#[trigger] rest[i]).0 == name {
                let i = choose|i: int| 0 <= i < rest.len() && (#[trigger] rest[i]).0 == name;
                assert(inputs[i + 1].0 == name);
            }
            if exists|i: int| 0 <= i < inputs.len() && (#[trigger] inputs[i]).0 == name {
                let i = choose|i: int| 0 <= i < inputs.len() && (#[trigger] inputs[i]).0 == name;
                assert(rest[i - 1].0 == name);
            }
        }
    }
}

/// The request may trade places: it is not locked to pins.
pub open spec fn may_trade(r: RReqV) -> bool {
    r.lock ==> r.prefer.any.len() == 0 && r.prefer.by_signal.len() == 0
}

/// Request `i` may trade, and was given a unit of the pool.
pub open spec fn trades_in(
    reqs: Seq<RReqV>,
    periphs: Seq<RPeriphV>,
    chosen: Seq<ComboV>,
    pool: Seq<char>,
    i: int,
) -> bool {
    &&& 0 <= i < reqs.len()
    &&& may_trade(reqs[i])
    &&& periphs[chosen[i].periph_idx as int].pool == Some(pool)
}

proof fn members_found(
    reqs: Seq<RReqV>,
    periphs: Seq<RPeriphV>,
    chosen: Seq<ComboV>,
    pool: Seq<char>,
    n: nat,
    m: (Seq<char>, Seq<char>),
)
    requires
        n <= reqs.len(),
    ensures
        pool_members(reqs, periphs, chosen, pool, n).contains(m) <==> exists|i: int|
            i < n && #[trigger] trades_in(reqs, periphs, chosen, pool, i) && m == (
                reqs[i].name,
                chosen[i].pins[0].1.name,
            ),
    decreases n,
{
    if n > 0 {
        members_found(reqs, periphs, chosen, pool, (n - 1) as nat, m);
        let f = pool_members(reqs, periphs, chosen, pool, (n - 1) as nat);
        let r = pool_members(reqs, periphs, chosen, pool, n);
        let i = n - 1;
        assert((swaps(reqs[i]) && provider(periphs, chosen[i]).pool == Some(pool)) == trades_in(
            reqs,
            periphs,
            chosen,
            pool,
            i,
        ));
        if f.contains(m) {
            let k = choose|k: int| 0 <= k < f.len() && f[k] == m;
            assert(r[k] == m);
        }
        if r.contains(m) {
            let k = choose|k: int| 0 <= k < r.len() && r[k] == m;
            if k < f.len() {
                assert(f[k] == m);
            } else {
                assert(trades_in(reqs, periphs, chosen, pool, i));
            }
        }
        if trades_in(reqs, periphs, chosen, pool, i) && m == (
            reqs[i].name,
            chosen[i].pins[0].1.name,
        ) {
            assert(r[r.len() - 1] == m);
        }
    }
}

proof fn units_found(periphs: Seq<RPeriphV>, pool: Seq<char>, pin: Seq<char>)
    ensures
        unit_pins(periphs, pool).contains(pin) <==> exists|i: int|
            0 <= i < periphs.len() && (#[trigger] periphs[i]).pool == Some(pool)
                && periphs[i].signals.len() > 0 && periphs[i].signals[0].1.len() > 0
                && periphs[i].signals[0].1[0].name == pin,
    decreases periphs.len(),
{
    if periphs.len() > 0 {
        let front = periphs.drop_last();
        units_found(front, pool, pin);
        let f = unit_pins(front, pool);
        let r = unit_pins(periphs, pool);
        let end = periphs.len() - 1;
        assert(periphs[end] == periphs.last());
        if f.contains(pin) {
            let k = choose|k: int| 0 <= k < f.len() && f[k] == pin;
            assert(r[k] == pin);
            let i = choose|i: int|
                0 <= i < front.len() && (#[trigger] front[i]).pool == Some(pool)
                    && front[i].signals.len() > 0 && front[i].signals[0].1.len() > 0
                    && front[i].signals[0].1[0].name == pin;
            assert(periphs[i].pool == Some(pool));
        }
        if r.contains(pin) {
            let k = choose|k: int| 0 <= k < r.len() && r[k] == pin;
            if k < f.len() {
                assert(f[k] == pin);
            } else {
                assert(periphs[end].pool == Some(pool));
            }
        }
        if exists|i: int|
            0 <= i < periphs.len() && (#[trigger] periphs[i]).pool == Some(pool)
                && periphs[i].signals.len() > 0 && periphs[i].signals[0].1.len() > 0
                && periphs[i].signals[0].1[0].name == pin {
            let i = choose|i: int|
                0 <= i < periphs.len() && (#[trigger] periphs[i]).pool == Some(pool)
                    && periphs[i].signals.len() > 0 && periphs[i].signals[0].1.len() > 0
                    && periphs[i].signals[0].1[0].name == pin;
            if i < end {
                assert(front[i].pool == Some(pool));
            } else {
                assert(r[r.len() - 1] == pin);
            }
        }
    }
}

/// The requests that may trade within a pool are those that were given a unit of it and are not
/// locked to pins, each with its pin; spare are the pins of its units that nobody uses.
pub proof fn pools_trade_what_is_not_locked(
    reqs: Seq<RReqV>,
    periphs: Seq<RPeriphV>,
    chosen: Seq<ComboV>,
    used: Seq<Seq<char>>,
    pool: Seq<char>,
    m: (Seq<char>, Seq<char>),
    pin: Seq<char>,
)
    ensures
        ({
            let c = pool_class(reqs, periphs, chosen, used, pool);
            &&& c.pool == pool
            &&& c.members.contains(m) <==> exists|i: int| #[trigger]
                trades_in(reqs, periphs, chosen, pool, i) && m == (
                    reqs[i].name,
                    chosen[i].pins[0].1.name,
                )
            &&& c.spares.contains(pin) <==> !used.contains(pin) && exists|i: int|
                0 <= i < periphs.len() && (#[trigger] periphs[i]).pool == Some(pool)
                    && periphs[i].signals.len() > 0 && periphs[i].signals[0].1.len() > 0
                    && periphs[i].signals[0].1[0].name == pin
        }),
{
    let members = pool_members(reqs, periphs, chosen, pool, reqs.len());
    sorting_keeps_items::<(String, String)>(members, m);
    members_found(reqs, periphs, chosen, pool, reqs.len(), m);
    let units = unit_pins(periphs, pool);
    sorting_keeps_items::<String>(only(units, not_in(used)), pin);
    only_holds(units, not_in(used), pin);
    units_found(periphs, pool, pin);
}

/// The two lists hold the same identities.
pub open spec fn hold_the_same(a: Seq<u64>, b: Seq<u64>) -> bool {
    forall|x: u64| a.contains(x) <==> b.contains(x)
}

proof fn same_identities(a: Seq<u64>, b: Seq<u64>)
    ensures
        same_ids(a, b) <==> hold_the_same(a, b),
{
    if same_ids(a, b) {
        assert forall|x: u64| a.contains(x) <==> b.contains(x) by {
            if a.contains(x) {
                let i = choose|i: int| 0 <= i < a.len() && a[i] == x;
                assert(b.contains(a[i]));
            }
            if b.contains(x) {
                let i = choose|i: int| 0 <= i < b.len() && b[i] == x;
                assert(a.contains(b[i]));
            }
        }
    }
    if hold_the_same(a, b) {
        assert forall|i: int| 0 <= i < a.len() implies b.contains(#[trigger] a[i]) by {
            assert(a.contains(a[i]));
        }
        assert forall|i: int| 0 <= i < b.len() implies a.contains(#[trigger] b[i]) by {
            assert(b.contains(b[i]));
        }
    }
}

/// The units of a cluster are the providers outside all pools that are never rebound and that
/// provide the same.
pub proof fn clusters_hold_equal_units(periphs: Seq<RPeriphV>, key: Seq<u64>, name: Seq<char>)
    ensures
        cluster_units(periphs, key).contains(name) <==> exists|i: int|
            0 <= i < periphs.len() && (#[trigger] periphs[i]).name == name && periphs[i].pool is None
                && periphs[i].rebind == "none"@ && hold_the_same(key, periphs[i].provides_ids),
    decreases periphs.len(),
{
    if periphs.len() > 0 {
        let front = periphs.drop_last();
        clusters_hold_equal_units(front, key, name);
        let f = cluster_units(front, key);
        let r = cluster_units(periphs, key);
        let end = periphs.len() - 1;
        assert(periphs[end] == periphs.last());
        same_identities(key, periphs.last().provides_ids);
        if f.contains(name) {
            let k = choose|k: int| 0 <= k < f.len() && f[k] == name;
            assert(r[k] == name);
            let i = choose|i: int|
                0 <= i < front.len() && (#[trigger] front[i]).name == name && front[i].pool is None
                    && front[i].rebind == "none"@ && hold_the_same(key, front[i].provides_ids);
            assert(periphs[i].name == name);
        }
        if r.contains(name) {
            let k = choose|k: int| 0 <= k < r.len() && r[k] == name;
            if k < f.len() {
                assert(f[k] == name);
            } else {
                assert(periphs[end].name == name);
            }
        }
        if exists|i: int|
            0 <= i < periphs.len() && (#[trigger] periphs[i]).name == name && periphs[i].pool is None
                && periphs[i].rebind == "none"@ && hold_the_same(key, periphs[i].provides_ids) {
            let i = choose|i: int|
                0 <= i < periphs.len() && (#[trigger] periphs[i]).name == name
                    && periphs[i].pool is None && periphs[i].rebind == "none"@ && hold_the_same(
                    key,
                    periphs[i].provides_ids,
                );
            if i < end {
                assert(front[i].name == name);
            } else {
                assert(r[r.len() - 1] == name);
            }
        }
    }
}

/// The record can be claimed: it is open, was made in a module that holds the solver's or is it, has
/// a net in common, and, where it was made in the module of the solver itself, is for the input.
pub open spec fn is_claimable(
    e: EntryV,
    nets: Seq<u64>,
    solver: Seq<Seq<char>>,
    input: Seq<char>,
) -> bool {
    &&& !e.consumed
    &&& e.owner.len() <= solver.len()
    &&& forall|i: int| 0 <= i < e.owner.len() ==> #[trigger] e.owner[i] == solver[i]
    &&& exists|i: int| 0 <= i < nets.len() && e.nets.contains(#[trigger] nets[i])
    &&& e.owner.len() == solver.len() ==> e.input == input
}

proof fn first_net_is_shared(e: EntryV, nets: Seq<u64>)
    ensures
        0 <= first_net(e, nets) <= nets.len(),
        first_net(e, nets) < nets.len() <==> exists|i: int|
            0 <= i < nets.len() && e.nets.contains(#[trigger] nets[i]),
    decreases nets.len(),
{
    if nets.len() > 0 {
        let front = nets.drop_last();
        first_net_is_shared(e, front);
        let end = nets.len() - 1;
        assert(nets[end] == nets.last());
        if first_net(e, front) < front.len() {
            let i = choose|i: int| 0 <= i < front.len() && e.nets.contains(#[trigger] front[i]);
            assert(nets[i] == front[i]);
            assert(e.nets.contains(nets[i]));
        }
        if exists|i: int| 0 <= i < nets.len() && e.nets.contains(#[trigger] nets[i]) {
            let i = choose|i: int| 0 <= i < nets.len() && e.nets.contains(#[trigger] nets[i]);
            if i < end {
                assert(front[i] == nets[i]);
                assert(e.nets.contains(front[i]));
            }
        }
    }
}

/// What a solver claims is a record that it can claim, made in the nearest module: no other record
/// that it can claim was made deeper. It claims none only where there is none.
pub proof fn the_nearest_record_is_claimed(
    entries: Seq<EntryV>,
    nets: Seq<u64>,
    solver: Seq<Seq<char>>,
    input: Seq<char>,
    i: int,
)
    requires
        is_claim(entries, nets, solver, input, i) || claim_index(entries, nets, solver, input) is None,
    ensures
        match claim_index(entries, nets, solver, input) {
            Some(k) => {
                &&& 0 <= k < entries.len()
                &&& is_claimable(entries[k], nets, solver, input)
                &&& forall|j: int|
                    0 <= j < entries.len() && is_claimable(#[trigger] entries[j], nets, solver, input)
                        ==> entries[j].owner.len() <= entries[k].owner.len()
            },
            None => forall|j: int|
                0 <= j < entries.len() ==> !is_claimable(#[trigger] entries[j], nets, solver, input),
        },
{
    assert forall|j: int| 0 <= j < entries.len() implies claimable(
        #[trigger] entries[j],
        nets,
        solver,
        input,
    ) == is_claimable(entries[j], nets, solver, input) by {
        let e = entries[j];
        first_net_is_shared(e, nets);
        if e.owner.is_prefix_of(solver) {
            assert(e.owner =~= solver.take(e.owner.len() as int));
        }
        if e.owner.len() <= solver.len() && forall|x: int|
            0 <= x < e.owner.len() ==> #[trigger] e.owner[x] == solver[x] {
            assert(e.owner =~= solver.take(e.owner.len() as int));
        }
    }
    if claim_index(entries, nets, solver, input) is Some {
        claim_is_unique(entries, nets, solver, input, i);
    }
}

} // verus!
