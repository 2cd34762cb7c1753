//! The report of a solve: the assignment with its alternates, and the pins left free.
use vstd::prelude::*;

use crate::json::{contents_are_json_values, member_put, put, Json, JsonV};
use crate::order::{in_order, sorted};
use crate::pinmux::access::contents_are_values;
use crate::pinmux::combos::signal_pins;
use crate::pinmux::model::{Combo, ComboV, RPeriph, RPeriphV, RPin, RPinV, RReq, RReqV};
use crate::pinmux::place::all_within;
use crate::pinmux::value::{Value, ValueV};
use crate::steps::{distinct, only, only_one_more};
use crate::text::{cat5, holds};

verus! {

/// The pins of a combo.
pub open spec fn combo_pins(c: ComboV) -> Seq<Seq<char>> {
    Seq::new(c.pins.len(), |i: int| c.pins[i].1.name)
}

/// The pins of the combos.
pub open spec fn pins_of(chosen: Seq<ComboV>) -> Seq<Seq<char>>
    decreases chosen.len(),
{
    if chosen.len() == 0 {
        Seq::empty()
    } else {
        pins_of(chosen.drop_last()) + combo_pins(chosen.last())
    }
}

/// The pins in use: those held by other solves and those of the chosen combos.
pub fn used_pins(held: &Vec<String>, chosen: &Vec<Combo>) -> (r: Vec<String>)
    ensures
        r.deep_view() == held.deep_view() + pins_of(chosen.deep_view()),
{
    let ghost cv = chosen.deep_view();
    let ghost hv = held.deep_view();
    let mut out = held.clone();
    assert(out.deep_view() =~= hv + pins_of(cv.take(0)));
    let n: usize = chosen.len();
    let mut i: usize = 0;
    while i < n
        invariant
            n == chosen@.len(),
            cv == chosen.deep_view(),
            i <= n,
            out.deep_view() == hv + pins_of(cv.take(i as int)),
        decreases n - i,
    {
        let ghost base = out.deep_view();
        let ghost c = cv[i as int];
        assert(cv.take(i + 1).drop_last() =~= cv.take(i as int));
        assert(c == chosen@[i as int].deep_view());
        let m: usize = chosen[i].pins.len();
        let mut k: usize = 0;
        assert(base + combo_pins(c).take(0) =~= base);
        while k < m
            invariant
                i < n,
                n == chosen@.len(),
                m == chosen@[i as int].pins@.len(),
                c == chosen@[i as int].deep_view(),
                k <= m,
                out.deep_view() == base + combo_pins(c).take(k as int),
            decreases m - k,
        {
            let ghost before = out.deep_view();
            out.push(chosen[i].pins[k].1.name.clone());
            assert(out.deep_view() =~= before.push(combo_pins(c)[k as int]));
            assert(out.deep_view() =~= base + combo_pins(c).take(k + 1));
            k += 1;
        }
        assert(combo_pins(c).take(m as int) =~= combo_pins(c));
        assert(out.deep_view() =~= hv + pins_of(cv.take(i + 1)));
        i += 1;
    }
    assert(cv.take(n as int) =~= cv);
    out
}

/// The members with the realization data of a pin put in.
pub open spec fn with_data(members: Seq<(Seq<char>, JsonV)>, data: Seq<(Seq<char>, JsonV)>) -> Seq<
    (Seq<char>, JsonV),
>
    decreases data.len(),
{
    if data.len() == 0 {
        members
    } else {
        member_put(with_data(members, data.drop_last()), data.last().0, data.last().1)
    }
}

/// What the assignment says of one pin: its name, and its realization data next to it.
pub open spec fn pin_entry(p: RPinV) -> JsonV {
    JsonV::Object(with_data(member_put(Seq::empty(), "pin"@, JsonV::Str(p.name)), p.data))
}

/// The pins of the signals, by signal.
pub open spec fn signals_json(pins: Seq<(Seq<char>, RPinV)>) -> Seq<(Seq<char>, JsonV)>
    decreases pins.len(),
{
    if pins.len() == 0 {
        Seq::empty()
    } else {
        member_put(signals_json(pins.drop_last()), pins.last().0, pin_entry(pins.last().1))
    }
}

/// The names of the pins.
pub open spec fn pin_names_of(pins: Seq<RPinV>) -> Seq<Seq<char>> {
    Seq::new(pins.len(), |i: int| pins[i].name)
}

/// Not among the names.
pub open spec fn not_in(names: Seq<Seq<char>>) -> spec_fn(Seq<char>) -> bool {
    |n: Seq<char>| !names.contains(n)
}

/// The candidates of a signal that are not in use.
pub open spec fn free_candidates(p: RPeriphV, sig: Seq<char>, used: Seq<Seq<char>>) -> Seq<Seq<char>> {
    match signal_pins(p.signals, sig) {
        Some(c) => only(pin_names_of(c), not_in(used)),
        None => Seq::empty(),
    }
}

/// A list of texts.
pub open spec fn text_array(list: Seq<Seq<char>>) -> JsonV {
    JsonV::Array(Seq::new(list.len(), |i: int| JsonV::Str(list[i])))
}

/// The free candidates of the signals, by signal, where there are any.
pub open spec fn alternates_json(
    p: RPeriphV,
    pins: Seq<(Seq<char>, RPinV)>,
    used: Seq<Seq<char>>,
) -> Seq<(Seq<char>, JsonV)>
    decreases pins.len(),
{
    if pins.len() == 0 {
        Seq::empty()
    } else {
        let front = alternates_json(p, pins.drop_last(), used);
        let free = free_candidates(p, pins.last().0, used);
        if free.len() > 0 {
            member_put(front, pins.last().0, text_array(free))
        } else {
            front
        }
    }
}

/// What the assignment says of one request.
pub open spec fn request_entry(r: RReqV, p: RPeriphV, c: ComboV, used: Seq<Seq<char>>) -> JsonV {
    let m0 = Seq::<(Seq<char>, JsonV)>::empty();
    let m1 = member_put(m0, "instance"@, JsonV::Str(p.name));
    let m2 = member_put(m1, "iface"@, JsonV::Str(r.iface_name));
    let m3 = member_put(
        m2,
        "pool"@,
        match p.pool {
            Some(pool) => JsonV::Str(pool),
            None => JsonV::Null,
        },
    );
    let m4 = member_put(m3, "rebind"@, JsonV::Str(p.rebind));
    let m5 = member_put(m4, "signals"@, JsonV::Object(signals_json(c.pins)));
    JsonV::Object(
        member_put(m5, "alternates"@, JsonV::Object(alternates_json(p, c.pins, used))),
    )
}

/// The assignment of the first `n` requests, by request.
pub open spec fn assignment_json(
    reqs: Seq<RReqV>,
    periphs: Seq<RPeriphV>,
    chosen: Seq<ComboV>,
    used: Seq<Seq<char>>,
    n: nat,
) -> Seq<(Seq<char>, JsonV)>
    decreases n,
{
    if n == 0 {
        Seq::empty()
    } else {
        let k = n - 1;
        member_put(
            assignment_json(reqs, periphs, chosen, used, k as nat),
            reqs[k].name,
            request_entry(reqs[k], periphs[chosen[k].periph_idx as int], chosen[k], used),
        )
    }
}

/// The warnings about strapping pins of one request.
pub open spec fn strap_warnings(name: Seq<char>, pins: Seq<(Seq<char>, RPinV)>) -> Seq<Seq<char>>
    decreases pins.len(),
{
    if pins.len() == 0 {
        Seq::empty()
    } else {
        let front = strap_warnings(name, pins.drop_last());
        if pins.last().1.strap {
            front.push(
                "pin_solve: request `"@ + name + "` signal `"@ + pins.last().0
                    + "` uses strapping pin `"@ + pins.last().1.name + "`"@,
            )
        } else {
            front
        }
    }
}

/// The warnings about strapping pins of the first `n` requests.
pub open spec fn all_strap_warnings(reqs: Seq<RReqV>, chosen: Seq<ComboV>, n: nat) -> Seq<Seq<char>>
    decreases n,
{
    if n == 0 {
        Seq::empty()
    } else {
        all_strap_warnings(reqs, chosen, (n - 1) as nat) + strap_warnings(
            reqs[n - 1].name,
            chosen[n - 1].pins,
        )
    }
}

fn make_pin_entry(p: &RPin) -> (r: Json)
    ensures
        r.value() == pin_entry(p.deep_view()),
{
    let ghost dv = p.data.deep_view();
    let mut members: Vec<(String, Json)> = Vec::new();
    assert(members.deep_view() =~= Seq::empty());
    put(&mut members, "pin".to_string(), Json::Str(p.name.clone()));
    let ghost first = members.deep_view();
    let n: usize = p.data.len();
    let mut i: usize = 0;
    assert(with_data(first, dv.take(0)) == first);
    while i < n
        invariant
            n == p.data@.len(),
            dv == p.data.deep_view(),
            i <= n,
            members.deep_view() == with_data(first, dv.take(i as int)),
        decreases n - i,
    {
        assert(dv.take(i + 1).drop_last() =~= dv.take(i as int));
        assert(dv[i as int] == (p.data@[i as int].0@, p.data@[i as int].1.value()));
        put(&mut members, p.data[i].0.clone(), p.data[i].1.copy());
        i += 1;
    }
    assert(dv.take(n as int) =~= dv);
    let r = Json::Object(members);
    proof {
        contents_are_json_values(r);
    }
    r
}

/// A list of texts.
pub fn make_text_array(list: &Vec<String>) -> (r: Json)
    ensures
        r.value() == text_array(list.deep_view()),
{
    let ghost lv = list.deep_view();
    let n: usize = list.len();
    let mut out: Vec<Json> = Vec::new();
    let mut i: usize = 0;
    while i < n
        invariant
            n == list@.len(),
            lv == list.deep_view(),
            i <= n,
            out@.len() == i,
            forall|j: int| 0 <= j < i ==> (#[trigger] out@[j]).value() == JsonV::Str(lv[j]),
        decreases n - i,
    {
        out.push(Json::Str(list[i].clone()));
        i += 1;
    }
    assert(out.deep_view() =~= Seq::new(lv.len(), |i: int| JsonV::Str(lv[i])));
    let r = Json::Array(out);
    proof {
        contents_are_json_values(r);
    }
    r
}

fn find_free_candidates(p: &RPeriph, sig: &str, used: &Vec<String>) -> (r: Vec<String>)
    ensures
        r.deep_view() == free_candidates(p.deep_view(), sig@, used.deep_view()),
{
    let mut out: Vec<String> = Vec::new();
    assert(out.deep_view() =~= Seq::empty());
    let cands = match p.signal(sig) {
        Some(c) => c,
        None => {
            return out;
        },
    };
    let ghost names = pin_names_of(cands.deep_view());
    let ghost test = not_in(used.deep_view());
    let n: usize = cands.len();
    let mut i: usize = 0;
    while i < n
        invariant
            n == cands@.len(),
            names == pin_names_of(cands.deep_view()),
            test == not_in(used.deep_view()),
            i <= n,
            out.deep_view() == only(names.take(i as int), test),
        decreases n - i,
    {
        let ghost before = out.deep_view();
        proof {
            only_one_more(names, test, i as int);
        }
        assert(names[i as int] == cands@[i as int].name@);
        if !holds(used, cands[i].name.as_str()) {
            out.push(cands[i].name.clone());
            assert(out.deep_view() =~= before.push(names[i as int]));
        }
        i += 1;
    }
    assert(names.take(n as int) =~= names);
    out
}

/// The signals and the alternates of one request.
fn make_signal_members(p: &RPeriph, c: &Combo, used: &Vec<String>) -> (r: (
    Vec<(String, Json)>,
    Vec<(String, Json)>,
))
    ensures
        r.0.deep_view() == signals_json(c.deep_view().pins),
        r.1.deep_view() == alternates_json(p.deep_view(), c.deep_view().pins, used.deep_view()),
{
    let ghost pv = p.deep_view();
    let ghost pins = c.deep_view().pins;
    let ghost uv = used.deep_view();
    let mut signals: Vec<(String, Json)> = Vec::new();
    let mut alternates: Vec<(String, Json)> = Vec::new();
    let n: usize = c.pins.len();
    let mut i: usize = 0;
    assert(signals.deep_view() =~= Seq::empty());
    assert(alternates.deep_view() =~= Seq::empty());
    while i < n
        invariant
            n == c.pins@.len(),
            pv == p.deep_view(),
            pins == c.deep_view().pins,
            uv == used.deep_view(),
            i <= n,
            signals.deep_view() == signals_json(pins.take(i as int)),
            alternates.deep_view() == alternates_json(pv, pins.take(i as int), uv),
        decreases n - i,
    {
        assert(pins.take(i + 1).drop_last() =~= pins.take(i as int));
        assert(pins[i as int] == (c.pins@[i as int].0@, c.pins@[i as int].1.deep_view()));
        put(&mut signals, c.pins[i].0.clone(), make_pin_entry(&c.pins[i].1));
        let free = find_free_candidates(p, c.pins[i].0.as_str(), used);
        if free.len() > 0 {
            put(&mut alternates, c.pins[i].0.clone(), make_text_array(&free));
        }
        i += 1;
    }
    assert(pins.take(n as int) =~= pins);
    (signals, alternates)
}

fn make_request_entry(r: &RReq, p: &RPeriph, c: &Combo, used: &Vec<String>) -> (out: Json)
    ensures
        out.value() == request_entry(r.deep_view(), p.deep_view(), c.deep_view(), used.deep_view()),
{
    let (signals, alternates) = make_signal_members(p, c, used);
    let sig_json = Json::Object(signals);
    let alt_json = Json::Object(alternates);
    proof {
        contents_are_json_values(sig_json);
        contents_are_json_values(alt_json);
    }
    let mut m: Vec<(String, Json)> = Vec::new();
    assert(m.deep_view() =~= Seq::empty());
    put(&mut m, "instance".to_string(), Json::Str(p.name.clone()));
    put(&mut m, "iface".to_string(), Json::Str(r.iface_name.clone()));
    let pool = match &p.pool {
        Some(pool) => Json::Str(pool.clone()),
        None => Json::Null,
    };
    put(&mut m, "pool".to_string(), pool);
    put(&mut m, "rebind".to_string(), Json::Str(p.rebind.clone()));
    put(&mut m, "signals".to_string(), sig_json);
    put(&mut m, "alternates".to_string(), alt_json);
    let out = Json::Object(m);
    proof {
        contents_are_json_values(out);
    }
    out
}

fn find_strap_warnings(name: &str, c: &Combo) -> (r: Vec<String>)
    ensures
        r.deep_view() == strap_warnings(name@, c.deep_view().pins),
{
    let ghost pins = c.deep_view().pins;
    let n: usize = c.pins.len();
    let mut out: Vec<String> = Vec::new();
    let mut i: usize = 0;
    assert(out.deep_view() =~= Seq::empty());
    while i < n
        invariant
            n == c.pins@.len(),
            pins == c.deep_view().pins,
            i <= n,
            out.deep_view() == strap_warnings(name@, pins.take(i as int)),
        decreases n - i,
    {
        let ghost before = out.deep_view();
        assert(pins.take(i + 1).drop_last() =~= pins.take(i as int));
        assert(pins[i as int] == (c.pins@[i as int].0@, c.pins@[i as int].1.deep_view()));
        if c.pins[i].1.strap {
            let text = cat5(
                "pin_solve: request `",
                name,
                "` signal `",
                c.pins[i].0.as_str(),
                "` uses strapping pin `",
            ).concat(c.pins[i].1.name.as_str()).concat("`");
            let ghost tv = text@;
            out.push(text);
            assert(out.deep_view() =~= before.push(tv));
        }
        i += 1;
    }
    assert(pins.take(n as int) =~= pins);
    out
}

/// The assignment, by request, and the warnings about strapping pins.
pub fn make_assignment(
    reqs: &Vec<RReq>,
    periphs: &Vec<RPeriph>,
    chosen: &Vec<Combo>,
    used: &Vec<String>,
) -> (r: (Vec<(String, Json)>, Vec<String>))
    requires
        chosen@.len() == reqs@.len(),
        all_within(chosen@, periphs@.len() as int),
    ensures
        r.0.deep_view() == assignment_json(
            reqs.deep_view(),
            periphs.deep_view(),
            chosen.deep_view(),
            used.deep_view(),
            reqs@.len(),
        ),
        r.1.deep_view() == all_strap_warnings(reqs.deep_view(), chosen.deep_view(), reqs@.len()),
{
    let ghost rv = reqs.deep_view();
    let ghost pv = periphs.deep_view();
    let ghost cv = chosen.deep_view();
    let ghost uv = used.deep_view();
    let n: usize = reqs.len();
    let mut members: Vec<(String, Json)> = Vec::new();
    let mut warnings: Vec<String> = Vec::new();
    let mut i: usize = 0;
    assert(members.deep_view() =~= Seq::empty());
    assert(warnings.deep_view() =~= Seq::empty());
    while i < n
        invariant
            n == reqs@.len(),
            n == chosen@.len(),
            all_within(chosen@, periphs@.len() as int),
            rv == reqs.deep_view(),
            pv == periphs.deep_view(),
            cv == chosen.deep_view(),
            uv == used.deep_view(),
            i <= n,
            members.deep_view() == assignment_json(rv, pv, cv, uv, i as nat),
            warnings.deep_view() == all_strap_warnings(rv, cv, i as nat),
        decreases n - i,
    {
        let ghost w0 = warnings.deep_view();
        assert(rv[i as int] == reqs@[i as int].deep_view());
        assert(cv[i as int] == chosen@[i as int].deep_view());
        let at: usize = chosen[i].periph_idx;
        assert(chosen@[i as int].periph_idx < periphs@.len());
        assert(pv[at as int] == periphs@[at as int].deep_view());
        let entry = make_request_entry(&reqs[i], &periphs[at], &chosen[i], used);
        put(&mut members, reqs[i].name.clone(), entry);
        let mut more = find_strap_warnings(reqs[i].name.as_str(), &chosen[i]);
        let ghost mv = more.deep_view();
        warnings.append(&mut more);
        assert(warnings.deep_view() =~= w0 + mv);
        i += 1;
    }
    (members, warnings)
}

/// The names of all candidate pins of the signals.
pub open spec fn signal_names_of(signals: Seq<(Seq<char>, Seq<RPinV>)>) -> Seq<Seq<char>>
    decreases signals.len(),
{
    if signals.len() == 0 {
        Seq::empty()
    } else {
        signal_names_of(signals.drop_last()) + pin_names_of(signals.last().1)
    }
}

/// The names of all candidate pins.
pub open spec fn candidate_names(periphs: Seq<RPeriphV>) -> Seq<Seq<char>>
    decreases periphs.len(),
{
    if periphs.len() == 0 {
        Seq::empty()
    } else {
        candidate_names(periphs.drop_last()) + signal_names_of(periphs.last().signals)
    }
}

/// Candidate pins that nobody uses, each once, sorted.
pub open spec fn free_pins_of(periphs: Seq<RPeriphV>, used: Seq<Seq<char>>) -> Seq<Seq<char>> {
    sorted::<String>(distinct(only(candidate_names(periphs), not_in(used))))
}

fn add_names(out: &mut Vec<String>, pins: &Vec<RPin>)
    ensures
        final(out).deep_view() == old(out).deep_view() + pin_names_of(pins.deep_view()),
{
    let ghost base = out.deep_view();
    let ghost names = pin_names_of(pins.deep_view());
    let n: usize = pins.len();
    let mut i: usize = 0;
    assert(base + names.take(0) =~= base);
    while i < n
        invariant
            n == pins@.len(),
            names == pin_names_of(pins.deep_view()),
            i <= n,
            out.deep_view() == base + names.take(i as int),
        decreases n - i,
    {
        let ghost before = out.deep_view();
        out.push(pins[i].name.clone());
        assert(out.deep_view() =~= before.push(names[i as int]));
        assert(out.deep_view() =~= base + names.take(i + 1));
        i += 1;
    }
    assert(names.take(n as int) =~= names);
}

fn add_signal_names(out: &mut Vec<String>, signals: &Vec<(String, Vec<RPin>)>)
    ensures
        final(out).deep_view() == old(out).deep_view() + signal_names_of(signals.deep_view()),
{
    let ghost base = out.deep_view();
    let ghost sv = signals.deep_view();
    let n: usize = signals.len();
    let mut i: usize = 0;
    assert(base + signal_names_of(sv.take(0)) =~= base);
    while i < n
        invariant
            n == signals@.len(),
            sv == signals.deep_view(),
            i <= n,
            out.deep_view() == base + signal_names_of(sv.take(i as int)),
        decreases n - i,
    {
        assert(sv.take(i + 1).drop_last() =~= sv.take(i as int));
        assert(sv[i as int] == (signals@[i as int].0@, signals@[i as int].1.deep_view()));
        add_names(out, &signals[i].1);
        assert(out.deep_view() =~= base + signal_names_of(sv.take(i + 1)));
        i += 1;
    }
    assert(sv.take(n as int) =~= sv);
}

/// Candidate pins that nobody uses, each once, sorted.
pub fn find_free_pins(periphs: &Vec<RPeriph>, used: &Vec<String>) -> (r: Vec<String>)
    ensures
        r.deep_view() == free_pins_of(periphs.deep_view(), used.deep_view()),
{
    let ghost pv = periphs.deep_view();
    let mut all: Vec<String> = Vec::new();
    let n: usize = periphs.len();
    let mut i: usize = 0;
    assert(all.deep_view() =~= Seq::empty());
    while i < n
        invariant
            n == periphs@.len(),
            pv == periphs.deep_view(),
            i <= n,
            all.deep_view() == candidate_names(pv.take(i as int)),
        decreases n - i,
    {
        assert(pv.take(i + 1).drop_last() =~= pv.take(i as int));
        assert(pv[i as int] == periphs@[i as int].deep_view());
        add_signal_names(&mut all, &periphs[i].signals);
        i += 1;
    }
    assert(pv.take(n as int) =~= pv);
    let ghost names = all.deep_view();
    let ghost test = not_in(used.deep_view());
    let mut free: Vec<String> = Vec::new();
    let m: usize = all.len();
    let mut k: usize = 0;
    assert(free.deep_view() =~= distinct(only(names.take(0), test)));
    while k < m
        invariant
            m == all@.len(),
            names == all.deep_view(),
            test == not_in(used.deep_view()),
            k <= m,
            free.deep_view() == distinct(only(names.take(k as int), test)),
        decreases m - k,
    {
        let ghost before = free.deep_view();
        proof {
            only_one_more(names, test, k as int);
        }
        if !holds(used, all[k].as_str()) {
            let ghost longer = only(names.take(k + 1), test);
            assert(longer.drop_last() =~= only(names.take(k as int), test));
            if !holds(&free, all[k].as_str()) {
                free.push(all[k].clone());
                assert(free.deep_view() =~= before.push(names[k as int]));
            }
        }
        k += 1;
    }
    assert(names.take(m as int) =~= names);
    in_order(&free)
}

/// The value that a JSON tree stands for.
pub open spec fn value_of_json(j: JsonV) -> ValueV
    decreases j,
{
    match j {
        JsonV::Null => ValueV::Nothing,
        JsonV::Bool(b) => ValueV::Bool(b),
        JsonV::Int(i) => ValueV::Int(i),
        JsonV::Float(t, n) => ValueV::Float(t, n),
        JsonV::Str(s) => ValueV::Str(s),
        JsonV::Array(a) => ValueV::List(
            Seq::new(
                a.len(),
                |i: int|
                    if 0 <= i < a.len() {
                        value_of_json(a[i])
                    } else {
                        ValueV::Nothing
                    },
            ),
        ),
        JsonV::Object(m) => ValueV::Dict(
            Seq::new(
                m.len(),
                |i: int|
                    if 0 <= i < m.len() {
                        (ValueV::Str(m[i].0), value_of_json(m[i].1))
                    } else {
                        (ValueV::Nothing, ValueV::Nothing)
                    },
            ),
        ),
    }
}

/// The value that a JSON tree stands for.
pub fn json_to_value(j: &Json) -> (r: Value)
    ensures
        r.value() == value_of_json(j.value()),
    decreases j,
{
    match j {
        Json::Null => Value::Nothing,
        Json::Bool(b) => Value::Bool(*b),
        Json::Int(i) => Value::Int(*i),
        Json::Float(t, n) => Value::Float(t.clone(), *n),
        Json::Str(s) => Value::Str(s.clone()),
        Json::Array(a) => {
            let n: usize = a.len();
            let mut out: Vec<Value> = Vec::new();
            let mut i: usize = 0;
            while i < n
                invariant
                    n == a@.len(),
                    i <= n,
                    j is Array,
                    *a == j->Array_0,
                    out@.len() == i,
                    forall|k: int|
                        0 <= k < i ==> (#[trigger] out@[k]).value() == value_of_json(a@[k].value()),
                decreases n - i,
            {
                assert(decreases_to!(*j => j->Array_0));
                assert(decreases_to!(*a => a@));
                assert(decreases_to!(a@ => a@[i as int]));
                out.push(json_to_value(&a[i]));
                i += 1;
            }
            let r = Value::List(out);
            proof {
                contents_are_json_values(*j);
                contents_are_values(r);
                assert(out.deep_view() =~= value_of_json(j.value())->List_0);
            }
            r
        },
        Json::Object(m) => {
            let n: usize = m.len();
            let mut out: Vec<(Value, Value)> = Vec::new();
            let mut i: usize = 0;
            while i < n
                invariant
                    n == m@.len(),
                    i <= n,
                    j is Object,
                    *m == j->Object_0,
                    out@.len() == i,
                    forall|k: int|
                        0 <= k < i ==> (#[trigger] out@[k]).0.value() == ValueV::Str(m@[k].0@)
                            && out@[k].1.value() == value_of_json(m@[k].1.value()),
                decreases n - i,
            {
                assert(decreases_to!(*j => j->Object_0));
                assert(decreases_to!(*m => m@));
                assert(decreases_to!(m@ => m@[i as int]));
                assert(decreases_to!(m@[i as int] => m@[i as int].1));
                out.push((Value::Str(m[i].0.clone()), json_to_value(&m[i].1)));
                i += 1;
            }
            let r = Value::Dict(out);
            proof {
                contents_are_json_values(*j);
                contents_are_values(r);
                assert(out.deep_view() =~= value_of_json(j.value())->Dict_0);
            }
            r
        },
    }
}

} // verus!
