//! What a solve works on: the providers, and the requests with their constraints applied.
use vstd::prelude::*;

use crate::duplicate::Duplicate;
use crate::pinmux::access::contents_are_values;
use crate::pinmux::constraints::{
    after_claim, after_settle, claimed_lock, ConstraintsV, PinConstraints,
};
use crate::pinmux::declare::{connected_value, pin_at_of, unpack_pin_at};
use crate::pinmux::iface::{collect_net_ids, first_repeat, net_ids, repeated};
use crate::pinmux::lock::{stray_signal, stray_text};
use crate::pinmux::model::{PinLock, RPeriph, RPeriphV, RReq, RReqV};
use crate::pinmux::parse::{parse_rperiph, parse_rreq, rperiph_of, rreq_of};
use crate::pinmux::value::{Value, ValueV};
use crate::steps::{failure_stays, take_all, take_one_more};
use crate::text::{cat3, holds, same};

verus! {

/// Takes one peripheral.
pub open spec fn periph_step() -> spec_fn(Seq<RPeriphV>, ValueV) -> Result<Seq<RPeriphV>, Seq<char>> {
    |out: Seq<RPeriphV>, v: ValueV|
        match rperiph_of(v) {
            Ok(p) => Ok(out.push(p)),
            Err(e) => Err(e),
        }
}

/// Takes one entry of the peripheral list: a peripheral, or a list of peripherals.
pub open spec fn periph_entry_step() -> spec_fn(Seq<RPeriphV>, ValueV) -> Result<
    Seq<RPeriphV>,
    Seq<char>,
> {
    |out: Seq<RPeriphV>, v: ValueV|
        match v {
            ValueV::List(a) => take_all(a, out, periph_step()),
            _ => periph_step()(out, v),
        }
}

/// The names of the peripherals.
pub open spec fn periph_names(periphs: Seq<RPeriphV>) -> Seq<Seq<char>> {
    Seq::new(periphs.len(), |i: int| periphs[i].name)
}

/// The peripherals that a value lists, one level of nesting flattened; no two have one name.
pub open spec fn peripherals_of(v: ValueV) -> Result<Seq<RPeriphV>, Seq<char>> {
    match v {
        ValueV::List(a) => match take_all(a, Seq::empty(), periph_entry_step()) {
            Err(e) => Err(e),
            Ok(periphs) => match first_repeat(periph_names(periphs)) {
                Some(n) => Err("pin_solve: duplicate peripheral name `"@ + n + "`"@),
                None => Ok(periphs),
            },
        },
        _ => Err("pin_solve: peripherals must be a list"@),
    }
}

/// Takes one request.
pub open spec fn req_step() -> spec_fn(Seq<RReqV>, ValueV) -> Result<Seq<RReqV>, Seq<char>> {
    |out: Seq<RReqV>, v: ValueV|
        match rreq_of(v) {
            Ok(r) => Ok(out.push(r)),
            Err(e) => Err(e),
        }
}

/// The names of the requests.
pub open spec fn req_names(reqs: Seq<RReqV>) -> Seq<Seq<char>> {
    Seq::new(reqs.len(), |i: int| reqs[i].name)
}

/// The requests that a value lists; no two have one name.
pub open spec fn requests_of(v: ValueV) -> Result<Seq<RReqV>, Seq<char>> {
    match v {
        ValueV::List(a) => match take_all(a, Seq::empty(), req_step()) {
            Err(e) => Err(e),
            Ok(reqs) => match first_repeat(req_names(reqs)) {
                Some(n) => Err("pin_solve: duplicate request name `"@ + n + "`"@),
                None => Ok(reqs),
            },
        },
        _ => Err("pin_solve: requests must be a list"@),
    }
}

fn add_peripherals(list: &Vec<Value>, out: Vec<RPeriph>) -> (r: Result<Vec<RPeriph>, String>)
    ensures
        match r {
            Ok(p) => take_all(list.deep_view(), out.deep_view(), periph_step()) == Ok::<_, Seq<char>>(
                p.deep_view(),
            ),
            Err(e) => take_all(list.deep_view(), out.deep_view(), periph_step()) == Err::<
                Seq<RPeriphV>,
                _,
            >(e@),
        },
{
    let ghost init = out.deep_view();
    let ghost lv = list.deep_view();
    let ghost f = periph_step();
    let n: usize = list.len();
    let mut all = out;
    let mut i: usize = 0;
    while i < n
        invariant
            n == list@.len(),
            lv == list.deep_view(),
            init == out.deep_view(),
            f == periph_step(),
            i <= n,
            take_all(lv.take(i as int), init, f) == Ok::<_, Seq<char>>(all.deep_view()),
        decreases n - i,
    {
        let ghost before = all.deep_view();
        proof {
            take_one_more(lv, init, f, i as int);
            if take_all(lv.take(i + 1), init, f) is Err {
                failure_stays(lv, init, f, i + 1);
            }
        }
        assert(lv[i as int] == list@[i as int].value());
        match parse_rperiph(&list[i]) {
            Ok(p) => {
                let ghost pv = p.deep_view();
                all.push(p);
                assert(all.deep_view() =~= before.push(pv));
            },
            Err(e) => {
                return Err(e);
            },
        }
        i += 1;
    }
    assert(lv.take(n as int) =~= lv);
    Ok(all)
}

/// Reads the peripherals.
pub fn read_peripherals(v: &Value) -> (r: Result<Vec<RPeriph>, String>)
    ensures
        match r {
            Ok(p) => peripherals_of(v.value()) == Ok::<_, Seq<char>>(p.deep_view()),
            Err(e) => peripherals_of(v.value()) == Err::<Seq<RPeriphV>, _>(e@),
        },
{
    proof {
        contents_are_values(*v);
    }
    let list = match v {
        Value::List(list) => list,
        _ => {
            return Err("pin_solve: peripherals must be a list".to_string());
        },
    };
    let ghost init = Seq::<RPeriphV>::empty();
    let ghost lv = list.deep_view();
    let ghost f = periph_entry_step();
    let n: usize = list.len();
    let mut all: Vec<RPeriph> = Vec::new();
    let mut i: usize = 0;
    assert(all.deep_view() =~= init);
    while i < n
        invariant
            n == list@.len(),
            lv == list.deep_view(),
            v.value() == ValueV::List(lv),
            init == Seq::<RPeriphV>::empty(),
            f == periph_entry_step(),
            i <= n,
            take_all(lv.take(i as int), init, f) == Ok::<_, Seq<char>>(all.deep_view()),
        decreases n - i,
    {
        let ghost before = all.deep_view();
        proof {
            take_one_more(lv, init, f, i as int);
            if take_all(lv.take(i + 1), init, f) is Err {
                failure_stays(lv, init, f, i + 1);
            }
            contents_are_values(list@[i as int]);
        }
        assert(lv[i as int] == list@[i as int].value());
        match &list[i] {
            Value::List(nested) => match add_peripherals(nested, all) {
                Ok(more) => {
                    all = more;
                },
                Err(e) => {
                    return Err(e);
                },
            },
            one => match parse_rperiph(one) {
                Ok(p) => {
                    let ghost pv = p.deep_view();
                    all.push(p);
                    assert(all.deep_view() =~= before.push(pv));
                },
                Err(e) => {
                    return Err(e);
                },
            },
        }
        i += 1;
    }
    assert(lv.take(n as int) =~= lv);
    let mut names: Vec<String> = Vec::new();
    let m: usize = all.len();
    let mut k: usize = 0;
    while k < m
        invariant
            m == all@.len(),
            k <= m,
            names@.len() == k,
            forall|j: int| 0 <= j < k ==> (#[trigger] names@[j])@ == all@[j].name@,
        decreases m - k,
    {
        names.push(all[k].name.clone());
        k += 1;
    }
    assert(names.deep_view() =~= periph_names(all.deep_view()));
    match repeated(&names) {
        Some(name) => Err(cat3("pin_solve: duplicate peripheral name `", name.as_str(), "`")),
        None => Ok(all),
    }
}

/// Reads the requests.
pub fn read_requests(v: &Value) -> (r: Result<Vec<RReq>, String>)
    ensures
        match r {
            Ok(p) => requests_of(v.value()) == Ok::<_, Seq<char>>(p.deep_view()),
            Err(e) => requests_of(v.value()) == Err::<Seq<RReqV>, _>(e@),
        },
{
    proof {
        contents_are_values(*v);
    }
    let list = match v {
        Value::List(list) => list,
        _ => {
            return Err("pin_solve: requests must be a list".to_string());
        },
    };
    let ghost init = Seq::<RReqV>::empty();
    let ghost lv = list.deep_view();
    let ghost f = req_step();
    let n: usize = list.len();
    let mut all: Vec<RReq> = Vec::new();
    let mut i: usize = 0;
    assert(all.deep_view() =~= init);
    while i < n
        invariant
            n == list@.len(),
            lv == list.deep_view(),
            v.value() == ValueV::List(lv),
            init == Seq::<RReqV>::empty(),
            f == req_step(),
            i <= n,
            take_all(lv.take(i as int), init, f) == Ok::<_, Seq<char>>(all.deep_view()),
        decreases n - i,
    {
        let ghost before = all.deep_view();
        proof {
            take_one_more(lv, init, f, i as int);
            if take_all(lv.take(i + 1), init, f) is Err {
                failure_stays(lv, init, f, i + 1);
            }
        }
        assert(lv[i as int] == list@[i as int].value());
        match parse_rreq(&list[i]) {
            Ok(p) => {
                let ghost pv = p.deep_view();
                all.push(p);
                assert(all.deep_view() =~= before.push(pv));
            },
            Err(e) => {
                return Err(e);
            },
        }
        i += 1;
    }
    assert(lv.take(n as int) =~= lv);
    let names = names_of(&all);
    match repeated(&names) {
        Some(name) => Err(cat3("pin_solve: duplicate request name `", name.as_str(), "`")),
        None => Ok(all),
    }
}

/// The names of the requests.
pub fn names_of(reqs: &Vec<RReq>) -> (r: Vec<String>)
    ensures
        r.deep_view() == req_names(reqs.deep_view()),
{
    let mut names: Vec<String> = Vec::new();
    let m: usize = reqs.len();
    let mut k: usize = 0;
    while k < m
        invariant
            m == reqs@.len(),
            k <= m,
            names@.len() == k,
            forall|j: int| 0 <= j < k ==> (#[trigger] names@[j])@ == reqs@[j].name@,
        decreases m - k,
    {
        names.push(reqs[k].name.clone());
        k += 1;
    }
    assert(names.deep_view() =~= req_names(reqs.deep_view()));
    names
}

/// The input of the given name.
pub open spec fn input_for(inputs: Seq<(Seq<char>, ValueV)>, name: Seq<char>) -> Option<ValueV>
    decreases inputs.len(),
{
    if inputs.len() == 0 {
        None
    } else if inputs[0].0 == name {
        Some(inputs[0].1)
    } else {
        input_for(inputs.drop_first(), name)
    }
}

/// The input of the given name.
fn find_input<'a>(inputs: &'a Vec<(String, Value)>, name: &str) -> (r: Option<&'a Value>)
    ensures
        match r {
            Some(v) => input_for(inputs.deep_view(), name@) == Some(v.value()),
            None => input_for(inputs.deep_view(), name@) is None,
        },
{
    let ghost all = inputs.deep_view();
    let n: usize = inputs.len();
    let mut i: usize = 0;
    assert(all.skip(0) =~= all);
    while i < n
        invariant
            n == inputs@.len(),
            all == inputs.deep_view(),
            i <= n,
            input_for(all, name@) == input_for(all.skip(i as int), name@),
        decreases n - i,
    {
        assert(all.skip(i as int).drop_first() =~= all.skip(i + 1));
        assert(all.skip(i as int)[0] == (inputs@[i as int].0@, inputs@[i as int].1.value()));
        if same(inputs[i].0.as_str(), name) {
            return Some(&inputs[i].1);
        }
        i += 1;
    }
    None
}

/// The request is served: it does not depend on a connection, or the module input of its name,
/// no configuration, was connected.
pub open spec fn is_served(
    r: RReqV,
    configs: Seq<Seq<char>>,
    inputs: Seq<(Seq<char>, ValueV)>,
) -> bool {
    !r.if_connected || (input_for(inputs, r.name) is Some && !configs.contains(r.name))
}

/// What the constraint of its input makes of one request, and of the constraints. The
/// constraint of the caller's connection overrides the request's own preference.
pub open spec fn constrained(
    r: RReqV,
    configs: Seq<Seq<char>>,
    inputs: Seq<(Seq<char>, ValueV)>,
    solver: Seq<Seq<char>>,
    store: ConstraintsV,
) -> (ConstraintsV, Result<RReqV, Seq<char>>) {
    let input = input_for(inputs, r.name);
    if configs.contains(r.name) || input is None {
        (store, Ok(r))
    } else {
        let nets = net_ids(connected_value(input.unwrap()));
        let (after, found) = match pin_at_of(input.unwrap()) {
            Some(c) => (after_settle(store, nets, solver, r.name), Some((c.1, c.2))),
            None => (
                after_claim(store, nets, solver, r.name),
                claimed_lock(store, nets, solver, r.name),
            ),
        };
        match found {
            None => (after, Ok(r)),
            Some(c) => match stray_signal(c.0, r.uses) {
                Some(s) => (
                    after,
                    Err(stray_text("pin_solve: at() on input `"@ + r.name + "`"@, s, r.uses)),
                ),
                None => (after, Ok(RReqV { prefer: c.0, lock: !c.1, ..r })),
            },
        }
    }
}

/// What the constraints make of the requests that are served, in order, up to the first
/// failure; and what is left of the constraints.
pub open spec fn all_constrained(
    reqs: Seq<RReqV>,
    configs: Seq<Seq<char>>,
    inputs: Seq<(Seq<char>, ValueV)>,
    solver: Seq<Seq<char>>,
    store: ConstraintsV,
) -> (ConstraintsV, Result<Seq<RReqV>, Seq<char>>)
    decreases reqs.len(),
{
    if reqs.len() == 0 {
        (store, Ok(Seq::empty()))
    } else {
        let (mid, front) = all_constrained(reqs.drop_last(), configs, inputs, solver, store);
        match front {
            Err(e) => (mid, Err(e)),
            Ok(out) => if !is_served(reqs.last(), configs, inputs) {
                (mid, Ok(out))
            } else {
                let (after, one) = constrained(reqs.last(), configs, inputs, solver, mid);
                match one {
                    Ok(r) => (after, Ok(out.push(r))),
                    Err(e) => (after, Err(e)),
                }
            },
        }
    }
}

proof fn constraint_failure_stays(
    reqs: Seq<RReqV>,
    configs: Seq<Seq<char>>,
    inputs: Seq<(Seq<char>, ValueV)>,
    solver: Seq<Seq<char>>,
    store: ConstraintsV,
    k: int,
)
    requires
        0 <= k <= reqs.len(),
        all_constrained(reqs.take(k), configs, inputs, solver, store).1 is Err,
    ensures
        all_constrained(reqs, configs, inputs, solver, store) == all_constrained(
            reqs.take(k),
            configs,
            inputs,
            solver,
            store,
        ),
    decreases reqs.len() - k,
{
    if k < reqs.len() {
        assert(reqs.take(k + 1).drop_last() =~= reqs.take(k));
        constraint_failure_stays(reqs, configs, inputs, solver, store, k + 1);
    } else {
        assert(reqs.take(k) =~= reqs);
    }
}

fn copy_req(r: &RReq) -> (c: RReq)
    ensures
        c.deep_view() == r.deep_view(),
{
    RReq {
        name: r.name.clone(),
        iface_id: r.iface_id,
        iface_name: r.iface_name.clone(),
        iface_closure_len: r.iface_closure_len,
        uses: r.uses.duplicate(),
        instance: r.instance.duplicate(),
        prefer: r.prefer.duplicate(),
        lock: r.lock,
        where_fn: r.where_fn,
        direction: r.direction.duplicate(),
        if_connected: r.if_connected,
    }
}

fn constrain(
    r: &RReq,
    configs: &Vec<String>,
    inputs: &Vec<(String, Value)>,
    solver: &Vec<String>,
    store: &mut PinConstraints,
) -> (out: Result<RReq, String>)
    ensures
        ({
            let want = constrained(
                r.deep_view(),
                configs.deep_view(),
                inputs.deep_view(),
                solver.deep_view(),
                old(store)@,
            );
            &&& final(store)@ == want.0
            &&& match out {
                Ok(q) => want.1 == Ok::<_, Seq<char>>(q.deep_view()),
                Err(e) => want.1 == Err::<RReqV, _>(e@),
            }
        }),
{
    if holds(configs, r.name.as_str()) {
        return Ok(copy_req(r));
    }
    let input = match find_input(inputs, r.name.as_str()) {
        Some(input) => input,
        None => {
            return Ok(copy_req(r));
        },
    };
    let mut nets: Vec<u64> = Vec::new();
    let found: Option<(PinLock, bool)> = match unpack_pin_at(input) {
        Some((inner, pins, soft)) => {
            collect_net_ids(inner, &mut nets);
            assert(nets@ =~= net_ids(inner.value()));
            store.settle(&nets, solver, r.name.as_str());
            Some((pins.duplicate(), soft))
        },
        None => {
            collect_net_ids(input, &mut nets);
            assert(nets@ =~= net_ids(input.value()));
            store.claim(&nets, solver, r.name.as_str())
        },
    };
    match found {
        None => Ok(copy_req(r)),
        Some((pins, soft)) => {
            let ctx = cat3("pin_solve: at() on input `", r.name.as_str(), "`");
            match pins.check_signals(ctx.as_str(), &r.uses) {
                Err(e) => Err(e),
                Ok(_) => {
                    let mut q = copy_req(r);
                    q.prefer = pins;
                    q.lock = !soft;
                    Ok(q)
                },
            }
        },
    }
}

/// Keeps the requests that are served and applies the constraints of their inputs.
pub fn constrain_requests(
    reqs: &Vec<RReq>,
    configs: &Vec<String>,
    inputs: &Vec<(String, Value)>,
    solver: &Vec<String>,
    store: &mut PinConstraints,
) -> (out: Result<Vec<RReq>, String>)
    ensures
        ({
            let want = all_constrained(
                reqs.deep_view(),
                configs.deep_view(),
                inputs.deep_view(),
                solver.deep_view(),
                old(store)@,
            );
            &&& final(store)@ == want.0
            &&& match out {
                Ok(q) => want.1 == Ok::<_, Seq<char>>(q.deep_view()),
                Err(e) => want.1 == Err::<Seq<RReqV>, _>(e@),
            }
        }),
{
    let ghost rv = reqs.deep_view();
    let ghost cv = configs.deep_view();
    let ghost iv = inputs.deep_view();
    let ghost sv = solver.deep_view();
    let ghost begin = store@;
    let n: usize = reqs.len();
    let mut out: Vec<RReq> = Vec::new();
    let mut i: usize = 0;
    assert(out.deep_view() =~= Seq::empty());
    while i < n
        invariant
            n == reqs@.len(),
            rv == reqs.deep_view(),
            cv == configs.deep_view(),
            iv == inputs.deep_view(),
            sv == solver.deep_view(),
            begin == old(store)@,
            i <= n,
            all_constrained(rv.take(i as int), cv, iv, sv, begin) == (
                store@,
                Ok::<_, Seq<char>>(out.deep_view()),
            ),
        decreases n - i,
    {
        let ghost before = out.deep_view();
        assert(rv.take(i + 1).drop_last() =~= rv.take(i as int));
        assert(rv[i as int] == reqs@[i as int].deep_view());
        let r = &reqs[i];
        let serve = !r.if_connected || (find_input(inputs, r.name.as_str()).is_some() && !holds(
            configs,
            r.name.as_str(),
        ));
        if serve {
            match constrain(r, configs, inputs, solver, store) {
                Ok(q) => {
                    let ghost qv = q.deep_view();
                    out.push(q);
                    assert(out.deep_view() =~= before.push(qv));
                },
                Err(e) => {
                    proof {
                        constraint_failure_stays(rv, cv, iv, sv, begin, i + 1);
                    }
                    return Err(e);
                },
            }
        }
        i += 1;
    }
    assert(rv.take(n as int) =~= rv);
    Ok(out)
}

/// The parts and the requests of a solve, and what is left of the constraints: the peripherals
/// are read, then the requests, then the constraints apply. A failure to read leaves the
/// constraints alone.
pub open spec fn prepared(
    peripherals: ValueV,
    requests: ValueV,
    configs: Seq<Seq<char>>,
    inputs: Seq<(Seq<char>, ValueV)>,
    solver: Seq<Seq<char>>,
    store: ConstraintsV,
) -> (ConstraintsV, Result<(Seq<RPeriphV>, Seq<RReqV>), Seq<char>>) {
    match peripherals_of(peripherals) {
        Err(e) => (store, Err(e)),
        Ok(periphs) => match requests_of(requests) {
            Err(e) => (store, Err(e)),
            Ok(reqs) => {
                let (after, found) = all_constrained(reqs, configs, inputs, solver, store);
                match found {
                    Err(e) => (after, Err(e)),
                    Ok(r) => (after, Ok((periphs, r))),
                }
            },
        },
    }
}

proof fn read_requests_use_signals(a: Seq<ValueV>, i: int)
    requires
        take_all(a, Seq::empty(), req_step()) is Ok,
        0 <= i < take_all(a, Seq::empty(), req_step())->Ok_0.len(),
    ensures
        take_all(a, Seq::empty(), req_step())->Ok_0[i].uses.len() > 0,
    decreases a.len(),
{
    if a.len() > 0 {
        let front = take_all(a.drop_last(), Seq::empty(), req_step());
        assert(front is Ok);
        if i < front->Ok_0.len() {
            read_requests_use_signals(a.drop_last(), i);
        }
    }
}

proof fn constraints_keep_signals(
    reqs: Seq<RReqV>,
    configs: Seq<Seq<char>>,
    inputs: Seq<(Seq<char>, ValueV)>,
    solver: Seq<Seq<char>>,
    store: ConstraintsV,
    i: int,
)
    requires
        forall|k: int| 0 <= k < reqs.len() ==> (#[trigger] reqs[k]).uses.len() > 0,
        all_constrained(reqs, configs, inputs, solver, store).1 is Ok,
        0 <= i < all_constrained(reqs, configs, inputs, solver, store).1->Ok_0.len(),
    ensures
        all_constrained(reqs, configs, inputs, solver, store).1->Ok_0[i].uses.len() > 0,
    decreases reqs.len(),
{
    if reqs.len() > 0 {
        let some = reqs.drop_last();
        assert forall|k: int| 0 <= k < some.len() implies (#[trigger] some[k]).uses.len() > 0 by {
            assert(some[k] == reqs[k]);
        }
        let front = all_constrained(some, configs, inputs, solver, store).1;
        assert(front is Ok);
        if i < front->Ok_0.len() {
            constraints_keep_signals(some, configs, inputs, solver, store, i);
        } else {
            assert(reqs[reqs.len() - 1].uses.len() > 0);
        }
    }
}

/// Every request of a prepared solve asks for at least one signal.
pub proof fn prepared_requests_use_signals(
    peripherals: ValueV,
    requests: ValueV,
    configs: Seq<Seq<char>>,
    inputs: Seq<(Seq<char>, ValueV)>,
    solver: Seq<Seq<char>>,
    store: ConstraintsV,
    i: int,
)
    requires
        prepared(peripherals, requests, configs, inputs, solver, store).1 matches Ok(p) && 0 <= i
            < p.1.len(),
    ensures
        prepared(peripherals, requests, configs, inputs, solver, store).1 matches Ok(p)
            && p.1[i].uses.len() > 0,
{
    let reqs = requests_of(requests)->Ok_0;
    assert forall|k: int| 0 <= k < reqs.len() implies (#[trigger] reqs[k]).uses.len() > 0 by {
        read_requests_use_signals(requests->List_0, k);
    }
    constraints_keep_signals(reqs, configs, inputs, solver, store, i);
}

/// Reads the peripherals and the requests of a solve and lets the constraints apply.
pub fn prepare_solve(
    peripherals: &Value,
    requests: &Value,
    configs: &Vec<String>,
    inputs: &Vec<(String, Value)>,
    solver: &Vec<String>,
    store: &mut PinConstraints,
) -> (out: Result<(Vec<RPeriph>, Vec<RReq>), String>)
    ensures
        ({
            let want = prepared(
                peripherals.value(),
                requests.value(),
                configs.deep_view(),
                inputs.deep_view(),
                solver.deep_view(),
                old(store)@,
            );
            &&& final(store)@ == want.0
            &&& match out {
                Ok(p) => want.1 == Ok::<_, Seq<char>>((p.0.deep_view(), p.1.deep_view())),
                Err(e) => want.1 == Err::<(Seq<RPeriphV>, Seq<RReqV>), _>(e@),
            }
        }),
        out matches Ok(p) ==> forall|i: int|
            0 <= i < p.1@.len() ==> (#[trigger] p.1@[i]).uses@.len() > 0,
{
    let periphs = match read_peripherals(peripherals) {
        Ok(p) => p,
        Err(e) => {
            return Err(e);
        },
    };
    let reqs = match read_requests(requests) {
        Ok(r) => r,
        Err(e) => {
            return Err(e);
        },
    };
    let ghost before = store@;
    match constrain_requests(&reqs, configs, inputs, solver, store) {
        Ok(r) => {
            proof {
                assert forall|i: int| 0 <= i < r@.len() implies (#[trigger] r@[i]).uses@.len()
                    > 0 by {
                    prepared_requests_use_signals(
                        peripherals.value(),
                        requests.value(),
                        configs.deep_view(),
                        inputs.deep_view(),
                        solver.deep_view(),
                        before,
                        i,
                    );
                    assert(r.deep_view()[i] == r@[i].deep_view());
                    assert(r@[i].deep_view().uses.len() == r@[i].uses@.len());
                }
            }
            Ok((periphs, r))
        },
        Err(e) => Err(e),
    }
}

} // verus!
