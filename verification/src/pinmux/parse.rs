//! From declaration values to the data that the solver works on.
use vstd::prelude::*;

use crate::duplicate::Duplicate;
use crate::json::{contents_are_json_values, member_put, put, Json, JsonV};
use crate::pinmux::iface::{
    closure, closure_begins_with_root, first_repeat, iface_closure, repeated, InfoV,
};
use crate::pinmux::model::{
    PinLock, PinLockV, PrevAssign, PrevAssignV, RPeriph, RPeriphV, RPin, RPinV, RReq, RReqV,
};
use crate::pinmux::access::{
    contents_are_values, dict_find, dict_get, dict_get_str, dict_get_truth, dict_is, dict_text,
    dict_truth, text_of, truth, type_text,
};
use crate::pinmux::value::{Value, ValueV};
use crate::steps::{failure_stays, take_all, take_one_more};
use crate::text::{cat3, cat5, holds, int_decimal, int_text, same};

verus! {

/// The name under which a dict key appears in JSON.
pub open spec fn json_key(k: ValueV) -> Option<Seq<char>> {
    match k {
        ValueV::Str(s) => Some(s),
        ValueV::Bool(b) => Some(
            if b {
                "true"@
            } else {
                "false"@
            },
        ),
        ValueV::Int(i) => Some(int_decimal(i as int)),
        ValueV::Float(t, _) => Some(t),
        _ => None,
    }
}

/// The JSON form of a value, where it has one.
pub open spec fn json_of(v: ValueV) -> Option<JsonV>
    decreases v, 1int,
{
    match v {
        ValueV::Nothing => Some(JsonV::Null),
        ValueV::Bool(b) => Some(JsonV::Bool(b)),
        ValueV::Int(i) => Some(JsonV::Int(i)),
        ValueV::Float(t, n) => Some(JsonV::Float(t, n)),
        ValueV::Str(s) => Some(JsonV::Str(s)),
        ValueV::List(a) => match json_items(a) {
            Some(items) => Some(JsonV::Array(items)),
            None => None,
        },
        ValueV::Dict(a) => match json_members(a) {
            Some(members) => Some(JsonV::Object(members)),
            None => None,
        },
        ValueV::Physical(_, _, j) => j,
        ValueV::Other(_, _, j) => j,
        _ => None,
    }
}

/// The JSON forms of the items, where each has one.
pub open spec fn json_items(a: Seq<ValueV>) -> Option<Seq<JsonV>>
    decreases a, 0int,
{
    if a.len() == 0 {
        Some(Seq::empty())
    } else {
        match (json_items(a.drop_last()), json_of(a.last())) {
            (Some(front), Some(j)) => Some(front.push(j)),
            _ => None,
        }
    }
}

/// The members that the entries make, where each has a name and a JSON form.
pub open spec fn json_members(a: Seq<(ValueV, ValueV)>) -> Option<Seq<(Seq<char>, JsonV)>>
    decreases a, 0int,
{
    if a.len() == 0 {
        Some(Seq::empty())
    } else {
        match (json_members(a.drop_last()), json_key(a.last().0), json_of(a.last().1)) {
            (Some(front), Some(k), Some(j)) => Some(member_put(front, k, j)),
            _ => None,
        }
    }
}

proof fn no_items_in_front(a: Seq<ValueV>, k: int)
    requires
        0 <= k <= a.len(),
        json_items(a.take(k)) is None,
    ensures
        json_items(a) is None,
    decreases a.len() - k,
{
    if k < a.len() {
        assert(a.take(k + 1).drop_last() =~= a.take(k));
        no_items_in_front(a, k + 1);
    } else {
        assert(a.take(k) =~= a);
    }
}

proof fn no_members_in_front(a: Seq<(ValueV, ValueV)>, k: int)
    requires
        0 <= k <= a.len(),
        json_members(a.take(k)) is None,
    ensures
        json_members(a) is None,
    decreases a.len() - k,
{
    if k < a.len() {
        assert(a.take(k + 1).drop_last() =~= a.take(k));
        no_members_in_front(a, k + 1);
    } else {
        assert(a.take(k) =~= a);
    }
}

fn key_text(k: &Value) -> (r: Option<String>)
    ensures
        r.deep_view() == json_key(k.value()),
{
    match k {
        Value::Str(s) => Some(s.clone()),
        Value::Bool(b) => Some(
            if *b {
                "true".to_string()
            } else {
                "false".to_string()
            },
        ),
        Value::Int(i) => Some(int_text(*i)),
        Value::Float(t, _) => Some(t.clone()),
        _ => None,
    }
}

/// The JSON form of a value, where it has one.
pub fn to_json(v: &Value) -> (r: Option<Json>)
    ensures
        r.deep_view() == json_of(v.value()),
    decreases v,
{
    proof {
        contents_are_values(*v);
    }
    match v {
        Value::Nothing => Some(Json::Null),
        Value::Bool(b) => Some(Json::Bool(*b)),
        Value::Int(i) => Some(Json::Int(*i)),
        Value::Float(t, n) => Some(Json::Float(t.clone(), *n)),
        Value::Str(s) => Some(Json::Str(s.clone())),
        Value::List(a) => {
            let ghost av = a.deep_view();
            let n: usize = a.len();
            let mut out: Vec<Json> = Vec::new();
            let mut i: usize = 0;
            assert(out.deep_view() =~= Seq::empty());
            while i < n
                invariant
                    n == a@.len(),
                    av == a.deep_view(),
                    v is List,
                    *a == v->List_0,
                    v.value() == ValueV::List(av),
                    i <= n,
                    json_items(av.take(i as int)) == Some(out.deep_view()),
                decreases n - i,
            {
                let ghost before = out.deep_view();
                let ghost now = av.take(i + 1);
                assert(now.drop_last() =~= av.take(i as int));
                assert(decreases_to!(*v => v->List_0));
                assert(decreases_to!(*a => a@));
                assert(decreases_to!(a@ => a@[i as int]));
                match to_json(&a[i]) {
                    Some(j) => {
                        let ghost jv = j.value();
                        out.push(j);
                        assert(out.deep_view() =~= before.push(jv));
                    },
                    None => {
                        proof {
                            no_items_in_front(av, i + 1);
                        }
                        return None;
                    },
                }
                i += 1;
            }
            assert(av.take(n as int) =~= av);
            let r = Json::Array(out);
            proof {
                contents_are_json_values(r);
            }
            Some(r)
        },
        Value::Dict(a) => {
            let ghost av = a.deep_view();
            let n: usize = a.len();
            let mut out: Vec<(String, Json)> = Vec::new();
            let mut i: usize = 0;
            assert(out.deep_view() =~= Seq::empty());
            while i < n
                invariant
                    n == a@.len(),
                    av == a.deep_view(),
                    v is Dict,
                    *a == v->Dict_0,
                    v.value() == ValueV::Dict(av),
                    i <= n,
                    json_members(av.take(i as int)) == Some(out.deep_view()),
                decreases n - i,
            {
                let ghost now = av.take(i + 1);
                assert(now.drop_last() =~= av.take(i as int));
                assert(decreases_to!(*v => v->Dict_0));
                assert(decreases_to!(*a => a@));
                assert(decreases_to!(a@ => a@[i as int]));
                assert(decreases_to!(a@[i as int] => a@[i as int].1));
                match (key_text(&a[i].0), to_json(&a[i].1)) {
                    (Some(k), Some(j)) => {
                        put(&mut out, k, j);
                    },
                    _ => {
                        proof {
                            no_members_in_front(av, i + 1);
                        }
                        return None;
                    },
                }
                i += 1;
            }
            assert(av.take(n as int) =~= av);
            let r = Json::Object(out);
            proof {
                contents_are_json_values(r);
            }
            Some(r)
        },
        Value::Physical(_, _, j) => j.duplicate(),
        Value::Other(_, _, j) => j.duplicate(),
        _ => None,
    }
}

/// The pin data that the entries make.
pub open spec fn pin_data(ctx: Seq<char>, a: Seq<(ValueV, ValueV)>) -> Result<
    Seq<(Seq<char>, JsonV)>,
    Seq<char>,
>
    decreases a.len(),
{
    if a.len() == 0 {
        Ok(Seq::empty())
    } else {
        match pin_data(ctx, a.drop_last()) {
            Err(e) => Err(e),
            Ok(front) => match text_of(a.last().0) {
                None => Err(ctx + ": pin() data keys must be strings"@),
                Some(key) => if key == "pin"@ {
                    Err(
                        ctx
                            + ": pin() data key `pin` is reserved (it names the pin itself in the assignment)"@,
                    )
                } else {
                    match json_of(a.last().1) {
                        None => Err(
                            ctx + ": pin() data value for `"@ + key + "` is not serializable"@,
                        ),
                        Some(j) => Ok(front.push((key, j))),
                    }
                },
            },
        }
    }
}

proof fn pin_data_fails_in_front(ctx: Seq<char>, a: Seq<(ValueV, ValueV)>, k: int)
    requires
        0 <= k <= a.len(),
        pin_data(ctx, a.take(k)) is Err,
    ensures
        pin_data(ctx, a) == pin_data(ctx, a.take(k)),
    decreases a.len() - k,
{
    if k < a.len() {
        assert(a.take(k + 1).drop_last() =~= a.take(k));
        pin_data_fails_in_front(ctx, a, k + 1);
    } else {
        assert(a.take(k) =~= a);
    }
}

fn parse_data(ctx: &str, a: &Vec<(Value, Value)>) -> (r: Result<Vec<(String, Json)>, String>)
    ensures
        match r {
            Ok(d) => pin_data(ctx@, a.deep_view()) == Ok::<_, Seq<char>>(d.deep_view()),
            Err(e) => pin_data(ctx@, a.deep_view()) == Err::<Seq<(Seq<char>, JsonV)>, _>(e@),
        },
{
    let ghost av = a.deep_view();
    let n: usize = a.len();
    let mut out: Vec<(String, Json)> = Vec::new();
    let mut i: usize = 0;
    assert(out.deep_view() =~= Seq::empty());
    while i < n
        invariant
            n == a@.len(),
            av == a.deep_view(),
            i <= n,
            pin_data(ctx@, av.take(i as int)) == Ok::<_, Seq<char>>(out.deep_view()),
        decreases n - i,
    {
        let ghost before = out.deep_view();
        let ghost now = av.take(i + 1);
        assert(now.drop_last() =~= av.take(i as int));
        assert(now.last() == (a@[i as int].0.value(), a@[i as int].1.value()));
        match &a[i].0 {
            Value::Str(key) => {
                if same(key.as_str(), "pin") {
                    proof {
                        pin_data_fails_in_front(ctx@, av, i + 1);
                    }
                    return Err(
                        ctx.to_string().concat(
                            ": pin() data key `pin` is reserved (it names the pin itself in the assignment)",
                        ),
                    );
                }
                match to_json(&a[i].1) {
                    None => {
                        proof {
                            pin_data_fails_in_front(ctx@, av, i + 1);
                        }
                        return Err(
                            ctx.to_string().concat(": pin() data value for `").concat(
                                key.as_str(),
                            ).concat("` is not serializable"),
                        );
                    },
                    Some(j) => {
                        let ghost jv = j.value();
                        out.push((key.clone(), j));
                        assert(out.deep_view() =~= before.push((key@, jv)));
                    },
                }
            },
            _ => {
                proof {
                    pin_data_fails_in_front(ctx@, av, i + 1);
                }
                return Err(ctx.to_string().concat(": pin() data keys must be strings"));
            },
        }
        i += 1;
    }
    assert(av.take(n as int) =~= av);
    Ok(out)
}

/// A number that fits 32 bits, else zero.
pub open spec fn small_int(v: Option<ValueV>) -> i32 {
    match v {
        Some(ValueV::Int(i)) => if i32::MIN <= i <= i32::MAX {
            i as i32
        } else {
            0
        },
        _ => 0,
    }
}

/// The pin that a candidate value declares.
pub open spec fn rpin_of(v: ValueV, ctx: Seq<char>) -> Result<RPinV, Seq<char>> {
    match v {
        ValueV::Str(s) => Ok(
            RPinV { name: s, data: Seq::empty(), cost: 0, input_only: false, strap: false },
        ),
        ValueV::Dict(d) => if dict_text(d, "kind"@) != Some("pin"@) {
            Err(ctx + ": pin candidate must be pin() or a string"@)
        } else {
            let data = match dict_find(d, "data"@) {
                Some(ValueV::Dict(dd)) => pin_data(ctx, dd),
                _ => Ok(Seq::empty()),
            };
            match data {
                Err(e) => Err(e),
                Ok(data) => match dict_text(d, "name"@) {
                    None => Err(ctx + ": pin() missing name"@),
                    Some(name) => Ok(
                        RPinV {
                            name,
                            data,
                            cost: small_int(dict_find(d, "cost"@)),
                            input_only: dict_truth(d, "input_only"@),
                            strap: dict_truth(d, "strap"@),
                        },
                    ),
                },
            }
        },
        _ => Err(ctx + ": pin candidate must be pin() or a string"@),
    }
}

/// Reads a pin candidate.
pub fn parse_rpin(v: &Value, ctx: &str) -> (r: Result<RPin, String>)
    ensures
        match r {
            Ok(p) => rpin_of(v.value(), ctx@) == Ok::<_, Seq<char>>(p.deep_view()),
            Err(e) => rpin_of(v.value(), ctx@) == Err::<RPinV, _>(e@),
        },
{
    proof {
        contents_are_values(*v);
    }
    match v {
        Value::Str(s) => {
            let p = RPin {
                name: s.clone(),
                data: Vec::new(),
                cost: 0,
                input_only: false,
                strap: false,
            };
            assert(p.deep_view().data =~= Seq::empty());
            Ok(p)
        },
        Value::Dict(d) => {
            if !dict_is(d, "pin") {
                return Err(ctx.to_string().concat(": pin candidate must be pin() or a string"));
            }
            let mut data: Vec<(String, Json)> = Vec::new();
            assert(data.deep_view() =~= Seq::empty());
            if let Some(dv) = dict_get(d, "data") {
                proof {
                    contents_are_values(*dv);
                }
                if let Value::Dict(dd) = dv {
                    match parse_data(ctx, dd) {
                        Ok(found) => {
                            data = found;
                        },
                        Err(e) => {
                            return Err(e);
                        },
                    }
                }
            }
            let name = match dict_get_str(d, "name") {
                Some(name) => name,
                None => {
                    return Err(ctx.to_string().concat(": pin() missing name"));
                },
            };
            let cost: i32 = match dict_get(d, "cost") {
                Some(Value::Int(i)) => {
                    if i32::MIN as i64 <= *i && *i <= i32::MAX as i64 {
                        *i as i32
                    } else {
                        0
                    }
                },
                _ => 0,
            };
            Ok(
                RPin {
                    name,
                    data,
                    cost,
                    input_only: dict_get_truth(d, "input_only"),
                    strap: dict_get_truth(d, "strap"),
                },
            )
        },
        _ => Err(ctx.to_string().concat(": pin candidate must be pin() or a string")),
    }
}

/// Takes one pin candidate.
pub open spec fn rpin_step(ctx: Seq<char>) -> spec_fn(Seq<RPinV>, ValueV) -> Result<
    Seq<RPinV>,
    Seq<char>,
> {
    |out: Seq<RPinV>, v: ValueV|
        match rpin_of(v, ctx) {
            Ok(p) => Ok(out.push(p)),
            Err(e) => Err(e),
        }
}

/// Reads the candidates of a signal.
fn parse_rpins(list: &Vec<Value>, ctx: &str) -> (r: Result<Vec<RPin>, String>)
    ensures
        match r {
            Ok(p) => take_all(list.deep_view(), Seq::empty(), rpin_step(ctx@)) == Ok::<_, Seq<char>>(
                p.deep_view(),
            ),
            Err(e) => take_all(list.deep_view(), Seq::empty(), rpin_step(ctx@)) == Err::<
                Seq<RPinV>,
                _,
            >(e@),
        },
{
    let ghost lv = list.deep_view();
    let ghost f = rpin_step(ctx@);
    let n: usize = list.len();
    let mut out: Vec<RPin> = Vec::new();
    let mut i: usize = 0;
    assert(out.deep_view() =~= Seq::empty());
    while i < n
        invariant
            n == list@.len(),
            lv == list.deep_view(),
            f == rpin_step(ctx@),
            i <= n,
            take_all(lv.take(i as int), Seq::empty(), f) == Ok::<_, Seq<char>>(out.deep_view()),
        decreases n - i,
    {
        let ghost before = out.deep_view();
        proof {
            take_one_more(lv, Seq::empty(), f, i as int);
        }
        match parse_rpin(&list[i], ctx) {
            Ok(p) => {
                let ghost pv = p.deep_view();
                out.push(p);
                assert(out.deep_view() =~= before.push(pv));
            },
            Err(e) => {
                proof {
                    failure_stays(lv, Seq::empty(), f, i + 1);
                }
                return Err(e);
            },
        }
        i += 1;
    }
    assert(lv.take(n as int) =~= lv);
    Ok(out)
}

/// The identities with those of the interfaces added, each once.
pub open spec fn with_ids(ids: Seq<u64>, infos: Seq<InfoV>) -> Seq<u64>
    decreases infos.len(),
{
    if infos.len() == 0 {
        ids
    } else {
        let front = with_ids(ids, infos.drop_last());
        if front.contains(infos.last().id) {
            front
        } else {
            front.push(infos.last().id)
        }
    }
}

/// The names with those of the interfaces added, each once.
pub open spec fn with_names(names: Seq<Seq<char>>, infos: Seq<InfoV>) -> Seq<Seq<char>>
    decreases infos.len(),
{
    if infos.len() == 0 {
        names
    } else {
        let front = with_names(names, infos.drop_last());
        if front.contains(infos.last().name) {
            front
        } else {
            front.push(infos.last().name)
        }
    }
}

/// Takes one provided interface: its whole closure is provided.
pub open spec fn provides_step() -> spec_fn((Seq<u64>, Seq<Seq<char>>), ValueV) -> Result<
    (Seq<u64>, Seq<Seq<char>>),
    Seq<char>,
> {
    |s: (Seq<u64>, Seq<Seq<char>>), v: ValueV|
        match closure(v) {
            Ok(infos) => Ok((with_ids(s.0, infos), with_names(s.1, infos))),
            Err(e) => Err(e),
        }
}

fn has_u64(list: &Vec<u64>, x: u64) -> (r: bool)
    ensures
        r == list@.contains(x),
{
    let mut i: usize = 0;
    while i < list.len()
        invariant
            i <= list@.len(),
            forall|j: int| 0 <= j < i ==> list@[j] != x,
        decreases list@.len() - i,
    {
        if list[i] == x {
            assert(list@[i as int] == x);
            return true;
        }
        i += 1;
    }
    false
}

/// Reads what a peripheral provides.
fn parse_provides(list: &Vec<Value>) -> (r: Result<(Vec<u64>, Vec<String>), String>)
    ensures
        match r {
            Ok(p) => take_all(list.deep_view(), (Seq::empty(), Seq::empty()), provides_step()) == Ok::<
                _,
                Seq<char>,
            >((p.0@, p.1.deep_view())),
            Err(e) => take_all(list.deep_view(), (Seq::empty(), Seq::empty()), provides_step())
                == Err::<(Seq<u64>, Seq<Seq<char>>), _>(e@),
        },
{
    let ghost lv = list.deep_view();
    let ghost f = provides_step();
    let ghost init = (Seq::<u64>::empty(), Seq::<Seq<char>>::empty());
    let n: usize = list.len();
    let mut ids: Vec<u64> = Vec::new();
    let mut names: Vec<String> = Vec::new();
    let mut i: usize = 0;
    assert(names.deep_view() =~= Seq::empty());
    assert(ids@ =~= Seq::empty());
    while i < n
        invariant
            n == list@.len(),
            lv == list.deep_view(),
            f == provides_step(),
            init == (Seq::<u64>::empty(), Seq::<Seq<char>>::empty()),
            i <= n,
            take_all(lv.take(i as int), init, f) == Ok::<_, Seq<char>>((ids@, names.deep_view())),
        decreases n - i,
    {
        proof {
            take_one_more(lv, init, f, i as int);
        }
        match iface_closure(&list[i]) {
            Ok(infos) => {
                let ghost iv = infos.deep_view();
                let ghost ids0 = ids@;
                let ghost names0 = names.deep_view();
                let m: usize = infos.len();
                let mut k: usize = 0;
                assert(iv.take(0) =~= Seq::empty());
                while k < m
                    invariant
                        m == infos@.len(),
                        iv == infos.deep_view(),
                        k <= m,
                        ids@ == with_ids(ids0, iv.take(k as int)),
                        names.deep_view() == with_names(names0, iv.take(k as int)),
                    decreases m - k,
                {
                    let ghost now = iv.take(k + 1);
                    assert(now.drop_last() =~= iv.take(k as int));
                    if !has_u64(&ids, infos[k].id) {
                        ids.push(infos[k].id);
                    }
                    if !holds(&names, infos[k].name) {
                        let ghost before = names.deep_view();
                        names.push(infos[k].name.to_string());
                        assert(names.deep_view() =~= before.push(iv[k as int].name));
                    }
                    k += 1;
                }
                assert(iv.take(m as int) =~= iv);
            },
            Err(e) => {
                proof {
                    failure_stays(lv, init, f, i + 1);
                }
                return Err(e);
            },
        }
        i += 1;
    }
    assert(lv.take(n as int) =~= lv);
    Ok((ids, names))
}

/// Where a pin candidate of a peripheral stands.
pub open spec fn candidate_ctx(name: Seq<char>, sig: Seq<char>) -> Seq<char> {
    "peripheral `"@ + name + "` signal `"@ + sig + "`"@
}

/// Takes one signal with its candidates.
pub open spec fn signal_step(name: Seq<char>) -> spec_fn(
    Seq<(Seq<char>, Seq<RPinV>)>,
    (ValueV, ValueV),
) -> Result<Seq<(Seq<char>, Seq<RPinV>)>, Seq<char>> {
    |out: Seq<(Seq<char>, Seq<RPinV>)>, e: (ValueV, ValueV)|
        match text_of(e.0) {
            None => Err("peripheral `"@ + name + "`: signal names must be strings"@),
            Some(sig) => match e.1 {
                ValueV::List(c) => match take_all(
                    c,
                    Seq::empty(),
                    rpin_step(candidate_ctx(name, sig)),
                ) {
                    Ok(pins) => Ok(out.push((sig, pins))),
                    Err(e) => Err(e),
                },
                _ => Err(
                    "peripheral `"@ + name + "`: signal `"@ + sig + "` candidates must be a list"@,
                ),
            },
        }
}

fn parse_signals(name: &str, entries: &Vec<(Value, Value)>) -> (r: Result<
    Vec<(String, Vec<RPin>)>,
    String,
>)
    ensures
        match r {
            Ok(p) => take_all(entries.deep_view(), Seq::empty(), signal_step(name@)) == Ok::<
                _,
                Seq<char>,
            >(p.deep_view()),
            Err(e) => take_all(entries.deep_view(), Seq::empty(), signal_step(name@)) == Err::<
                Seq<(Seq<char>, Seq<RPinV>)>,
                _,
            >(e@),
        },
{
    let ghost lv = entries.deep_view();
    let ghost f = signal_step(name@);
    let n: usize = entries.len();
    let mut out: Vec<(String, Vec<RPin>)> = Vec::new();
    let mut i: usize = 0;
    assert(out.deep_view() =~= Seq::empty());
    while i < n
        invariant
            n == entries@.len(),
            lv == entries.deep_view(),
            f == signal_step(name@),
            i <= n,
            take_all(lv.take(i as int), Seq::empty(), f) == Ok::<_, Seq<char>>(out.deep_view()),
        decreases n - i,
    {
        let ghost before = out.deep_view();
        proof {
            take_one_more(lv, Seq::empty(), f, i as int);
            if take_all(lv.take(i + 1), Seq::empty(), f) is Err {
                failure_stays(lv, Seq::empty(), f, i + 1);
            }
            contents_are_values(entries@[i as int].1);
        }
        assert(lv[i as int] == (entries@[i as int].0.value(), entries@[i as int].1.value()));
        let sig: &String = match &entries[i].0 {
            Value::Str(s) => s,
            _ => {
                return Err(cat3("peripheral `", name, "`: signal names must be strings"));
            },
        };
        match &entries[i].1 {
            Value::List(c) => {
                let ctx = cat5("peripheral `", name, "` signal `", sig.as_str(), "`");
                match parse_rpins(c, ctx.as_str()) {
                    Ok(pins) => {
                        let ghost pv = pins.deep_view();
                        out.push((sig.clone(), pins));
                        assert(out.deep_view() =~= before.push((sig@, pv)));
                    },
                    Err(e) => {
                        return Err(e);
                    },
                }
            },
            _ => {
                return Err(
                    cat5(
                        "peripheral `",
                        name,
                        "`: signal `",
                        sig.as_str(),
                        "` candidates must be a list",
                    ),
                );
            },
        }
        i += 1;
    }
    assert(lv.take(n as int) =~= lv);
    Ok(out)
}

/// The peripheral that a value declares.
pub open spec fn rperiph_of(v: ValueV) -> Result<RPeriphV, Seq<char>> {
    match v {
        ValueV::Dict(d) => if dict_text(d, "kind"@) != Some("peripheral"@) {
            Err("pin_solve: peripherals must be peripheral()/pool() values"@)
        } else {
            match dict_text(d, "name"@) {
                None => Err("pin_solve: peripheral missing name"@),
                Some(name) => match dict_find(d, "provides"@) {
                    None => Err("peripheral `"@ + name + "`: missing provides"@),
                    Some(ValueV::List(provides)) => match take_all(
                        provides,
                        (Seq::empty(), Seq::empty()),
                        provides_step(),
                    ) {
                        Err(e) => Err(e),
                        Ok(p) => match dict_find(d, "signals"@) {
                            None => Err("peripheral `"@ + name + "`: missing signals"@),
                            Some(ValueV::Dict(entries)) => match take_all(
                                entries,
                                Seq::empty(),
                                signal_step(name),
                            ) {
                                Err(e) => Err(e),
                                Ok(signals) => Ok(
                                    RPeriphV {
                                        name,
                                        provides_ids: p.0,
                                        provides_names: p.1,
                                        signals,
                                        rebind: match dict_text(d, "rebind"@) {
                                            Some(r) => r,
                                            None => "firmware"@,
                                        },
                                        unless: dict_text(d, "unless"@),
                                        pool: dict_text(d, "pool"@),
                                    },
                                ),
                            },
                            Some(_) => Err("peripheral `"@ + name + "`: signals must be a dict"@),
                        },
                    },
                    Some(_) => Err("peripheral `"@ + name + "`: provides must be a list"@),
                },
            }
        },
        _ => Err("pin_solve: peripherals must be peripheral()/pool() values"@),
    }
}

/// Reads a peripheral.
pub fn parse_rperiph(v: &Value) -> (r: Result<RPeriph, String>)
    ensures
        match r {
            Ok(p) => rperiph_of(v.value()) == Ok::<_, Seq<char>>(p.deep_view()),
            Err(e) => rperiph_of(v.value()) == Err::<RPeriphV, _>(e@),
        },
{
    proof {
        contents_are_values(*v);
    }
    let d = match v {
        Value::Dict(d) => d,
        _ => {
            return Err("pin_solve: peripherals must be peripheral()/pool() values".to_string());
        },
    };
    if !dict_is(d, "peripheral") {
        return Err("pin_solve: peripherals must be peripheral()/pool() values".to_string());
    }
    let name = match dict_get_str(d, "name") {
        Some(name) => name,
        None => {
            return Err("pin_solve: peripheral missing name".to_string());
        },
    };
    let provides = match dict_get(d, "provides") {
        Some(p) => p,
        None => {
            return Err(cat3("peripheral `", name.as_str(), "`: missing provides"));
        },
    };
    proof {
        contents_are_values(*provides);
    }
    let list = match provides {
        Value::List(list) => list,
        _ => {
            return Err(cat3("peripheral `", name.as_str(), "`: provides must be a list"));
        },
    };
    let (provides_ids, provides_names) = match parse_provides(list) {
        Ok(p) => p,
        Err(e) => {
            return Err(e);
        },
    };
    let signals_v = match dict_get(d, "signals") {
        Some(s) => s,
        None => {
            return Err(cat3("peripheral `", name.as_str(), "`: missing signals"));
        },
    };
    proof {
        contents_are_values(*signals_v);
    }
    let entries = match signals_v {
        Value::Dict(entries) => entries,
        _ => {
            return Err(cat3("peripheral `", name.as_str(), "`: signals must be a dict"));
        },
    };
    let signals = match parse_signals(name.as_str(), entries) {
        Ok(s) => s,
        Err(e) => {
            return Err(e);
        },
    };
    let rebind = match dict_get_str(d, "rebind") {
        Some(r) => r,
        None => "firmware".to_string(),
    };
    Ok(
        RPeriph {
            name,
            provides_ids,
            provides_names,
            signals,
            rebind,
            unless: dict_get_str(d, "unless"),
            pool: dict_get_str(d, "pool"),
        },
    )
}

/// The texts that the items are, if all of them are texts.
pub open spec fn texts_in(list: Seq<ValueV>) -> Option<Seq<Seq<char>>> {
    if forall|i: int| 0 <= i < list.len() ==> (#[trigger] list[i]) is Str {
        Some(Seq::new(list.len(), |i: int| list[i]->Str_0))
    } else {
        None
    }
}

/// The texts that the items are, if all of them are texts.
pub fn all_texts(list: &Vec<Value>) -> (r: Option<Vec<String>>)
    ensures
        r.deep_view() == texts_in(list.deep_view()),
{
    let ghost lv = list.deep_view();
    let n: usize = list.len();
    let mut out: Vec<String> = Vec::new();
    let mut i: usize = 0;
    while i < n
        invariant
            n == list@.len(),
            lv == list.deep_view(),
            i <= n,
            out@.len() == i,
            forall|j: int| 0 <= j < i ==> (#[trigger] lv[j]) is Str && out@[j]@ == lv[j]->Str_0,
        decreases n - i,
    {
        assert(lv[i as int] == list@[i as int].value());
        match &list[i] {
            Value::Str(s) => {
                out.push(s.clone());
            },
            _ => {
                assert(!(lv[i as int] is Str));
                return None;
            },
        }
        i += 1;
    }
    assert(out.deep_view() =~= Seq::new(lv.len(), |i: int| lv[i]->Str_0));
    Some(out)
}

/// A complaint about a request.
pub open spec fn request_text(name: Seq<char>, what: Seq<char>) -> Seq<char> {
    "request `"@ + name + "`: "@ + what
}

fn request_error(name: &str, what: &str) -> (r: String)
    ensures
        r@ == request_text(name@, what@),
{
    "request `".to_string().concat(name).concat("`: ").concat(what)
}

/// The list of texts under `key`: none where the entry is missing or empty-handed.
pub open spec fn text_list(
    d: Seq<(ValueV, ValueV)>,
    name: Seq<char>,
    key: Seq<char>,
    not_a_list: Seq<char>,
    not_texts: Seq<char>,
) -> Result<Option<Seq<Seq<char>>>, Seq<char>> {
    match dict_find(d, key) {
        None => Ok(None),
        Some(ValueV::Nothing) => Ok(None),
        Some(ValueV::List(a)) => match texts_in(a) {
            Some(t) => Ok(Some(t)),
            None => Err(request_text(name, not_texts)),
        },
        Some(_) => Err(request_text(name, not_a_list)),
    }
}

fn parse_text_list(
    d: &Vec<(Value, Value)>,
    name: &str,
    key: &str,
    not_a_list: &str,
    not_texts: &str,
) -> (r: Result<Option<Vec<String>>, String>)
    ensures
        match r {
            Ok(o) => text_list(d.deep_view(), name@, key@, not_a_list@, not_texts@) == Ok::<
                _,
                Seq<char>,
            >(o.deep_view()),
            Err(e) => text_list(d.deep_view(), name@, key@, not_a_list@, not_texts@) == Err::<
                Option<Seq<Seq<char>>>,
                _,
            >(e@),
        },
{
    match dict_get(d, key) {
        None => Ok(None),
        Some(v) => {
            proof {
                contents_are_values(*v);
            }
            match v {
                Value::Nothing => Ok(None),
                Value::List(a) => match all_texts(a) {
                    Some(t) => Ok(Some(t)),
                    None => Err(request_error(name, not_texts)),
                },
                _ => Err(request_error(name, not_a_list)),
            }
        },
    }
}

/// Takes one signal with the pins it prefers.
pub open spec fn prefer_step(name: Seq<char>) -> spec_fn(
    Seq<(Seq<char>, Seq<Seq<char>>)>,
    (ValueV, ValueV),
) -> Result<Seq<(Seq<char>, Seq<Seq<char>>)>, Seq<char>> {
    |out: Seq<(Seq<char>, Seq<Seq<char>>)>, e: (ValueV, ValueV)|
        match text_of(e.0) {
            None => Err(request_text(name, "signal must be a string"@)),
            Some(sig) => match e.1 {
                ValueV::List(a) => match texts_in(a) {
                    Some(t) => Ok(out.push((sig, t))),
                    None => Err(request_text(name, "pin names must be strings"@)),
                },
                _ => Err(request_text(name, "prefer_by_signal values must be lists"@)),
            },
        }
}

/// The per-signal preferences under `prefer_by_signal`.
pub open spec fn prefer_by_signal_of(d: Seq<(ValueV, ValueV)>, name: Seq<char>) -> Result<
    Seq<(Seq<char>, Seq<Seq<char>>)>,
    Seq<char>,
> {
    match dict_find(d, "prefer_by_signal"@) {
        None => Ok(Seq::empty()),
        Some(ValueV::Nothing) => Ok(Seq::empty()),
        Some(ValueV::Dict(entries)) => take_all(entries, Seq::empty(), prefer_step(name)),
        Some(_) => Err(request_text(name, "prefer_by_signal must be a dict"@)),
    }
}

fn parse_prefer_entries(name: &str, entries: &Vec<(Value, Value)>) -> (r: Result<
    Vec<(String, Vec<String>)>,
    String,
>)
    ensures
        match r {
            Ok(p) => take_all(entries.deep_view(), Seq::empty(), prefer_step(name@)) == Ok::<
                _,
                Seq<char>,
            >(p.deep_view()),
            Err(e) => take_all(entries.deep_view(), Seq::empty(), prefer_step(name@)) == Err::<
                Seq<(Seq<char>, Seq<Seq<char>>)>,
                _,
            >(e@),
        },
{
    let ghost lv = entries.deep_view();
    let ghost f = prefer_step(name@);
    let n: usize = entries.len();
    let mut out: Vec<(String, Vec<String>)> = Vec::new();
    let mut i: usize = 0;
    assert(out.deep_view() =~= Seq::empty());
    while i < n
        invariant
            n == entries@.len(),
            lv == entries.deep_view(),
            f == prefer_step(name@),
            i <= n,
            take_all(lv.take(i as int), Seq::empty(), f) == Ok::<_, Seq<char>>(out.deep_view()),
        decreases n - i,
    {
        let ghost before = out.deep_view();
        proof {
            take_one_more(lv, Seq::empty(), f, i as int);
            if take_all(lv.take(i + 1), Seq::empty(), f) is Err {
                failure_stays(lv, Seq::empty(), f, i + 1);
            }
            contents_are_values(entries@[i as int].1);
        }
        assert(lv[i as int] == (entries@[i as int].0.value(), entries@[i as int].1.value()));
        let sig: &String = match &entries[i].0 {
            Value::Str(s) => s,
            _ => {
                return Err(request_error(name, "signal must be a string"));
            },
        };
        match &entries[i].1 {
            Value::List(a) => match all_texts(a) {
                Some(t) => {
                    let ghost tv = t.deep_view();
                    out.push((sig.clone(), t));
                    assert(out.deep_view() =~= before.push((sig@, tv)));
                },
                None => {
                    return Err(request_error(name, "pin names must be strings"));
                },
            },
            _ => {
                return Err(request_error(name, "prefer_by_signal values must be lists"));
            },
        }
        i += 1;
    }
    assert(lv.take(n as int) =~= lv);
    Ok(out)
}

/// The entry for `key` holds something.
pub open spec fn is_set(d: Seq<(ValueV, ValueV)>, key: Seq<char>) -> bool {
    match dict_find(d, key) {
        Some(v) => !(v is Nothing),
        None => false,
    }
}

/// The request that the dict declares, once its name, interface and signals are known.
pub open spec fn rreq_with(
    d: Seq<(ValueV, ValueV)>,
    name: Seq<char>,
    infos: Seq<InfoV>,
    uses: Seq<Seq<char>>,
) -> Result<RReqV, Seq<char>> {
    if uses.len() == 0 {
        Err(request_text(name, "uses must name at least one signal"@))
    } else {
        match first_repeat(uses) {
            Some(s) => Err(request_text(name, "duplicate signal `"@ + s + "` in uses"@)),
            None => match prefer_by_signal_of(d, name) {
                Err(e) => Err(e),
                Ok(by_signal) => match text_list(
                    d,
                    name,
                    "prefer"@,
                    "prefer must be a list"@,
                    "prefer entries must be strings"@,
                ) {
                    Err(e) => Err(e),
                    Ok(any) => Ok(
                        RReqV {
                            name,
                            iface_id: infos[0].id,
                            iface_name: infos[0].name,
                            iface_closure_len: infos.len() as usize,
                            uses,
                            instance: dict_text(d, "instance"@),
                            prefer: PinLockV {
                                any: match any {
                                    Some(a) => a,
                                    None => Seq::empty(),
                                },
                                by_signal,
                            },
                            lock: dict_truth(d, "lock"@),
                            where_fn: is_set(d, "where"@),
                            direction: dict_text(d, "direction"@),
                            if_connected: dict_truth(d, "if_connected"@),
                        },
                    ),
                },
            },
        }
    }
}

/// The request that a value declares.
pub open spec fn rreq_of(v: ValueV) -> Result<RReqV, Seq<char>> {
    match v {
        ValueV::Dict(d) => if dict_text(d, "kind"@) != Some("request"@) {
            Err("pin_solve: requests must be pin_request() values"@)
        } else {
            match dict_text(d, "name"@) {
                None => Err("pin_solve: request missing name"@),
                Some(name) => match dict_find(d, "iface"@) {
                    None => Err(request_text(name, "missing interface"@)),
                    Some(iface) => match closure(iface) {
                        Err(e) => Err(e),
                        Ok(infos) => match text_list(
                            d,
                            name,
                            "uses"@,
                            "uses must be a list"@,
                            "uses entries must be strings"@,
                        ) {
                            Err(e) => Err(e),
                            Ok(Some(uses)) => rreq_with(d, name, infos, uses),
                            Ok(None) => rreq_with(d, name, infos, infos[0].signals),
                        },
                    },
                },
            }
        },
        _ => Err("pin_solve: requests must be pin_request() values"@),
    }
}

/// Reads a request.
pub fn parse_rreq(v: &Value) -> (r: Result<RReq, String>)
    ensures
        match r {
            Ok(p) => rreq_of(v.value()) == Ok::<_, Seq<char>>(p.deep_view()),
            Err(e) => rreq_of(v.value()) == Err::<RReqV, _>(e@),
        },
{
    proof {
        contents_are_values(*v);
    }
    let d = match v {
        Value::Dict(d) => d,
        _ => {
            return Err("pin_solve: requests must be pin_request() values".to_string());
        },
    };
    let ghost dv = d.deep_view();
    if !dict_is(d, "request") {
        return Err("pin_solve: requests must be pin_request() values".to_string());
    }
    let name = match dict_get_str(d, "name") {
        Some(name) => name,
        None => {
            return Err("pin_solve: request missing name".to_string());
        },
    };
    let iface = match dict_get(d, "iface") {
        Some(i) => i,
        None => {
            return Err(request_error(name.as_str(), "missing interface"));
        },
    };
    let infos = match iface_closure(iface) {
        Ok(infos) => infos,
        Err(e) => {
            return Err(e);
        },
    };
    proof {
        closure_begins_with_root(iface.value());
    }
    let uses = match parse_text_list(
        d,
        name.as_str(),
        "uses",
        "uses must be a list",
        "uses entries must be strings",
    ) {
        Ok(Some(uses)) => uses,
        Ok(None) => infos[0].signals.duplicate(),
        Err(e) => {
            return Err(e);
        },
    };
    assert(rreq_of(v.value()) == rreq_with(dv, name@, infos.deep_view(), uses.deep_view()));
    if uses.len() == 0 {
        return Err(request_error(name.as_str(), "uses must name at least one signal"));
    }
    if let Some(s) = repeated(&uses) {
        let what = cat3("duplicate signal `", s.as_str(), "` in uses");
        return Err(request_error(name.as_str(), what.as_str()));
    }
    let by_signal: Vec<(String, Vec<String>)> = match dict_get(d, "prefer_by_signal") {
        None => Vec::new(),
        Some(p) => {
            proof {
                contents_are_values(*p);
            }
            match p {
                Value::Nothing => Vec::new(),
                Value::Dict(entries) => match parse_prefer_entries(name.as_str(), entries) {
                    Ok(b) => b,
                    Err(e) => {
                        return Err(e);
                    },
                },
                _ => {
                    return Err(request_error(name.as_str(), "prefer_by_signal must be a dict"));
                },
            }
        },
    };
    assert(by_signal@.len() == 0 ==> by_signal.deep_view() =~= Seq::empty());
    assert(prefer_by_signal_of(dv, name@) == Ok::<_, Seq<char>>(by_signal.deep_view()));
    let any: Vec<String> = match parse_text_list(
        d,
        name.as_str(),
        "prefer",
        "prefer must be a list",
        "prefer entries must be strings",
    ) {
        Ok(Some(any)) => any,
        Ok(None) => Vec::new(),
        Err(e) => {
            return Err(e);
        },
    };
    assert(any@.len() == 0 ==> any.deep_view() =~= Seq::empty());
    let where_fn = match dict_get(d, "where") {
        Some(Value::Nothing) => false,
        Some(_) => true,
        None => false,
    };
    Ok(
        RReq {
            name,
            iface_id: infos[0].id,
            iface_name: infos[0].name.to_string(),
            iface_closure_len: infos.len(),
            uses,
            instance: dict_get_str(d, "instance"),
            prefer: PinLock { any, by_signal },
            lock: dict_get_truth(d, "lock"),
            where_fn,
            direction: dict_get_str(d, "direction"),
            if_connected: dict_get_truth(d, "if_connected"),
        },
    )
}

/// The pins that an earlier assignment names, by signal.
pub open spec fn previous_pins(entries: Seq<(ValueV, ValueV)>) -> Seq<(Seq<char>, Seq<char>)>
    decreases entries.len(),
{
    if entries.len() == 0 {
        Seq::empty()
    } else {
        let front = previous_pins(entries.drop_last());
        match (entries.last().0, entries.last().1) {
            (ValueV::Str(sig), ValueV::Dict(pd)) => match dict_text(pd, "pin"@) {
                Some(pin) => front.push((sig, pin)),
                None => front,
            },
            _ => front,
        }
    }
}

/// What an earlier assignment gave, by request; entries that are not usable are left out.
pub open spec fn previous_of(entries: Seq<(ValueV, ValueV)>) -> Seq<(Seq<char>, PrevAssignV)>
    decreases entries.len(),
{
    if entries.len() == 0 {
        Seq::empty()
    } else {
        let front = previous_of(entries.drop_last());
        match (entries.last().0, entries.last().1) {
            (ValueV::Str(req), ValueV::Dict(ed)) => match dict_text(ed, "instance"@) {
                Some(instance) => front.push(
                    (
                        req,
                        PrevAssignV {
                            instance,
                            pins: match dict_find(ed, "signals"@) {
                                Some(ValueV::Dict(sigs)) => previous_pins(sigs),
                                _ => Seq::empty(),
                            },
                        },
                    ),
                ),
                None => front,
            },
            _ => front,
        }
    }
}

/// What an earlier assignment value gave; nothing if it is no dict.
pub open spec fn previous_in(v: ValueV) -> Seq<(Seq<char>, PrevAssignV)> {
    match v {
        ValueV::Dict(d) => previous_of(d),
        _ => Seq::empty(),
    }
}

fn parse_previous_pins(entries: &Vec<(Value, Value)>) -> (r: Vec<(String, String)>)
    ensures
        r.deep_view() == previous_pins(entries.deep_view()),
{
    let ghost ev = entries.deep_view();
    let n: usize = entries.len();
    let mut out: Vec<(String, String)> = Vec::new();
    let mut i: usize = 0;
    assert(out.deep_view() =~= Seq::empty());
    while i < n
        invariant
            n == entries@.len(),
            ev == entries.deep_view(),
            i <= n,
            out.deep_view() == previous_pins(ev.take(i as int)),
        decreases n - i,
    {
        let ghost before = out.deep_view();
        let ghost now = ev.take(i + 1);
        assert(now.drop_last() =~= ev.take(i as int));
        assert(now.last() == (entries@[i as int].0.value(), entries@[i as int].1.value()));
        proof {
            contents_are_values(entries@[i as int].1);
        }
        if let Value::Str(sig) = &entries[i].0 {
            if let Value::Dict(pd) = &entries[i].1 {
                if let Some(pin) = dict_get_str(pd, "pin") {
                    let ghost pv = pin@;
                    out.push((sig.clone(), pin));
                    assert(out.deep_view() =~= before.push((sig@, pv)));
                }
            }
        }
        i += 1;
    }
    assert(ev.take(n as int) =~= ev);
    out
}

/// Reads an earlier assignment; entries that are not usable are left out.
pub fn parse_previous(v: &Value) -> (r: Vec<(String, PrevAssign)>)
    ensures
        r.deep_view() == previous_in(v.value()),
{
    proof {
        contents_are_values(*v);
    }
    let mut out: Vec<(String, PrevAssign)> = Vec::new();
    assert(out.deep_view() =~= Seq::empty());
    let d = match v {
        Value::Dict(d) => d,
        _ => {
            return out;
        },
    };
    let ghost ev = d.deep_view();
    let n: usize = d.len();
    let mut i: usize = 0;
    while i < n
        invariant
            n == d@.len(),
            ev == d.deep_view(),
            i <= n,
            out.deep_view() == previous_of(ev.take(i as int)),
        decreases n - i,
    {
        let ghost before = out.deep_view();
        let ghost now = ev.take(i + 1);
        assert(now.drop_last() =~= ev.take(i as int));
        assert(now.last() == (d@[i as int].0.value(), d@[i as int].1.value()));
        proof {
            contents_are_values(d@[i as int].1);
        }
        if let Value::Str(req) = &d[i].0 {
            if let Value::Dict(ed) = &d[i].1 {
                if let Some(instance) = dict_get_str(ed, "instance") {
                    let mut pins: Vec<(String, String)> = Vec::new();
                    assert(pins.deep_view() =~= Seq::empty());
                    if let Some(sigs) = dict_get(ed, "signals") {
                        proof {
                            contents_are_values(*sigs);
                        }
                        if let Value::Dict(entries) = sigs {
                            pins = parse_previous_pins(entries);
                        }
                    }
                    let one = PrevAssign { instance, pins };
                    let ghost pv = one.deep_view();
                    out.push((req.clone(), one));
                    assert(out.deep_view() =~= before.push((req@, pv)));
                }
            }
        }
        i += 1;
    }
    assert(ev.take(n as int) =~= ev);
    out
}

/// The pin names that a value gives: one name or a list of names.
pub open spec fn pin_names(ctx: Seq<char>, v: ValueV) -> Result<Seq<Seq<char>>, Seq<char>> {
    match v {
        ValueV::Str(s) => Ok(seq![s]),
        ValueV::List(a) => match texts_in(a) {
            Some(t) => Ok(t),
            None => Err(ctx + ": pin names must be strings"@),
        },
        _ => Err(
            ctx + ": expected a pin name or a list of pin names, got `"@ + type_text(v) + "`"@,
        ),
    }
}

fn parse_pin_names(ctx: &str, v: &Value) -> (r: Result<Vec<String>, String>)
    ensures
        match r {
            Ok(p) => pin_names(ctx@, v.value()) == Ok::<_, Seq<char>>(p.deep_view()),
            Err(e) => pin_names(ctx@, v.value()) == Err::<Seq<Seq<char>>, _>(e@),
        },
{
    proof {
        contents_are_values(*v);
    }
    match v {
        Value::Str(s) => {
            let mut out: Vec<String> = Vec::new();
            out.push(s.clone());
            assert(out.deep_view() =~= seq![s@]);
            Ok(out)
        },
        Value::List(a) => match all_texts(a) {
            Some(t) => Ok(t),
            None => Err(ctx.to_string().concat(": pin names must be strings")),
        },
        _ => {
            let t = v.get_type();
            Err(
                ctx.to_string().concat(": expected a pin name or a list of pin names, got `").concat(
                    t.as_str(),
                ).concat("`"),
            )
        },
    }
}

/// Takes one signal with the pins it is bound to.
pub open spec fn spec_step(ctx: Seq<char>) -> spec_fn(
    Seq<(Seq<char>, Seq<Seq<char>>)>,
    (ValueV, ValueV),
) -> Result<Seq<(Seq<char>, Seq<Seq<char>>)>, Seq<char>> {
    |out: Seq<(Seq<char>, Seq<Seq<char>>)>, e: (ValueV, ValueV)|
        match text_of(e.0) {
            None => Err(ctx + ": signal names must be strings"@),
            Some(sig) => match pin_names(ctx, e.1) {
                Err(e) => Err(e),
                Ok(pins) => if pins.len() == 0 {
                    Err(ctx + ": signal `"@ + sig + "` lists no pin"@)
                } else {
                    Ok(out.push((sig, pins)))
                },
            },
        }
}

/// The lock that a pin specification means: a name, a list of names that must each be
/// claimed, or names by signal.
pub open spec fn pin_spec_of(ctx: Seq<char>, v: ValueV) -> Result<PinLockV, Seq<char>> {
    match v {
        ValueV::Dict(d) => match take_all(d, Seq::empty(), spec_step(ctx)) {
            Err(e) => Err(e),
            Ok(by_signal) => if by_signal.len() == 0 {
                Err(ctx + ": pins must not be empty"@)
            } else {
                Ok(PinLockV { any: Seq::empty(), by_signal })
            },
        },
        _ => match pin_names(ctx, v) {
            Err(e) => Err(e),
            Ok(any) => if any.len() == 0 {
                Err(ctx + ": pins must not be empty"@)
            } else {
                Ok(PinLockV { any, by_signal: Seq::empty() })
            },
        },
    }
}

fn parse_spec_entries(ctx: &str, entries: &Vec<(Value, Value)>) -> (r: Result<
    Vec<(String, Vec<String>)>,
    String,
>)
    ensures
        match r {
            Ok(p) => take_all(entries.deep_view(), Seq::empty(), spec_step(ctx@)) == Ok::<
                _,
                Seq<char>,
            >(p.deep_view()),
            Err(e) => take_all(entries.deep_view(), Seq::empty(), spec_step(ctx@)) == Err::<
                Seq<(Seq<char>, Seq<Seq<char>>)>,
                _,
            >(e@),
        },
{
    let ghost lv = entries.deep_view();
    let ghost f = spec_step(ctx@);
    let n: usize = entries.len();
    let mut out: Vec<(String, Vec<String>)> = Vec::new();
    let mut i: usize = 0;
    assert(out.deep_view() =~= Seq::empty());
    while i < n
        invariant
            n == entries@.len(),
            lv == entries.deep_view(),
            f == spec_step(ctx@),
            i <= n,
            take_all(lv.take(i as int), Seq::empty(), f) == Ok::<_, Seq<char>>(out.deep_view()),
        decreases n - i,
    {
        let ghost before = out.deep_view();
        proof {
            take_one_more(lv, Seq::empty(), f, i as int);
            if take_all(lv.take(i + 1), Seq::empty(), f) is Err {
                failure_stays(lv, Seq::empty(), f, i + 1);
            }
        }
        assert(lv[i as int] == (entries@[i as int].0.value(), entries@[i as int].1.value()));
        let sig: &String = match &entries[i].0 {
            Value::Str(s) => s,
            _ => {
                return Err(ctx.to_string().concat(": signal names must be strings"));
            },
        };
        match parse_pin_names(ctx, &entries[i].1) {
            Ok(pins) => {
                let ghost pv = pins.deep_view();
                if pins.len() == 0 {
                    return Err(
                        ctx.to_string().concat(": signal `").concat(sig.as_str()).concat(
                            "` lists no pin",
                        ),
                    );
                }
                out.push((sig.clone(), pins));
                assert(out.deep_view() =~= before.push((sig@, pv)));
            },
            Err(e) => {
                return Err(e);
            },
        }
        i += 1;
    }
    assert(lv.take(n as int) =~= lv);
    Ok(out)
}

/// Reads a pin specification: a pin name, a list of pin names (each must be claimed), or a
/// dict from signal to pins that bounds one signal's choice.
pub fn parse_pin_spec(ctx: &str, v: &Value) -> (r: Result<PinLock, String>)
    ensures
        match r {
            Ok(p) => pin_spec_of(ctx@, v.value()) == Ok::<_, Seq<char>>(p.deep_view()),
            Err(e) => pin_spec_of(ctx@, v.value()) == Err::<PinLockV, _>(e@),
        },
{
    proof {
        contents_are_values(*v);
    }
    match v {
        Value::Dict(d) => match parse_spec_entries(ctx, d) {
            Ok(by_signal) => {
                if by_signal.len() == 0 {
                    return Err(ctx.to_string().concat(": pins must not be empty"));
                }
                let any: Vec<String> = Vec::new();
                assert(any.deep_view() =~= Seq::empty());
                Ok(PinLock { any, by_signal })
            },
            Err(e) => Err(e),
        },
        _ => match parse_pin_names(ctx, v) {
            Ok(any) => {
                if any.len() == 0 {
                    return Err(ctx.to_string().concat(": pins must not be empty"));
                }
                let by_signal: Vec<(String, Vec<String>)> = Vec::new();
                assert(by_signal.deep_view() =~= Seq::empty());
                Ok(PinLock { any, by_signal })
            },
            Err(e) => Err(e),
        },
    }
}

/// The truth of the configuration axis `key`; false where it is not set.
pub open spec fn axis_on(config: Seq<(Seq<char>, ValueV)>, key: Seq<char>) -> bool
    decreases config.len(),
{
    if config.len() == 0 {
        false
    } else if config[0].0 == key {
        truth(config[0].1)
    } else {
        axis_on(config.drop_first(), key)
    }
}

/// The truth of the configuration axis `key`; false where it is not set.
pub fn config_truthy(config: &Vec<(String, Value)>, key: &str) -> (r: bool)
    ensures
        r == axis_on(config.deep_view(), key@),
{
    let ghost all = config.deep_view();
    let n: usize = config.len();
    let mut i: usize = 0;
    assert(all.skip(0) =~= all);
    while i < n
        invariant
            n == config@.len(),
            all == config.deep_view(),
            i <= n,
            axis_on(all, key@) == axis_on(all.skip(i as int), key@),
        decreases n - i,
    {
        assert(all.skip(i as int).drop_first() =~= all.skip(i + 1));
        assert(all.skip(i as int)[0] == (config@[i as int].0@, config@[i as int].1.value()));
        if same(config[i].0.as_str(), key) {
            return config[i].1.to_bool();
        }
        i += 1;
    }
    false
}

} // verus!
