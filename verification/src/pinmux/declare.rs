//! Declarations: pins, peripherals, pools, requests and pin constraints.
use vstd::prelude::*;

use crate::duplicate::Duplicate;
use crate::json::{Json, JsonV};
use crate::pinmux::access::{
    contents_are_values, dict_get_str, dict_text, is_kind, is_of_kind, type_text,
};
use crate::pinmux::iface::{
    check_signal_names, closure, collect_net_ids, first_repeat, iface_closure, iface_info, info_of,
    net_ids, repeat_text, IfaceInfo, InfoV,
};
use crate::pinmux::constraints::{recorded, PinConstraints};
use crate::pinmux::lock::{stray_signal, stray_text};
use crate::pinmux::model::{PinLock, PinLockV};
use crate::pinmux::parse::{parse_pin_spec, pin_spec_of};
use crate::pinmux::physical::{Dims, DimsV, Quantity, QuantityV};
use crate::pinmux::value::{Value, ValueV};
use crate::steps::{failure_stays, take_all, take_one_more};
use crate::text::{cat3, cat5, decimal, holds, join, joined, quote_all, quoted, same, size_text};

verus! {

/// The namespace of the pin model: what it offers are `pin`, `peripheral`, `pool`, `pin_request`,
/// `at`, `pin_solve` and `pin_map`.
#[derive(Clone, Copy, Debug, PartialEq, Eq, Structural)]
pub struct Pinmux;

/// An entry of a dict with a text for its key.
fn entry(key: &str, v: Value) -> (r: (Value, Value))
    ensures
        r.deep_view() == (ValueV::Str(key@), v.value()),
{
    (Value::Str(key.to_string()), v)
}

/// A text value.
fn text(s: &str) -> (r: Value)
    ensures
        r.value() == ValueV::Str(s@),
{
    Value::Str(s.to_string())
}

/// A text value, or no value.
fn optional_text(s: &Option<String>) -> (r: Value)
    ensures
        r.value() == optional(s.deep_view()),
{
    match s {
        Some(t) => text(t.as_str()),
        None => Value::Nothing,
    }
}

/// A text value, or no value.
pub open spec fn optional(s: Option<Seq<char>>) -> ValueV {
    match s {
        Some(t) => ValueV::Str(t),
        None => ValueV::Nothing,
    }
}

/// The dict of a pin.
pub open spec fn pin_dict(
    name: Seq<char>,
    data: ValueV,
    cost: int,
    input_only: bool,
    strap: bool,
) -> ValueV {
    ValueV::Dict(
        seq![
            (ValueV::Str("kind"@), ValueV::Str("pin"@)),
            (ValueV::Str("name"@), ValueV::Str(name)),
            (ValueV::Str("data"@), data),
            (ValueV::Str("cost"@), ValueV::Int(cost as i64)),
            (ValueV::Str("input_only"@), ValueV::Bool(input_only)),
            (ValueV::Str("strap"@), ValueV::Bool(strap)),
        ],
    )
}

fn alloc_pin_dict(name: &str, data: Value, cost: i32, input_only: bool, strap: bool) -> (r: Value)
    ensures
        r.value() == pin_dict(name@, data.value(), cost as int, input_only, strap),
{
    let ghost dv = data.value();
    let mut d: Vec<(Value, Value)> = Vec::new();
    d.push(entry("kind", text("pin")));
    d.push(entry("name", text(name)));
    d.push(entry("data", data));
    d.push(entry("cost", Value::Int(cost as i64)));
    d.push(entry("input_only", Value::Bool(input_only)));
    d.push(entry("strap", Value::Bool(strap)));
    let r = Value::Dict(d);
    proof {
        contents_are_values(r);
        assert(d.deep_view() =~= pin_dict(name@, dv, cost as int, input_only, strap)->Dict_0);
    }
    r
}

/// The entries that named values make.
pub open spec fn named_entries(data: Seq<(Seq<char>, ValueV)>) -> Seq<(ValueV, ValueV)> {
    Seq::new(data.len(), |i: int| (ValueV::Str(data[i].0), data[i].1))
}

fn make_entries(data: &Vec<(String, Value)>) -> (r: Vec<(Value, Value)>)
    ensures
        r.deep_view() == named_entries(data.deep_view()),
{
    let ghost dv = data.deep_view();
    let n: usize = data.len();
    let mut out: Vec<(Value, Value)> = Vec::new();
    let mut i: usize = 0;
    while i < n
        invariant
            n == data@.len(),
            dv == data.deep_view(),
            i <= n,
            out@.len() == i,
            forall|j: int| 0 <= j < i ==> (#[trigger] out@[j]).deep_view() == named_entries(dv)[j],
        decreases n - i,
    {
        assert(dv[i as int] == (data@[i as int].0@, data@[i as int].1.value()));
        out.push(entry(data[i].0.as_str(), data[i].1.duplicate()));
        i += 1;
    }
    assert(out.deep_view() =~= named_entries(dv));
    out
}

/// The names of named values.
pub open spec fn keys_of(data: Seq<(Seq<char>, ValueV)>) -> Seq<Seq<char>> {
    Seq::new(data.len(), |i: int| data[i].0)
}

fn has_key(data: &Vec<(String, Value)>, key: &str) -> (r: bool)
    ensures
        r == keys_of(data.deep_view()).contains(key@),
{
    let ghost ks = keys_of(data.deep_view());
    let n: usize = data.len();
    let mut i: usize = 0;
    while i < n
        invariant
            n == data@.len(),
            ks == keys_of(data.deep_view()),
            i <= n,
            forall|j: int| 0 <= j < i ==> ks[j] != key@,
        decreases n - i,
    {
        assert(ks[i as int] == data@[i as int].0@);
        if same(data[i].0.as_str(), key) {
            return true;
        }
        i += 1;
    }
    false
}

/// One candidate physical pin for a peripheral signal. `data` carries opaque realization
/// information verbatim into the solved assignment.
pub fn pin(
    name: &str,
    data: &Vec<(String, Value)>,
    cost: i32,
    input_only: bool,
    strap: bool,
) -> (r: Result<Value, String>)
    ensures
        if keys_of(data.deep_view()).contains("pin"@) {
            r matches Err(e) && e@ == "pin `"@ + name@
                + "`: data key `pin` is reserved (it names the pin itself in the assignment)"@
        } else {
            r matches Ok(v) && v.value() == pin_dict(
                name@,
                if data@.len() == 0 {
                    ValueV::Nothing
                } else {
                    ValueV::Dict(named_entries(data.deep_view()))
                },
                cost as int,
                input_only,
                strap,
            )
        },
{
    if data.len() == 0 {
        return Ok(alloc_pin_dict(name, Value::Nothing, cost, input_only, strap));
    }
    if has_key(data, "pin") {
        return Err(
            cat3(
                "pin `",
                name,
                "`: data key `pin` is reserved (it names the pin itself in the assignment)",
            ),
        );
    }
    let d = Value::Dict(make_entries(data));
    proof {
        contents_are_values(d);
    }
    Ok(alloc_pin_dict(name, d, cost, input_only, strap))
}

/// The pin dict of a candidate: a name stands for a plain pin.
pub open spec fn candidate_dict(v: ValueV) -> Option<ValueV> {
    match v {
        ValueV::Str(s) => Some(pin_dict(s, ValueV::Nothing, 0, false, false)),
        _ => if is_of_kind(v, "pin"@) {
            Some(v)
        } else {
            None
        },
    }
}

fn candidate(v: &Value) -> (r: Option<Value>)
    ensures
        r.deep_view() == candidate_dict(v.value()),
{
    match v {
        Value::Str(s) => Some(alloc_pin_dict(s.as_str(), Value::Nothing, 0, false, false)),
        _ => {
            if is_kind(v, "pin") {
                Some(v.duplicate())
            } else {
                None
            }
        },
    }
}

/// Takes one candidate of a signal.
pub open spec fn normal_step(name: Seq<char>, sig: Seq<char>) -> spec_fn(
    Seq<ValueV>,
    ValueV,
) -> Result<Seq<ValueV>, Seq<char>> {
    |out: Seq<ValueV>, v: ValueV|
        match candidate_dict(v) {
            Some(d) => Ok(out.push(d)),
            None => Err(
                "peripheral `"@ + name + "`: signal `"@ + sig
                    + "` candidates must be pin() or strings, got `"@ + type_text(v) + "`"@,
            ),
        }
}

/// The candidates of a signal as pin dicts.
pub open spec fn normal_candidates(name: Seq<char>, sig: Seq<char>, v: ValueV) -> Result<
    Seq<ValueV>,
    Seq<char>,
> {
    match v {
        ValueV::List(a) => take_all(a, Seq::empty(), normal_step(name, sig)),
        _ => Err("peripheral `"@ + name + "`: signal `"@ + sig + "` candidates must be a list"@),
    }
}

/// Turns the candidates of a signal into pin dicts.
pub fn normalize_candidates(name: &str, sig: &str, cands: &Value) -> (r: Result<Vec<Value>, String>)
    ensures
        match r {
            Ok(out) => normal_candidates(name@, sig@, cands.value()) == Ok::<_, Seq<char>>(
                out.deep_view(),
            ),
            Err(e) => normal_candidates(name@, sig@, cands.value()) == Err::<Seq<ValueV>, _>(e@),
        },
{
    proof {
        contents_are_values(*cands);
    }
    let list = match cands {
        Value::List(list) => list,
        _ => {
            return Err(
                cat5("peripheral `", name, "`: signal `", sig, "` candidates must be a list"),
            );
        },
    };
    let ghost lv = list.deep_view();
    let ghost f = normal_step(name@, sig@);
    let n: usize = list.len();
    let mut out: Vec<Value> = Vec::new();
    let mut i: usize = 0;
    assert(out.deep_view() =~= Seq::empty());
    while i < n
        invariant
            n == list@.len(),
            lv == list.deep_view(),
            f == normal_step(name@, sig@),
            normal_candidates(name@, sig@, cands.value()) == take_all(lv, Seq::empty(), f),
            i <= n,
            take_all(lv.take(i as int), Seq::empty(), f) == Ok::<_, Seq<char>>(out.deep_view()),
        decreases n - i,
    {
        let ghost before = out.deep_view();
        proof {
            take_one_more(lv, Seq::empty(), f, i as int);
            if take_all(lv.take(i + 1), Seq::empty(), f) is Err {
                failure_stays(lv, Seq::empty(), f, i + 1);
            }
        }
        assert(lv[i as int] == list@[i as int].value());
        match candidate(&list[i]) {
            Some(d) => {
                let ghost dv = d.value();
                out.push(d);
                assert(out.deep_view() =~= before.push(dv));
            },
            None => {
                let t = list[i].get_type();
                return Err(
                    cat5(
                        "peripheral `",
                        name,
                        "`: signal `",
                        sig,
                        "` candidates must be pin() or strings, got `",
                    ).concat(t.as_str()).concat("`"),
                );
            },
        }
        i += 1;
    }
    assert(lv.take(n as int) =~= lv);
    Ok(out)
}

/// Some entry for `sig` lists a candidate.
pub open spec fn has_candidate(signals: Seq<(Seq<char>, Seq<ValueV>)>, sig: Seq<char>) -> bool {
    exists|i: int|
        0 <= i < signals.len() && (#[trigger] signals[i]).0 == sig && signals[i].1.len() > 0
}

/// Checks one signal of a provided interface.
pub open spec fn cover_signal(
    name: Seq<char>,
    info: InfoV,
    signals: Seq<(Seq<char>, Seq<ValueV>)>,
) -> spec_fn((), Seq<char>) -> Result<(), Seq<char>> {
    |s: (), sig: Seq<char>|
        if has_candidate(signals, sig) {
            Ok(())
        } else {
            Err(
                "peripheral `"@ + name + "` claims "@ + info.name
                    + " but has no candidate for signal `"@ + sig + "` (its signals are "@ + joined(
                    quoted(info.signals),
                    ", "@,
                ) + ")"@,
            )
        }
}

/// Checks the signals of one interface of a closure.
pub open spec fn cover_info(
    name: Seq<char>,
    signals: Seq<(Seq<char>, Seq<ValueV>)>,
) -> spec_fn((), InfoV) -> Result<(), Seq<char>> {
    |s: (), info: InfoV| take_all(info.signals, (), cover_signal(name, info, signals))
}

/// Checks one provided interface, closure and all.
pub open spec fn cover_provided(
    name: Seq<char>,
    signals: Seq<(Seq<char>, Seq<ValueV>)>,
) -> spec_fn((), ValueV) -> Result<(), Seq<char>> {
    |s: (), p: ValueV|
        match closure(p) {
            Err(e) => Err(e),
            Ok(infos) => take_all(infos, (), cover_info(name, signals)),
        }
}

/// A declared attribute: its name, its dimensions and the interface that declares it.
pub type DeclaredV = (Seq<char>, DimsV, Seq<char>);

/// The first declaration of an attribute.
pub open spec fn declared_find(declared: Seq<DeclaredV>, name: Seq<char>) -> Option<DeclaredV>
    decreases declared.len(),
{
    if declared.len() == 0 {
        None
    } else if declared[0].0 == name {
        Some(declared[0])
    } else {
        declared_find(declared.drop_first(), name)
    }
}

/// Takes one attribute that an interface declares.
pub open spec fn declare_attr(name: Seq<char>, owner: Seq<char>) -> spec_fn(
    Seq<DeclaredV>,
    (Seq<char>, ValueV),
) -> Result<Seq<DeclaredV>, Seq<char>> {
    |out: Seq<DeclaredV>, a: (Seq<char>, ValueV)|
        match a.1 {
            ValueV::PhysicalType(dims, _) => match declared_find(out, a.0) {
                Some(d) => if d.1.code != dims.code {
                    Err(
                        "peripheral `"@ + name + "`: attr `"@ + a.0
                            + "` is declared with conflicting dimensions by "@ + d.2 + " and "@
                            + owner,
                    )
                } else {
                    Ok(out)
                },
                None => Ok(out.push((a.0, dims, owner))),
            },
            _ => Ok(out),
        }
}

/// Takes the attributes of one interface of a closure.
pub open spec fn declare_info(name: Seq<char>) -> spec_fn(Seq<DeclaredV>, InfoV) -> Result<
    Seq<DeclaredV>,
    Seq<char>,
> {
    |out: Seq<DeclaredV>, info: InfoV| take_all(info.attrs, out, declare_attr(name, info.name))
}

/// Takes the attributes of one provided interface, closure and all.
pub open spec fn declare_provided(name: Seq<char>) -> spec_fn(Seq<DeclaredV>, ValueV) -> Result<
    Seq<DeclaredV>,
    Seq<char>,
> {
    |out: Seq<DeclaredV>, p: ValueV|
        match closure(p) {
            Err(e) => Err(e),
            Ok(infos) => take_all(infos, out, declare_info(name)),
        }
}

/// An attribute value as given, and the physical quantity that was read from it (with the
/// name of its type and its JSON form), or why it could not be read.
pub struct Attr {
    pub given: Value,
    pub read: Result<(Quantity, String, Option<Json>), String>,
}

/// The value of an `Attr`.
pub struct AttrV {
    pub given: ValueV,
    pub read: Result<(QuantityV, Seq<char>, Option<JsonV>), Seq<char>>,
}

impl DeepView for Attr {
    type V = AttrV;

    open spec fn deep_view(&self) -> AttrV {
        AttrV {
            given: self.given.value(),
            read: match self.read {
                Ok(q) => Ok(q.deep_view()),
                Err(e) => Err(e@),
            },
        }
    }
}

/// The declared attributes in words.
pub open spec fn declared_names(declared: Seq<DeclaredV>) -> Seq<Seq<char>> {
    Seq::new(declared.len(), |i: int| "`"@ + declared[i].0 + "` ("@ + declared[i].2 + ")"@)
}

/// Takes one attribute of a peripheral.
pub open spec fn attr_step(name: Seq<char>, declared: Seq<DeclaredV>) -> spec_fn(
    Seq<(ValueV, ValueV)>,
    (Seq<char>, AttrV),
) -> Result<Seq<(ValueV, ValueV)>, Seq<char>> {
    |out: Seq<(ValueV, ValueV)>, a: (Seq<char>, AttrV)|
        match declared_find(declared, a.0) {
            None => Err(
                "peripheral `"@ + name + "`: attr `"@ + a.0
                    + "` is not declared by any provided interface — "@ + if declared.len() == 0 {
                    "the provided interfaces declare no attrs"@
                } else {
                    "declared: "@ + joined(declared_names(declared), ", "@)
                },
            ),
            Some(d) => match a.1.read {
                Err(e) => match a.1.given {
                    ValueV::Str(txt) => Err(
                        "peripheral `"@ + name + "`: attr `"@ + a.0 + "`: cannot parse `"@ + txt
                            + "`: "@ + e,
                    ),
                    _ => Err(
                        "peripheral `"@ + name + "`: attr `"@ + a.0
                            + "` must be a physical value, got `"@ + type_text(a.1.given) + "`"@,
                    ),
                },
                Ok(q) => if q.0.unit.code != d.1.code {
                    Err(
                        "peripheral `"@ + name + "`: attr `"@ + a.0 + "` (declared on "@ + d.2
                            + ") expects "@ + d.1.quantity + ", got "@ + q.0.unit.quantity,
                    )
                } else {
                    Ok(out.push((ValueV::Str(a.0), ValueV::Physical(q.0, q.1, q.2))))
                },
            },
        }
}

/// The signals as dict entries.
pub open spec fn signal_entries(signals: Seq<(Seq<char>, Seq<ValueV>)>) -> Seq<(ValueV, ValueV)> {
    Seq::new(signals.len(), |i: int| (ValueV::Str(signals[i].0), ValueV::List(signals[i].1)))
}

/// The dict of a peripheral.
pub open spec fn peripheral_dict(
    name: Seq<char>,
    provides: Seq<ValueV>,
    signals: Seq<(Seq<char>, Seq<ValueV>)>,
    rebind: Seq<char>,
    attrs: Seq<(ValueV, ValueV)>,
    unless: Option<Seq<char>>,
    pool: Option<Seq<char>>,
) -> ValueV {
    ValueV::Dict(
        seq![
            (ValueV::Str("kind"@), ValueV::Str("peripheral"@)),
            (ValueV::Str("name"@), ValueV::Str(name)),
            (ValueV::Str("provides"@), ValueV::List(provides)),
            (ValueV::Str("signals"@), ValueV::Dict(signal_entries(signals))),
            (ValueV::Str("rebind"@), ValueV::Str(rebind)),
            (ValueV::Str("attrs"@), ValueV::Dict(attrs)),
            (ValueV::Str("unless"@), optional(unless)),
            (ValueV::Str("pool"@), optional(pool)),
        ],
    )
}

/// One of the rebind costs.
pub open spec fn is_rebind(rebind: Seq<char>) -> bool {
    rebind == "none"@ || rebind == "firmware"@ || rebind == "fixed"@
}

/// The dict of a peripheral, or what is wrong with its declaration: a declaration cannot
/// overstate the datasheet, and its attributes follow the declared vocabulary.
pub open spec fn peripheral_of(
    name: Seq<char>,
    provides: Seq<ValueV>,
    signals: Seq<(Seq<char>, Seq<ValueV>)>,
    rebind: Seq<char>,
    attrs: Seq<(Seq<char>, AttrV)>,
    unless: Option<Seq<char>>,
    pool: Option<Seq<char>>,
) -> Result<ValueV, Seq<char>> {
    if !is_rebind(rebind) {
        Err(
            "peripheral `"@ + name
                + "`: rebind must be one of [\"none\", \"firmware\", \"fixed\"], got `"@ + rebind
                + "`"@,
        )
    } else if provides.len() == 0 {
        Err("peripheral `"@ + name + "`: provides must list at least one interface type"@)
    } else {
        match take_all(provides, (), cover_provided(name, signals)) {
            Err(e) => Err(e),
            Ok(_) => match take_all(provides, Seq::empty(), declare_provided(name)) {
                Err(e) => Err(e),
                Ok(declared) => match take_all(attrs, Seq::empty(), attr_step(name, declared)) {
                    Err(e) => Err(e),
                    Ok(pairs) => Ok(
                        peripheral_dict(name, provides, signals, rebind, pairs, unless, pool),
                    ),
                },
            },
        }
    }
}

fn lists_candidate(signals: &Vec<(String, Vec<Value>)>, sig: &str) -> (r: bool)
    ensures
        r == has_candidate(signals.deep_view(), sig@),
{
    let ghost sv = signals.deep_view();
    let n: usize = signals.len();
    let mut i: usize = 0;
    while i < n
        invariant
            n == signals@.len(),
            sv == signals.deep_view(),
            i <= n,
            forall|j: int| 0 <= j < i ==> (#[trigger] sv[j]).0 != sig@ || sv[j].1.len() == 0,
        decreases n - i,
    {
        assert(sv[i as int] == (signals@[i as int].0@, signals@[i as int].1.deep_view()));
        if signals[i].1.len() > 0 && same(signals[i].0.as_str(), sig) {
            return true;
        }
        i += 1;
    }
    false
}

fn check_info<'a>(name: &str, info: &IfaceInfo<'a>, signals: &Vec<(String, Vec<Value>)>) -> (r: Result<
    (),
    String,
>)
    ensures
        match r {
            Ok(_) => cover_info(name@, signals.deep_view())((), info.deep_view()) == Ok::<
                (),
                Seq<char>,
            >(()),
            Err(e) => cover_info(name@, signals.deep_view())((), info.deep_view()) == Err::<
                (),
                Seq<char>,
            >(e@),
        },
{
    let ghost iv = info.deep_view();
    let ghost sv = iv.signals;
    let ghost f = cover_signal(name@, iv, signals.deep_view());
    let n: usize = info.signals.len();
    let mut i: usize = 0;
    while i < n
        invariant
            n == info.signals@.len(),
            iv == info.deep_view(),
            sv == iv.signals,
            f == cover_signal(name@, iv, signals.deep_view()),
            i <= n,
            take_all(sv.take(i as int), (), f) == Ok::<(), Seq<char>>(()),
        decreases n - i,
    {
        proof {
            take_one_more(sv, (), f, i as int);
            if take_all(sv.take(i + 1), (), f) is Err {
                failure_stays(sv, (), f, i + 1);
            }
        }
        assert(sv[i as int] == info.signals@[i as int]@);
        if !lists_candidate(signals, info.signals[i].as_str()) {
            let list = quote_all(&info.signals);
            return Err(
                cat5(
                    "peripheral `",
                    name,
                    "` claims ",
                    info.name,
                    " but has no candidate for signal `",
                ).concat(info.signals[i].as_str()).concat("` (its signals are ").concat(
                    list.as_str(),
                ).concat(")"),
            );
        }
        i += 1;
    }
    assert(sv.take(n as int) =~= sv);
    Ok(())
}

fn check_infos<'a>(
    name: &str,
    infos: &Vec<IfaceInfo<'a>>,
    signals: &Vec<(String, Vec<Value>)>,
) -> (r: Result<(), String>)
    ensures
        match r {
            Ok(_) => take_all(infos.deep_view(), (), cover_info(name@, signals.deep_view())) == Ok::<
                (),
                Seq<char>,
            >(()),
            Err(e) => take_all(infos.deep_view(), (), cover_info(name@, signals.deep_view()))
                == Err::<(), Seq<char>>(e@),
        },
{
    let ghost iv = infos.deep_view();
    let ghost f = cover_info(name@, signals.deep_view());
    let n: usize = infos.len();
    let mut i: usize = 0;
    while i < n
        invariant
            n == infos@.len(),
            iv == infos.deep_view(),
            f == cover_info(name@, signals.deep_view()),
            i <= n,
            take_all(iv.take(i as int), (), f) == Ok::<(), Seq<char>>(()),
        decreases n - i,
    {
        proof {
            take_one_more(iv, (), f, i as int);
            if take_all(iv.take(i + 1), (), f) is Err {
                failure_stays(iv, (), f, i + 1);
            }
        }
        assert(iv[i as int] == infos@[i as int].deep_view());
        if let Err(e) = check_info(name, &infos[i], signals) {
            return Err(e);
        }
        i += 1;
    }
    assert(iv.take(n as int) =~= iv);
    Ok(())
}

/// Every signal of every provided interface, closures included, needs a candidate.
fn check_provided(
    name: &str,
    provides: &Vec<Value>,
    signals: &Vec<(String, Vec<Value>)>,
) -> (r: Result<(), String>)
    ensures
        match r {
            Ok(_) => take_all(provides.deep_view(), (), cover_provided(name@, signals.deep_view()))
                == Ok::<(), Seq<char>>(()),
            Err(e) => take_all(provides.deep_view(), (), cover_provided(name@, signals.deep_view()))
                == Err::<(), Seq<char>>(e@),
        },
{
    let ghost pv = provides.deep_view();
    let ghost f = cover_provided(name@, signals.deep_view());
    let n: usize = provides.len();
    let mut i: usize = 0;
    while i < n
        invariant
            n == provides@.len(),
            pv == provides.deep_view(),
            f == cover_provided(name@, signals.deep_view()),
            i <= n,
            take_all(pv.take(i as int), (), f) == Ok::<(), Seq<char>>(()),
        decreases n - i,
    {
        proof {
            take_one_more(pv, (), f, i as int);
            if take_all(pv.take(i + 1), (), f) is Err {
                failure_stays(pv, (), f, i + 1);
            }
        }
        assert(pv[i as int] == provides@[i as int].value());
        match iface_closure(&provides[i]) {
            Ok(infos) => {
                if let Err(e) = check_infos(name, &infos, signals) {
                    return Err(e);
                }
            },
            Err(e) => {
                return Err(e);
            },
        }
        i += 1;
    }
    assert(pv.take(n as int) =~= pv);
    Ok(())
}

/// The first declaration of an attribute.
fn find_declared<'a>(declared: &'a Vec<(String, Dims, String)>, name: &str) -> (r: Option<
    &'a (String, Dims, String),
>)
    ensures
        r.deep_view() == declared_find(declared.deep_view(), name@),
{
    let ghost all = declared.deep_view();
    let n: usize = declared.len();
    let mut i: usize = 0;
    assert(all.skip(0) =~= all);
    while i < n
        invariant
            n == declared@.len(),
            all == declared.deep_view(),
            i <= n,
            declared_find(all, name@) == declared_find(all.skip(i as int), name@),
        decreases n - i,
    {
        assert(all.skip(i as int).drop_first() =~= all.skip(i + 1));
        assert(all.skip(i as int)[0] == declared@[i as int].deep_view());
        if same(declared[i].0.as_str(), name) {
            return Some(&declared[i]);
        }
        i += 1;
    }
    None
}

fn declare_one_info<'a>(
    name: &str,
    info: &IfaceInfo<'a>,
    declared: Vec<(String, Dims, String)>,
) -> (r: Result<Vec<(String, Dims, String)>, String>)
    ensures
        match r {
            Ok(out) => declare_info(name@)(declared.deep_view(), info.deep_view()) == Ok::<
                _,
                Seq<char>,
            >(out.deep_view()),
            Err(e) => declare_info(name@)(declared.deep_view(), info.deep_view()) == Err::<
                Seq<DeclaredV>,
                _,
            >(e@),
        },
{
    let ghost init = declared.deep_view();
    let ghost iv = info.deep_view();
    let ghost av = iv.attrs;
    let ghost f = declare_attr(name@, iv.name);
    let mut out = declared;
    let n: usize = info.attr_specs.len();
    let mut i: usize = 0;
    while i < n
        invariant
            n == info.attr_specs@.len(),
            iv == info.deep_view(),
            av == iv.attrs,
            f == declare_attr(name@, iv.name),
            init == declared.deep_view(),
            i <= n,
            take_all(av.take(i as int), init, f) == Ok::<_, Seq<char>>(out.deep_view()),
        decreases n - i,
    {
        let ghost before = out.deep_view();
        proof {
            take_one_more(av, init, f, i as int);
            if take_all(av.take(i + 1), init, f) is Err {
                failure_stays(av, init, f, i + 1);
            }
        }
        assert(av[i as int] == (info.attr_specs@[i as int].0@, info.attr_specs@[i as int].1.value()));
        let attr: &str = info.attr_specs[i].0.as_str();
        if let Value::PhysicalType(dims, _) = &info.attr_specs[i].1 {
            match find_declared(&out, attr) {
                Some(d) => {
                    if d.1.code != dims.code {
                        return Err(
                            cat5(
                                "peripheral `",
                                name,
                                "`: attr `",
                                attr,
                                "` is declared with conflicting dimensions by ",
                            ).concat(d.2.as_str()).concat(" and ").concat(info.name),
                        );
                    }
                },
                None => {
                    out.push((attr.to_string(), dims.duplicate(), info.name.to_string()));
                    assert(out.deep_view() =~= before.push((attr@, dims.deep_view(), iv.name)));
                },
            }
        }
        i += 1;
    }
    assert(av.take(n as int) =~= av);
    Ok(out)
}

fn declare_infos<'a>(
    name: &str,
    infos: &Vec<IfaceInfo<'a>>,
    declared: Vec<(String, Dims, String)>,
) -> (r: Result<Vec<(String, Dims, String)>, String>)
    ensures
        match r {
            Ok(out) => take_all(infos.deep_view(), declared.deep_view(), declare_info(name@)) == Ok::<
                _,
                Seq<char>,
            >(out.deep_view()),
            Err(e) => take_all(infos.deep_view(), declared.deep_view(), declare_info(name@)) == Err::<
                Seq<DeclaredV>,
                _,
            >(e@),
        },
{
    let ghost init = declared.deep_view();
    let ghost iv = infos.deep_view();
    let ghost f = declare_info(name@);
    let mut out = declared;
    let n: usize = infos.len();
    let mut i: usize = 0;
    while i < n
        invariant
            n == infos@.len(),
            iv == infos.deep_view(),
            f == declare_info(name@),
            init == declared.deep_view(),
            i <= n,
            take_all(iv.take(i as int), init, f) == Ok::<_, Seq<char>>(out.deep_view()),
        decreases n - i,
    {
        proof {
            take_one_more(iv, init, f, i as int);
            if take_all(iv.take(i + 1), init, f) is Err {
                failure_stays(iv, init, f, i + 1);
            }
        }
        assert(iv[i as int] == infos@[i as int].deep_view());
        match declare_one_info(name, &infos[i], out) {
            Ok(next) => {
                out = next;
            },
            Err(e) => {
                return Err(e);
            },
        }
        i += 1;
    }
    assert(iv.take(n as int) =~= iv);
    Ok(out)
}

/// The attributes that the provided interfaces declare, closures included.
fn declare_all(name: &str, provides: &Vec<Value>) -> (r: Result<Vec<(String, Dims, String)>, String>)
    ensures
        match r {
            Ok(out) => take_all(provides.deep_view(), Seq::empty(), declare_provided(name@)) == Ok::<
                _,
                Seq<char>,
            >(out.deep_view()),
            Err(e) => take_all(provides.deep_view(), Seq::empty(), declare_provided(name@)) == Err::<
                Seq<DeclaredV>,
                _,
            >(e@),
        },
{
    let ghost init = Seq::<DeclaredV>::empty();
    let ghost pv = provides.deep_view();
    let ghost f = declare_provided(name@);
    let mut out: Vec<(String, Dims, String)> = Vec::new();
    let n: usize = provides.len();
    let mut i: usize = 0;
    assert(out.deep_view() =~= init);
    while i < n
        invariant
            n == provides@.len(),
            pv == provides.deep_view(),
            f == declare_provided(name@),
            init == Seq::<DeclaredV>::empty(),
            i <= n,
            take_all(pv.take(i as int), init, f) == Ok::<_, Seq<char>>(out.deep_view()),
        decreases n - i,
    {
        proof {
            take_one_more(pv, init, f, i as int);
            if take_all(pv.take(i + 1), init, f) is Err {
                failure_stays(pv, init, f, i + 1);
            }
        }
        assert(pv[i as int] == provides@[i as int].value());
        match iface_closure(&provides[i]) {
            Ok(infos) => match declare_infos(name, &infos, out) {
                Ok(next) => {
                    out = next;
                },
                Err(e) => {
                    return Err(e);
                },
            },
            Err(e) => {
                return Err(e);
            },
        }
        i += 1;
    }
    assert(pv.take(n as int) =~= pv);
    Ok(out)
}

fn list_declared(declared: &Vec<(String, Dims, String)>) -> (r: String)
    ensures
        r@ == joined(declared_names(declared.deep_view()), ", "@),
{
    let ghost dv = declared.deep_view();
    let n: usize = declared.len();
    let mut out: Vec<String> = Vec::new();
    let mut i: usize = 0;
    while i < n
        invariant
            n == declared@.len(),
            dv == declared.deep_view(),
            i <= n,
            out@.len() == i,
            forall|j: int| 0 <= j < i ==> (#[trigger] out@[j])@ == declared_names(dv)[j],
        decreases n - i,
    {
        assert(dv[i as int] == declared@[i as int].deep_view());
        out.push(cat5("`", declared[i].0.as_str(), "` (", declared[i].2.as_str(), ")"));
        i += 1;
    }
    assert(out.deep_view() =~= declared_names(dv));
    join(&out, ", ")
}

/// The attributes as dict entries, each checked against its declaration.
fn check_attrs(
    name: &str,
    declared: &Vec<(String, Dims, String)>,
    attrs: &Vec<(String, Attr)>,
) -> (r: Result<Vec<(Value, Value)>, String>)
    ensures
        match r {
            Ok(out) => take_all(
                attrs.deep_view(),
                Seq::empty(),
                attr_step(name@, declared.deep_view()),
            ) == Ok::<_, Seq<char>>(out.deep_view()),
            Err(e) => take_all(
                attrs.deep_view(),
                Seq::empty(),
                attr_step(name@, declared.deep_view()),
            ) == Err::<Seq<(ValueV, ValueV)>, _>(e@),
        },
{
    let ghost init = Seq::<(ValueV, ValueV)>::empty();
    let ghost av = attrs.deep_view();
    let ghost f = attr_step(name@, declared.deep_view());
    let mut out: Vec<(Value, Value)> = Vec::new();
    let n: usize = attrs.len();
    let mut i: usize = 0;
    assert(out.deep_view() =~= init);
    while i < n
        invariant
            n == attrs@.len(),
            av == attrs.deep_view(),
            f == attr_step(name@, declared.deep_view()),
            init == Seq::<(ValueV, ValueV)>::empty(),
            i <= n,
            take_all(av.take(i as int), init, f) == Ok::<_, Seq<char>>(out.deep_view()),
        decreases n - i,
    {
        let ghost before = out.deep_view();
        proof {
            take_one_more(av, init, f, i as int);
            if take_all(av.take(i + 1), init, f) is Err {
                failure_stays(av, init, f, i + 1);
            }
        }
        assert(av[i as int] == (attrs@[i as int].0@, attrs@[i as int].1.deep_view()));
        let key: &str = attrs[i].0.as_str();
        let found = find_declared(declared, key);
        match found {
            None => {
                let known = if declared.len() == 0 {
                    "the provided interfaces declare no attrs".to_string()
                } else {
                    let list = list_declared(declared);
                    "declared: ".to_string().concat(list.as_str())
                };
                return Err(
                    cat5(
                        "peripheral `",
                        name,
                        "`: attr `",
                        key,
                        "` is not declared by any provided interface — ",
                    ).concat(known.as_str()),
                );
            },
            Some(d) => match &attrs[i].1.read {
                Err(e) => {
                    return match &attrs[i].1.given {
                        Value::Str(txt) => Err(
                            cat5("peripheral `", name, "`: attr `", key, "`: cannot parse `").concat(
                                txt.as_str(),
                            ).concat("`: ").concat(e.as_str()),
                        ),
                        other => {
                            let t = other.get_type();
                            Err(
                                cat5(
                                    "peripheral `",
                                    name,
                                    "`: attr `",
                                    key,
                                    "` must be a physical value, got `",
                                ).concat(t.as_str()).concat("`"),
                            )
                        },
                    };
                },
                Ok(q) => {
                    if q.0.unit.code != d.1.code {
                        return Err(
                            cat5("peripheral `", name, "`: attr `", key, "` (declared on ").concat(
                                d.2.as_str(),
                            ).concat(") expects ").concat(d.1.quantity.as_str()).concat(
                                ", got ",
                            ).concat(q.0.unit.quantity.as_str()),
                        );
                    }
                    out.push(
                        entry(
                            key,
                            Value::Physical(q.0.duplicate(), q.1.clone(), q.2.duplicate()),
                        ),
                    );
                    assert(out.deep_view() =~= before.push(
                        (
                            ValueV::Str(key@),
                            ValueV::Physical(q.0.deep_view(), q.1@, q.2.deep_view()),
                        ),
                    ));
                },
            },
        }
        i += 1;
    }
    assert(av.take(n as int) =~= av);
    Ok(out)
}

fn make_signal_entries(signals: Vec<(String, Vec<Value>)>) -> (r: Vec<(Value, Value)>)
    ensures
        r.deep_view() == signal_entries(signals.deep_view()),
{
    let ghost sv = signals.deep_view();
    let n: usize = signals.len();
    let mut out: Vec<(Value, Value)> = Vec::new();
    let mut i: usize = 0;
    while i < n
        invariant
            n == signals@.len(),
            sv == signals.deep_view(),
            i <= n,
            out@.len() == i,
            forall|j: int| 0 <= j < i ==> (#[trigger] out@[j]).deep_view() == signal_entries(sv)[j],
        decreases n - i,
    {
        assert(sv[i as int] == (signals@[i as int].0@, signals@[i as int].1.deep_view()));
        let l = Value::List(signals[i].1.duplicate());
        proof {
            contents_are_values(l);
        }
        out.push(entry(signals[i].0.as_str(), l));
        i += 1;
    }
    assert(out.deep_view() =~= signal_entries(sv));
    out
}

/// Builds the dict of a peripheral.
pub fn make_peripheral_dict(
    name: &str,
    provides: &Vec<Value>,
    signals: Vec<(String, Vec<Value>)>,
    rebind: &str,
    attrs: &Vec<(String, Attr)>,
    unless: &Option<String>,
    pool: &Option<String>,
) -> (r: Result<Value, String>)
    ensures
        match r {
            Ok(v) => peripheral_of(
                name@,
                provides.deep_view(),
                signals.deep_view(),
                rebind@,
                attrs.deep_view(),
                unless.deep_view(),
                pool.deep_view(),
            ) == Ok::<_, Seq<char>>(v.value()),
            Err(e) => peripheral_of(
                name@,
                provides.deep_view(),
                signals.deep_view(),
                rebind@,
                attrs.deep_view(),
                unless.deep_view(),
                pool.deep_view(),
            ) == Err::<ValueV, _>(e@),
        },
{
    if !(same(rebind, "none") || same(rebind, "firmware") || same(rebind, "fixed")) {
        return Err(
            cat5(
                "peripheral `",
                name,
                "`: rebind must be one of [\"none\", \"firmware\", \"fixed\"], got `",
                rebind,
                "`",
            ),
        );
    }
    if provides.len() == 0 {
        return Err(
            cat3("peripheral `", name, "`: provides must list at least one interface type"),
        );
    }
    if let Err(e) = check_provided(name, provides, &signals) {
        return Err(e);
    }
    let declared = match declare_all(name, provides) {
        Ok(d) => d,
        Err(e) => {
            return Err(e);
        },
    };
    let pairs = match check_attrs(name, &declared, attrs) {
        Ok(p) => p,
        Err(e) => {
            return Err(e);
        },
    };
    let ghost pairs_v = pairs.deep_view();
    let ghost signals_v = signals.deep_view();
    let list = Value::List(provides.duplicate());
    let sig_dict = Value::Dict(make_signal_entries(signals));
    let attr_dict = Value::Dict(pairs);
    proof {
        contents_are_values(list);
        contents_are_values(sig_dict);
        contents_are_values(attr_dict);
    }
    let mut d: Vec<(Value, Value)> = Vec::new();
    d.push(entry("kind", text("peripheral")));
    d.push(entry("name", text(name)));
    d.push(entry("provides", list));
    d.push(entry("signals", sig_dict));
    d.push(entry("rebind", text(rebind)));
    d.push(entry("attrs", attr_dict));
    d.push(entry("unless", optional_text(unless)));
    d.push(entry("pool", optional_text(pool)));
    let v = Value::Dict(d);
    proof {
        contents_are_values(v);
        assert(d.deep_view() =~= peripheral_dict(
            name@,
            provides.deep_view(),
            signals_v,
            rebind@,
            pairs_v,
            unless.deep_view(),
            pool.deep_view(),
        )->Dict_0);
    }
    Ok(v)
}

/// The first value that is no interface type.
pub open spec fn first_non_interface(provides: Seq<ValueV>) -> Option<ValueV>
    decreases provides.len(),
{
    if provides.len() == 0 {
        None
    } else if info_of(provides[0]) is None {
        Some(provides[0])
    } else {
        first_non_interface(provides.drop_first())
    }
}

/// Takes one signal of a peripheral.
pub open spec fn normal_signal_step(name: Seq<char>) -> spec_fn(
    Seq<(Seq<char>, Seq<ValueV>)>,
    (Seq<char>, ValueV),
) -> Result<Seq<(Seq<char>, Seq<ValueV>)>, Seq<char>> {
    |out: Seq<(Seq<char>, Seq<ValueV>)>, e: (Seq<char>, ValueV)|
        match normal_candidates(name, e.0, e.1) {
            Ok(c) => Ok(out.push((e.0, c))),
            Err(e) => Err(e),
        }
}

/// What `peripheral` returns.
pub open spec fn declared_peripheral(
    name: Seq<char>,
    provides: Seq<ValueV>,
    signals: Seq<(Seq<char>, ValueV)>,
    rebind: Seq<char>,
    attrs: Seq<(Seq<char>, AttrV)>,
    unless: Option<Seq<char>>,
) -> Result<ValueV, Seq<char>> {
    match first_non_interface(provides) {
        Some(v) => Err(
            "peripheral `"@ + name + "`: provides entries must be interface types, got `"@
                + type_text(v) + "`"@,
        ),
        None => match take_all(signals, Seq::empty(), normal_signal_step(name)) {
            Err(e) => Err(e),
            Ok(normal) => peripheral_of(name, provides, normal, rebind, attrs, unless, None),
        },
    }
}

fn find_non_interface(provides: &Vec<Value>) -> (r: Option<&Value>)
    ensures
        match r {
            Some(v) => first_non_interface(provides.deep_view()) == Some(v.value()),
            None => first_non_interface(provides.deep_view()) is None,
        },
{
    let ghost all = provides.deep_view();
    let n: usize = provides.len();
    let mut i: usize = 0;
    assert(all.skip(0) =~= all);
    while i < n
        invariant
            n == provides@.len(),
            all == provides.deep_view(),
            i <= n,
            first_non_interface(all) == first_non_interface(all.skip(i as int)),
        decreases n - i,
    {
        assert(all.skip(i as int).drop_first() =~= all.skip(i + 1));
        assert(all.skip(i as int)[0] == provides@[i as int].value());
        if iface_info(&provides[i]).is_none() {
            return Some(&provides[i]);
        }
        i += 1;
    }
    None
}

/// A resource cluster: signals with their candidate pins, provided interfaces, rebind cost,
/// attributes, and the configuration axis that disables it.
pub fn peripheral(
    name: &str,
    provides: &Vec<Value>,
    signals: &Vec<(String, Value)>,
    rebind: &str,
    attrs: &Vec<(String, Attr)>,
    unless: &Option<String>,
) -> (r: Result<Value, String>)
    ensures
        match r {
            Ok(v) => declared_peripheral(
                name@,
                provides.deep_view(),
                signals.deep_view(),
                rebind@,
                attrs.deep_view(),
                unless.deep_view(),
            ) == Ok::<_, Seq<char>>(v.value()),
            Err(e) => declared_peripheral(
                name@,
                provides.deep_view(),
                signals.deep_view(),
                rebind@,
                attrs.deep_view(),
                unless.deep_view(),
            ) == Err::<ValueV, _>(e@),
        },
{
    if let Some(v) = find_non_interface(provides) {
        let t = v.get_type();
        return Err(
            cat5(
                "peripheral `",
                name,
                "`: provides entries must be interface types, got `",
                t.as_str(),
                "`",
            ),
        );
    }
    let ghost init = Seq::<(Seq<char>, Seq<ValueV>)>::empty();
    let ghost sv = signals.deep_view();
    let ghost f = normal_signal_step(name@);
    let n: usize = signals.len();
    let mut normal: Vec<(String, Vec<Value>)> = Vec::new();
    let mut i: usize = 0;
    assert(normal.deep_view() =~= init);
    while i < n
        invariant
            n == signals@.len(),
            sv == signals.deep_view(),
            f == normal_signal_step(name@),
            init == Seq::<(Seq<char>, Seq<ValueV>)>::empty(),
            first_non_interface(provides.deep_view()) is None,
            i <= n,
            take_all(sv.take(i as int), init, f) == Ok::<_, Seq<char>>(normal.deep_view()),
        decreases n - i,
    {
        let ghost before = normal.deep_view();
        proof {
            take_one_more(sv, init, f, i as int);
            if take_all(sv.take(i + 1), init, f) is Err {
                failure_stays(sv, init, f, i + 1);
            }
        }
        assert(sv[i as int] == (signals@[i as int].0@, signals@[i as int].1.value()));
        match normalize_candidates(name, signals[i].0.as_str(), &signals[i].1) {
            Ok(c) => {
                let ghost cv = c.deep_view();
                normal.push((signals[i].0.clone(), c));
                assert(normal.deep_view() =~= before.push((sv[i as int].0, cv)));
            },
            Err(e) => {
                return Err(e);
            },
        }
        i += 1;
    }
    assert(sv.take(n as int) =~= sv);
    make_peripheral_dict(name, provides, normal, rebind, attrs, unless, &None)
}

/// Takes one pin of a pool: a unit with that pin alone.
pub open spec fn unit_step(
    name: Seq<char>,
    provides: Seq<ValueV>,
    field: Seq<char>,
    rebind: Seq<char>,
) -> spec_fn(Seq<ValueV>, ValueV) -> Result<Seq<ValueV>, Seq<char>> {
    |out: Seq<ValueV>, v: ValueV|
        match candidate_dict(v) {
            None => Err(
                "pool `"@ + name + "`: pins entries must be pin() or strings, got `"@ + type_text(v)
                    + "`"@,
            ),
            Some(d) => match dict_text(d->Dict_0, "name"@) {
                None => Err("pool `"@ + name + "`: invalid pin entry"@),
                Some(pin) => match peripheral_of(
                    name + "."@ + pin,
                    provides,
                    seq![(field, seq![d])],
                    rebind,
                    Seq::empty(),
                    None,
                    Some(name),
                ) {
                    Ok(unit) => Ok(out.push(unit)),
                    Err(e) => Err(e),
                },
            },
        }
}

/// What `pool` returns.
pub open spec fn declared_pool(
    name: Seq<char>,
    provides: Seq<ValueV>,
    pins: Seq<ValueV>,
    rebind: Seq<char>,
) -> Result<ValueV, Seq<char>> {
    if provides.len() != 1 {
        Err("pool `"@ + name + "`: provides must list exactly one interface type"@)
    } else {
        match info_of(provides[0]) {
            None => Err("pool `"@ + name + "`: provides entry must be an interface type"@),
            Some(info) => match first_repeat(info.signals) {
                Some(s) => Err(repeat_text(info.name, s)),
                None => if info.signals.len() != 1 {
                    Err(
                        "pool `"@ + name
                            + "`: the provided interface must have exactly one signal, `"@
                            + info.name + "` has "@ + decimal(info.signals.len()),
                    )
                } else {
                    match take_all(
                        pins,
                        Seq::empty(),
                        unit_step(name, provides, info.signals[0], rebind),
                    ) {
                        Ok(units) => Ok(ValueV::List(units)),
                        Err(e) => Err(e),
                    }
                },
            },
        }
    }
}

/// The name that a pin dict gives.
fn pin_name(d: &Value) -> (r: Option<String>)
    requires
        d.value() is Dict,
    ensures
        r.deep_view() == dict_text(d.value()->Dict_0, "name"@),
{
    proof {
        contents_are_values(*d);
    }
    match d {
        Value::Dict(entries) => dict_get_str(entries, "name"),
        _ => None,
    }
}

/// Interchangeable single-signal units over a pin set.
pub fn pool(name: &str, provides: &Vec<Value>, pins: &Vec<Value>, rebind: &str) -> (r: Result<
    Value,
    String,
>)
    ensures
        match r {
            Ok(v) => declared_pool(name@, provides.deep_view(), pins.deep_view(), rebind@) == Ok::<
                _,
                Seq<char>,
            >(v.value()),
            Err(e) => declared_pool(name@, provides.deep_view(), pins.deep_view(), rebind@) == Err::<
                ValueV,
                _,
            >(e@),
        },
{
    if provides.len() != 1 {
        return Err(cat3("pool `", name, "`: provides must list exactly one interface type"));
    }
    let ghost pr = provides.deep_view();
    assert(pr[0] == provides@[0].value());
    let info = match iface_info(&provides[0]) {
        Some(info) => info,
        None => {
            return Err(cat3("pool `", name, "`: provides entry must be an interface type"));
        },
    };
    if let Err(e) = check_signal_names(&info) {
        return Err(e);
    }
    if info.signals.len() != 1 {
        let count = size_text(info.signals.len());
        return Err(
            cat5(
                "pool `",
                name,
                "`: the provided interface must have exactly one signal, `",
                info.name,
                "` has ",
            ).concat(count.as_str()),
        );
    }
    let field: &str = info.signals[0].as_str();
    let ghost init = Seq::<ValueV>::empty();
    let ghost pv = pins.deep_view();
    let ghost f = unit_step(name@, pr, field@, rebind@);
    assert(info.deep_view().signals[0] == field@);
    let n: usize = pins.len();
    let mut units: Vec<Value> = Vec::new();
    let mut i: usize = 0;
    assert(units.deep_view() =~= init);
    while i < n
        invariant
            n == pins@.len(),
            pr == provides.deep_view(),
            pv == pins.deep_view(),
            f == unit_step(name@, pr, field@, rebind@),
            init == Seq::<ValueV>::empty(),
            declared_pool(name@, pr, pv, rebind@) == match take_all(pv, init, f) {
                Ok(units) => Ok(ValueV::List(units)),
                Err(e) => Err(e),
            },
            i <= n,
            take_all(pv.take(i as int), init, f) == Ok::<_, Seq<char>>(units.deep_view()),
        decreases n - i,
    {
        let ghost before = units.deep_view();
        proof {
            take_one_more(pv, init, f, i as int);
            if take_all(pv.take(i + 1), init, f) is Err {
                failure_stays(pv, init, f, i + 1);
            }
        }
        assert(pv[i as int] == pins@[i as int].value());
        let d = match candidate(&pins[i]) {
            Some(d) => d,
            None => {
                let t = pins[i].get_type();
                return Err(
                    cat5(
                        "pool `",
                        name,
                        "`: pins entries must be pin() or strings, got `",
                        t.as_str(),
                        "`",
                    ),
                );
            },
        };
        let ghost dv = d.value();
        assert(dv is Dict);
        let unit_pin = match pin_name(&d) {
            Some(p) => p,
            None => {
                return Err(cat3("pool `", name, "`: invalid pin entry"));
            },
        };
        let unit_name = cat3(name, ".", unit_pin.as_str());
        let mut cands: Vec<Value> = Vec::new();
        cands.push(d);
        assert(cands.deep_view() =~= seq![dv]);
        let mut signals: Vec<(String, Vec<Value>)> = Vec::new();
        signals.push((field.to_string(), cands));
        assert(signals.deep_view() =~= seq![(field@, seq![dv])]);
        let attrs: Vec<(String, Attr)> = Vec::new();
        assert(attrs.deep_view() =~= Seq::empty());
        match make_peripheral_dict(
            unit_name.as_str(),
            provides,
            signals,
            rebind,
            &attrs,
            &None,
            &Some(name.to_string()),
        ) {
            Ok(unit) => {
                let ghost uv = unit.value();
                units.push(unit);
                assert(units.deep_view() =~= before.push(uv));
            },
            Err(e) => {
                return Err(e);
            },
        }
        i += 1;
    }
    assert(pv.take(n as int) =~= pv);
    let v = Value::List(units);
    proof {
        contents_are_values(v);
    }
    Ok(v)
}

/// What a constrained connection holds: the value, the pins and whether they are soft.
pub open spec fn pin_at_of(v: ValueV) -> Option<(ValueV, PinLockV, bool)> {
    match v {
        ValueV::At(inner, lock, soft) => Some((*inner, lock, soft)),
        _ => None,
    }
}

/// The value of a connection, without its pin constraint.
pub open spec fn connected_value(v: ValueV) -> ValueV {
    match v {
        ValueV::At(inner, _, _) => *inner,
        _ => v,
    }
}

/// What a constrained connection holds.
pub fn unpack_pin_at(v: &Value) -> (r: Option<(&Value, &PinLock, bool)>)
    ensures
        match r {
            Some(c) => pin_at_of(v.value()) == Some((c.0.value(), c.1.deep_view(), c.2)),
            None => pin_at_of(v.value()) is None,
        },
{
    match v {
        Value::At(inner, lock, soft) => Some((&**inner, lock, *soft)),
        _ => None,
    }
}

/// Constrains which physical pins a connection may use. Hard by default; a soft constraint is
/// a preference that the solver may fall back from.
pub fn at(value: Value, pins: &Value, soft: bool) -> (r: Result<Value, String>)
    ensures
        match pin_spec_of("at()"@, pins.value()) {
            Ok(lock) => r matches Ok(v) && v.value() == ValueV::At(
                Box::new(value.value()),
                lock,
                soft,
            ),
            Err(e) => r matches Err(m) && m@ == e,
        },
{
    match parse_pin_spec("at()", pins) {
        Ok(lock) => Ok(Value::At(Box::new(value), lock, soft)),
        Err(e) => Err(e),
    }
}

/// Takes the pin constraint off a connection to the input `name`: the constraint is recorded
/// where the connection carries a net, and the value flows as if passed directly.
pub fn unwrap_pin_at(
    name: &str,
    value: &Value,
    module: &str,
    owner: &Vec<String>,
    store: &mut PinConstraints,
) -> (r: Value)
    ensures
        r.value() == connected_value(value.value()),
        final(store)@ == match pin_at_of(value.value()) {
            Some(c) => if net_ids(c.0).len() > 0 {
                recorded(old(store)@, name@, module@, owner.deep_view(), net_ids(c.0), c.1, c.2)
            } else {
                old(store)@
            },
            None => old(store)@,
        },
{
    match unpack_pin_at(value) {
        Some((inner, lock, soft)) => {
            let mut nets: Vec<u64> = Vec::new();
            collect_net_ids(inner, &mut nets);
            assert(nets@ =~= net_ids(inner.value()));
            if nets.len() > 0 {
                store.record(
                    name.to_string(),
                    module.to_string(),
                    owner.duplicate(),
                    nets,
                    lock.duplicate(),
                    soft,
                );
            }
            inner.duplicate()
        },
        None => value.duplicate(),
    }
}

/// A complaint about a request declaration.
pub open spec fn declared_request_text(name: Seq<char>, what: Seq<char>) -> Seq<char> {
    "pin_request `"@ + name + "`: "@ + what
}

fn declared_request_error(name: &str, what: &str) -> (r: String)
    ensures
        r@ == declared_request_text(name@, what@),
{
    "pin_request `".to_string().concat(name).concat("`: ").concat(what)
}

/// Takes one signal that the request names.
pub open spec fn use_step(name: Seq<char>, info: InfoV) -> spec_fn(Seq<Seq<char>>, Seq<char>) -> Result<
    Seq<Seq<char>>,
    Seq<char>,
> {
    |seen: Seq<Seq<char>>, s: Seq<char>|
        if !info.signals.contains(s) {
            Err(
                declared_request_text(
                    name,
                    "`"@ + s + "` is not a signal of "@ + info.name + " (its signals are "@ + joined(
                        quoted(info.signals),
                        ", "@,
                    ) + ")"@,
                ),
            )
        } else if seen.contains(s) {
            Err(declared_request_text(name, "duplicate signal `"@ + s + "` in uses"@))
        } else {
            Ok(seen.push(s))
        }
}

/// The dict of a request.
pub open spec fn request_dict(
    name: Seq<char>,
    iface: ValueV,
    uses: Seq<Seq<char>>,
    instance: Option<Seq<char>>,
    prefer: PinLockV,
    lock: bool,
    predicate: ValueV,
    direction: Option<Seq<char>>,
    if_connected: bool,
    bind: ValueV,
) -> ValueV {
    ValueV::Dict(
        seq![
            (ValueV::Str("kind"@), ValueV::Str("request"@)),
            (ValueV::Str("name"@), ValueV::Str(name)),
            (ValueV::Str("iface"@), iface),
            (ValueV::Str("uses"@), text_values(uses)),
            (ValueV::Str("instance"@), optional(instance)),
            (ValueV::Str("prefer"@), text_values(prefer.any)),
            (ValueV::Str("prefer_by_signal"@), ValueV::Dict(bound_entries(prefer.by_signal))),
            (ValueV::Str("lock"@), ValueV::Bool(lock)),
            (ValueV::Str("where"@), predicate),
            (ValueV::Str("direction"@), optional(direction)),
            (ValueV::Str("if_connected"@), ValueV::Bool(if_connected)),
            (ValueV::Str("bind"@), bind),
        ],
    )
}

/// A list of texts.
pub open spec fn text_values(list: Seq<Seq<char>>) -> ValueV {
    ValueV::List(Seq::new(list.len(), |i: int| ValueV::Str(list[i])))
}

/// Bounds by signal as dict entries.
pub open spec fn bound_entries(by_signal: Seq<(Seq<char>, Seq<Seq<char>>)>) -> Seq<(ValueV, ValueV)> {
    Seq::new(by_signal.len(), |i: int| (ValueV::Str(by_signal[i].0), text_values(by_signal[i].1)))
}

fn make_text_values(list: &Vec<String>) -> (r: Value)
    ensures
        r.value() == text_values(list.deep_view()),
{
    let ghost lv = list.deep_view();
    let n: usize = list.len();
    let mut out: Vec<Value> = Vec::new();
    let mut i: usize = 0;
    while i < n
        invariant
            n == list@.len(),
            lv == list.deep_view(),
            i <= n,
            out@.len() == i,
            forall|j: int| 0 <= j < i ==> (#[trigger] out@[j]).value() == ValueV::Str(lv[j]),
        decreases n - i,
    {
        out.push(text(list[i].as_str()));
        i += 1;
    }
    assert(out.deep_view() =~= Seq::new(lv.len(), |i: int| ValueV::Str(lv[i])));
    let v = Value::List(out);
    proof {
        contents_are_values(v);
    }
    v
}

fn make_bound_entries(by_signal: &Vec<(String, Vec<String>)>) -> (r: Value)
    ensures
        r.value() == ValueV::Dict(bound_entries(by_signal.deep_view())),
{
    let ghost bv = by_signal.deep_view();
    let n: usize = by_signal.len();
    let mut out: Vec<(Value, Value)> = Vec::new();
    let mut i: usize = 0;
    while i < n
        invariant
            n == by_signal@.len(),
            bv == by_signal.deep_view(),
            i <= n,
            out@.len() == i,
            forall|j: int| 0 <= j < i ==> (#[trigger] out@[j]).deep_view() == bound_entries(bv)[j],
        decreases n - i,
    {
        assert(bv[i as int] == (by_signal@[i as int].0@, by_signal@[i as int].1.deep_view()));
        out.push(entry(by_signal[i].0.as_str(), make_text_values(&by_signal[i].1)));
        i += 1;
    }
    assert(out.deep_view() =~= bound_entries(bv));
    let v = Value::Dict(out);
    proof {
        contents_are_values(v);
    }
    v
}

/// The value can be bound to a request: a net or an interface instance.
pub open spec fn bindable(v: ValueV) -> bool {
    v is Net || v is Interface
}

/// A direction of a request.
pub open spec fn is_direction(d: Seq<char>) -> bool {
    d == "input"@ || d == "output"@
}

/// The pins that a request prefers, and whether they are locked: those of the bound
/// connection, else those of the request itself.
pub open spec fn request_pins(
    name: Seq<char>,
    prefer: Option<ValueV>,
    lock: bool,
    bind: Option<ValueV>,
) -> Result<(PinLockV, bool), Seq<char>> {
    let carried = match bind {
        Some(v) => pin_at_of(v),
        None => None,
    };
    match carried {
        Some(c) => Ok((c.1, !c.2)),
        None => match prefer {
            Some(v) => match pin_spec_of("pin_request `"@ + name + "`: prefer"@, v) {
                Ok(l) => Ok((l, lock)),
                Err(e) => Err(e),
            },
            None => Ok((PinLockV { any: Seq::empty(), by_signal: Seq::empty() }, lock)),
        },
    }
}

/// The request, once its interface is known.
pub open spec fn request_for(
    name: Seq<char>,
    iface: ValueV,
    info: InfoV,
    uses: Option<Seq<Seq<char>>>,
    instance: Option<Seq<char>>,
    prefer: Option<ValueV>,
    lock: bool,
    predicate: Option<ValueV>,
    direction: Option<Seq<char>>,
    if_connected: bool,
    bind: Option<ValueV>,
) -> Result<ValueV, Seq<char>> {
    if direction is Some && !is_direction(direction.unwrap()) {
        Err(declared_request_text(name, "direction must be \"input\" or \"output\""@))
    } else {
        match first_repeat(info.signals) {
            Some(s) => Err(repeat_text(info.name, s)),
            None => {
                let chosen = match uses {
                    Some(u) => take_all(u, Seq::empty(), use_step(name, info)),
                    None => Ok(info.signals),
                };
                match chosen {
                    Err(e) => Err(e),
                    Ok(used) => if used.len() == 0 {
                        Err(declared_request_text(name, "uses must name at least one signal"@))
                    } else {
                        let pins = request_pins(name, prefer, lock, bind);
                        match pins {
                            Err(e) => Err(e),
                            Ok(p) => match stray_signal(p.0, used) {
                                Some(s) => Err(
                                    stray_text("pin_request `"@ + name + "`"@, s, used),
                                ),
                                None => Ok(
                                    request_dict(
                                        name,
                                        iface,
                                        used,
                                        instance,
                                        p.0,
                                        p.1,
                                        match predicate {
                                            Some(w) => w,
                                            None => ValueV::Nothing,
                                        },
                                        direction,
                                        if_connected,
                                        match bind {
                                            Some(v) => connected_value(v),
                                            None => ValueV::Nothing,
                                        },
                                    ),
                                ),
                            },
                        }
                    },
                }
            },
        }
    }
}

/// What `pin_request` returns.
pub open spec fn declared_request(
    name: Seq<char>,
    iface: ValueV,
    uses: Option<Seq<Seq<char>>>,
    instance: Option<Seq<char>>,
    prefer: Option<ValueV>,
    lock: bool,
    predicate: Option<ValueV>,
    direction: Option<Seq<char>>,
    if_connected: bool,
    bind: Option<ValueV>,
) -> Result<ValueV, Seq<char>> {
    if bind is Some && !bindable(connected_value(bind.unwrap())) {
        Err(
            declared_request_text(
                name,
                "bind must be a Net or interface instance (optionally wrapped in at()), got `"@
                    + type_text(connected_value(bind.unwrap())) + "`"@,
            ),
        )
    } else {
        match info_of(iface) {
            None => Err(
                declared_request_text(
                    name,
                    "expected an interface type, got `"@ + type_text(iface) + "`"@,
                ),
            ),
            Some(info) => request_for(
                name,
                iface,
                info,
                uses,
                instance,
                prefer,
                lock,
                predicate,
                direction,
                if_connected,
                bind,
            ),
        }
    }
}

/// The signals that a request names, checked.
fn check_uses<'a>(name: &str, info: &IfaceInfo<'a>, uses: &Vec<String>) -> (r: Result<
    Vec<String>,
    String,
>)
    ensures
        match r {
            Ok(u) => take_all(uses.deep_view(), Seq::empty(), use_step(name@, info.deep_view())) == Ok::<
                _,
                Seq<char>,
            >(u.deep_view()),
            Err(e) => take_all(uses.deep_view(), Seq::empty(), use_step(name@, info.deep_view()))
                == Err::<Seq<Seq<char>>, _>(e@),
        },
{
    let ghost init = Seq::<Seq<char>>::empty();
    let ghost uv = uses.deep_view();
    let ghost iv = info.deep_view();
    let ghost f = use_step(name@, iv);
    let n: usize = uses.len();
    let mut seen: Vec<String> = Vec::new();
    let mut i: usize = 0;
    assert(seen.deep_view() =~= init);
    while i < n
        invariant
            n == uses@.len(),
            uv == uses.deep_view(),
            iv == info.deep_view(),
            f == use_step(name@, iv),
            init == Seq::<Seq<char>>::empty(),
            i <= n,
            take_all(uv.take(i as int), init, f) == Ok::<_, Seq<char>>(seen.deep_view()),
        decreases n - i,
    {
        let ghost before = seen.deep_view();
        proof {
            take_one_more(uv, init, f, i as int);
            if take_all(uv.take(i + 1), init, f) is Err {
                failure_stays(uv, init, f, i + 1);
            }
        }
        assert(uv[i as int] == uses@[i as int]@);
        let s: &str = uses[i].as_str();
        if !holds(&info.signals, s) {
            let list = quote_all(&info.signals);
            let what = cat5("`", s, "` is not a signal of ", info.name, " (its signals are ").concat(
                list.as_str(),
            ).concat(")");
            return Err(declared_request_error(name, what.as_str()));
        }
        if holds(&seen, s) {
            let what = cat3("duplicate signal `", s, "` in uses");
            return Err(declared_request_error(name, what.as_str()));
        }
        seen.push(s.to_string());
        assert(seen.deep_view() =~= before.push(uv[i as int]));
        i += 1;
    }
    assert(uv.take(n as int) =~= uv);
    Ok(seen)
}

/// The pins that a request prefers, and whether they are locked.
fn find_request_pins(
    name: &str,
    prefer: &Option<Value>,
    lock: bool,
    bind: &Option<Value>,
) -> (r: Result<(PinLock, bool), String>)
    ensures
        match r {
            Ok(p) => request_pins(name@, prefer.deep_view(), lock, bind.deep_view()) == Ok::<
                _,
                Seq<char>,
            >((p.0.deep_view(), p.1)),
            Err(e) => request_pins(name@, prefer.deep_view(), lock, bind.deep_view()) == Err::<
                (PinLockV, bool),
                _,
            >(e@),
        },
{
    if let Some(v) = bind {
        if let Some((_, pins, soft)) = unpack_pin_at(v) {
            return Ok((pins.duplicate(), !soft));
        }
    }
    match prefer {
        Some(v) => {
            let ctx = cat3("pin_request `", name, "`: prefer");
            match parse_pin_spec(ctx.as_str(), v) {
                Ok(l) => Ok((l, lock)),
                Err(e) => Err(e),
            }
        },
        None => {
            let none = PinLock { any: Vec::new(), by_signal: Vec::new() };
            assert(none.deep_view() =~= (PinLockV { any: Seq::empty(), by_signal: Seq::empty() }));
            Ok((none, lock))
        },
    }
}

/// Builds the dict of a request.
fn make_request_dict(
    name: &str,
    iface: &Value,
    used: &Vec<String>,
    instance: &Option<String>,
    pref: &PinLock,
    held: bool,
    predicate: &Option<Value>,
    direction: &Option<String>,
    if_connected: bool,
    bound: Option<&Value>,
) -> (r: Value)
    ensures
        r.value() == request_dict(
            name@,
            iface.value(),
            used.deep_view(),
            instance.deep_view(),
            pref.deep_view(),
            held,
            match predicate.deep_view() {
                Some(w) => w,
                None => ValueV::Nothing,
            },
            direction.deep_view(),
            if_connected,
            match bound {
                Some(b) => b.value(),
                None => ValueV::Nothing,
            },
        ),
{
    let predicate_value = match predicate {
        Some(w) => w.duplicate(),
        None => Value::Nothing,
    };
    let bound_value = match bound {
        Some(b) => b.duplicate(),
        None => Value::Nothing,
    };
    let mut d: Vec<(Value, Value)> = Vec::new();
    d.push(entry("kind", text("request")));
    d.push(entry("name", text(name)));
    d.push(entry("iface", iface.duplicate()));
    d.push(entry("uses", make_text_values(used)));
    d.push(entry("instance", optional_text(instance)));
    d.push(entry("prefer", make_text_values(&pref.any)));
    d.push(entry("prefer_by_signal", make_bound_entries(&pref.by_signal)));
    d.push(entry("lock", Value::Bool(held)));
    d.push(entry("where", predicate_value));
    d.push(entry("direction", optional_text(direction)));
    d.push(entry("if_connected", Value::Bool(if_connected)));
    d.push(entry("bind", bound_value));
    let v = Value::Dict(d);
    proof {
        contents_are_values(v);
        assert(d.deep_view() =~= request_dict(
            name@,
            iface.value(),
            used.deep_view(),
            instance.deep_view(),
            pref.deep_view(),
            held,
            predicate_value.value(),
            direction.deep_view(),
            if_connected,
            bound_value.value(),
        )->Dict_0);
    }
    v
}

/// A capability demand: the interface type is the request. Only the signals in use consume
/// pins. A constraint on the bound connection overrides the request's own preference.
pub fn pin_request(
    name: &str,
    iface: &Value,
    uses: &Option<Vec<String>>,
    instance: &Option<String>,
    prefer: &Option<Value>,
    lock: bool,
    predicate: &Option<Value>,
    direction: &Option<String>,
    if_connected: bool,
    bind: &Option<Value>,
) -> (r: Result<Value, String>)
    ensures
        match r {
            Ok(v) => declared_request(
                name@,
                iface.value(),
                uses.deep_view(),
                instance.deep_view(),
                prefer.deep_view(),
                lock,
                predicate.deep_view(),
                direction.deep_view(),
                if_connected,
                bind.deep_view(),
            ) == Ok::<_, Seq<char>>(v.value()),
            Err(e) => declared_request(
                name@,
                iface.value(),
                uses.deep_view(),
                instance.deep_view(),
                prefer.deep_view(),
                lock,
                predicate.deep_view(),
                direction.deep_view(),
                if_connected,
                bind.deep_view(),
            ) == Err::<ValueV, _>(e@),
        },
{
    let bound: Option<&Value> = match bind {
        Some(v) => match unpack_pin_at(v) {
            Some((inner, _, _)) => Some(inner),
            None => Some(v),
        },
        None => None,
    };
    assert(match bind {
        Some(v) => bound matches Some(b) && b.value() == connected_value(v.value()),
        None => bound is None,
    });
    if let Some(b) = bound {
        let fine = match b {
            Value::Net(_, _, _) => true,
            Value::Interface(_, _) => true,
            _ => false,
        };
        if !fine {
            let t = b.get_type();
            let what = cat3(
                "bind must be a Net or interface instance (optionally wrapped in at()), got `",
                t.as_str(),
                "`",
            );
            return Err(declared_request_error(name, what.as_str()));
        }
    }
    let info = match iface_info(iface) {
        Some(info) => info,
        None => {
            let t = iface.get_type();
            let what = cat3("expected an interface type, got `", t.as_str(), "`");
            return Err(declared_request_error(name, what.as_str()));
        },
    };
    if let Some(d) = direction {
        if !same(d.as_str(), "input") && !same(d.as_str(), "output") {
            return Err(
                declared_request_error(name, "direction must be \"input\" or \"output\""),
            );
        }
    }
    if let Err(e) = check_signal_names(&info) {
        return Err(e);
    }
    let used: Vec<String> = match uses {
        Some(u) => match check_uses(name, &info, u) {
            Ok(list) => list,
            Err(e) => {
                return Err(e);
            },
        },
        None => info.signals.duplicate(),
    };
    if used.len() == 0 {
        return Err(declared_request_error(name, "uses must name at least one signal"));
    }
    let (pref, held): (PinLock, bool) = match find_request_pins(name, prefer, lock, bind) {
        Ok(p) => p,
        Err(e) => {
            return Err(e);
        },
    };
    let ctx = cat3("pin_request `", name, "`");
    if let Err(e) = pref.check_signals(ctx.as_str(), &used) {
        return Err(e);
    }
    Ok(
        make_request_dict(
            name,
            iface,
            &used,
            instance,
            &pref,
            held,
            predicate,
            direction,
            if_connected,
            bound,
        ),
    )
}

} // verus!
