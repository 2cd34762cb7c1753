//! From a solved assignment to the nets of the physical pins.
use vstd::prelude::*;

use crate::order::{in_order, sorted};
use crate::pinmux::access::{contents_are_values, dict_find, dict_get, dict_get_str, dict_text};
use crate::pinmux::declare::{connected_value, unpack_pin_at};
use crate::pinmux::iface::{leaf_values, net_leaves, net_leaves_of, paths};
use crate::pinmux::value::{Value, ValueV};
use crate::text::{cat3, cat5, holds, join, joined, quote_all, quoted, same};

verus! {

/// The nets that the module's physical pins are mapped to so far: pin, net identity and name.
pub type MappedV = Seq<(Seq<char>, u64, Seq<char>)>;

/// The net that a pin is mapped to.
pub open spec fn mapped_net(mapped: MappedV, pin: Seq<char>) -> Option<(u64, Seq<char>)>
    decreases mapped.len(),
{
    if mapped.len() == 0 {
        None
    } else if mapped.last().0 == pin {
        Some((mapped.last().1, mapped.last().2))
    } else {
        mapped_net(mapped.drop_last(), pin)
    }
}

/// What the mapping has come to: pins with their nets, and the module's record.
#[verifier::ext_equal]
pub struct MapV {
    pub out: Seq<(Seq<char>, ValueV)>,
    pub mapped: MappedV,
}

/// The pins mapped by this call.
pub open spec fn mapped_pins(out: Seq<(Seq<char>, ValueV)>) -> Seq<Seq<char>> {
    Seq::new(out.len(), |i: int| out[i].0)
}

/// The leaf of the given path.
pub open spec fn leaf_for(found: Seq<(Seq<char>, ValueV)>, path: Seq<char>) -> Option<ValueV>
    decreases found.len(),
{
    if found.len() == 0 {
        None
    } else if found[0].0 == path {
        Some(found[0].1)
    } else {
        leaf_for(found.drop_first(), path)
    }
}

/// What an interface value carries, in words.
pub open spec fn carried_text(found: Seq<(Seq<char>, ValueV)>) -> Seq<char> {
    if found.len() == 0 {
        "it carries no signal"@
    } else {
        "it carries "@ + joined(quoted(paths(found)), ", "@)
    }
}

/// The net for a signal: the leaf of that path, or the bare net of a single-signal request.
pub open spec fn net_for(req: Seq<char>, v: ValueV, sig: Seq<char>, count: nat) -> Result<
    ValueV,
    Seq<char>,
> {
    match leaf_for(net_leaves_of(v), sig) {
        Some(n) => Ok(n),
        None => if count == 1 && v is Net {
            Ok(v)
        } else {
            Err(
                "pin_map: request `"@ + req + "`: no signal `"@ + sig
                    + "` on the provided value — "@ + carried_text(net_leaves_of(v))
                    + " (pass the io()/interface instance, or a bare Net for single-signal requests)"@,
            )
        },
    }
}

/// The text of a key; empty for a key that is no text.
pub open spec fn key_or_empty(k: ValueV) -> Seq<char> {
    match k {
        ValueV::Str(s) => s,
        _ => Seq::empty(),
    }
}

/// The pin that the entry of a signal names.
pub open spec fn entry_pin(v: ValueV) -> Option<Seq<char>> {
    match v {
        ValueV::Dict(d) => dict_text(d, "pin"@),
        _ => None,
    }
}

/// Maps the pin of one signal. A failure keeps what was recorded before it.
pub open spec fn map_signal(
    s: MapV,
    req: Seq<char>,
    v: ValueV,
    count: nat,
    e: (ValueV, ValueV),
) -> (MapV, Option<Seq<char>>) {
    let sig = key_or_empty(e.0);
    match entry_pin(e.1) {
        None => (
            s,
            Some("pin_map: malformed assignment entry for `"@ + req + "`/`"@ + sig + "`"@),
        ),
        Some(pin) => match net_for(req, v, sig, count) {
            Err(e) => (s, Some(e)),
            Ok(net) => if mapped_pins(s.out).contains(pin) {
                (s, Some("pin_map: physical pin `"@ + pin + "` mapped by two requests"@))
            } else {
                match net {
                    ValueV::Net(id, name, _) => match mapped_net(s.mapped, pin) {
                        Some(prev) => if prev.0 != id {
                            (
                                s,
                                Some(
                                    "pin_map: physical pin `"@ + pin + "` already mapped to net `"@
                                        + prev.1 + "` in this module, now `"@ + name
                                        + "` — map the result of the last pin_solve for each request"@,
                                ),
                            )
                        } else {
                            (
                                MapV {
                                    out: s.out.push((pin, net)),
                                    mapped: s.mapped.push((pin, id, name)),
                                },
                                None,
                            )
                        },
                        None => (
                            MapV {
                                out: s.out.push((pin, net)),
                                mapped: s.mapped.push((pin, id, name)),
                            },
                            None,
                        ),
                    },
                    _ => (MapV { out: s.out.push((pin, net)), ..s }, None),
                }
            },
        },
    }
}

/// Maps the pins of the signals in order, up to the first failure.
pub open spec fn map_signals(
    s: MapV,
    req: Seq<char>,
    v: ValueV,
    count: nat,
    entries: Seq<(ValueV, ValueV)>,
) -> (MapV, Option<Seq<char>>)
    decreases entries.len(),
{
    if entries.len() == 0 {
        (s, None)
    } else {
        let (t, failed) = map_signals(s, req, v, count, entries.drop_last());
        if failed is Some {
            (t, failed)
        } else {
            map_signal(t, req, v, count, entries.last())
        }
    }
}

/// Maps the pins of one request; a request that is not in the assignment is skipped.
pub open spec fn map_request(
    s: MapV,
    assignment: Seq<(ValueV, ValueV)>,
    iface: (Seq<char>, ValueV),
) -> (MapV, Option<Seq<char>>) {
    match dict_find(assignment, iface.0) {
        None => (s, None),
        Some(entry) => match signals_in(entry) {
            None => (s, Some("pin_map: malformed assignment entry for `"@ + iface.0 + "`"@)),
            Some(sigs) => map_signals(
                s,
                iface.0,
                connected_value(iface.1),
                sigs.len(),
                sigs,
            ),
        },
    }
}

/// The signals that the entry of a request lists.
pub open spec fn signals_in(entry: ValueV) -> Option<Seq<(ValueV, ValueV)>> {
    match entry {
        ValueV::Dict(ed) => match dict_find(ed, "signals"@) {
            Some(ValueV::Dict(sigs)) => Some(sigs),
            _ => None,
        },
        _ => None,
    }
}

/// Maps the pins of the requests in order, up to the first failure.
pub open spec fn map_requests(
    s: MapV,
    assignment: Seq<(ValueV, ValueV)>,
    ifaces: Seq<(Seq<char>, ValueV)>,
) -> (MapV, Option<Seq<char>>)
    decreases ifaces.len(),
{
    if ifaces.len() == 0 {
        (s, None)
    } else {
        let (t, failed) = map_requests(s, assignment, ifaces.drop_last());
        if failed is Some {
            (t, failed)
        } else {
            map_request(t, assignment, ifaces.last())
        }
    }
}

/// The names of the interfaces given.
pub open spec fn iface_names(ifaces: Seq<(Seq<char>, ValueV)>) -> Seq<Seq<char>> {
    Seq::new(ifaces.len(), |i: int| ifaces[i].0)
}

/// The requests of the assignment for which no interface was given.
pub open spec fn unmapped(assignment: Seq<(ValueV, ValueV)>, given: Seq<Seq<char>>) -> Seq<Seq<char>>
    decreases assignment.len(),
{
    if assignment.len() == 0 {
        Seq::empty()
    } else {
        let front = unmapped(assignment.drop_last(), given);
        match assignment.last().0 {
            ValueV::Str(k) => if given.contains(k) {
                front
            } else {
                front.push(k)
            },
            _ => front,
        }
    }
}

/// The warning about requests that were not mapped.
pub open spec fn unmapped_warning(
    assignment: Seq<(ValueV, ValueV)>,
    given: Seq<Seq<char>>,
) -> Option<Seq<char>> {
    let left = unmapped(assignment, given);
    if left.len() == 0 {
        None
    } else {
        Some(
            "pin_map: solved request(s) `"@ + joined(sorted::<String>(left), "`, `"@)
                + "` are absent from the ifaces dict; their pins are in no Component(pins=...) and not in free_pins either"@,
        )
    }
}

fn find_mapped(mapped: &Vec<(String, u64, String)>, pin: &str) -> (r: Option<(u64, String)>)
    ensures
        match r {
            Some(n) => mapped_net(mapped.deep_view(), pin@) == Some((n.0, n.1@)),
            None => mapped_net(mapped.deep_view(), pin@) is None,
        },
{
    let ghost mv = mapped.deep_view();
    let mut i: usize = mapped.len();
    assert(mv.take(i as int) =~= mv);
    while i > 0
        invariant
            mv == mapped.deep_view(),
            i <= mapped@.len(),
            mapped_net(mv, pin@) == mapped_net(mv.take(i as int), pin@),
        decreases i,
    {
        assert(mv.take(i as int).drop_last() =~= mv.take(i - 1));
        i -= 1;
        assert(mv[i as int] == mapped@[i as int].deep_view());
        if same(mapped[i].0.as_str(), pin) {
            return Some((mapped[i].1, mapped[i].2.clone()));
        }
    }
    None
}

fn has_pin(out: &Vec<(String, Value)>, pin: &str) -> (r: bool)
    ensures
        r == mapped_pins(out.deep_view()).contains(pin@),
{
    let ghost pins = mapped_pins(out.deep_view());
    let n: usize = out.len();
    let mut i: usize = 0;
    while i < n
        invariant
            n == out@.len(),
            pins == mapped_pins(out.deep_view()),
            i <= n,
            forall|j: int| 0 <= j < i ==> pins[j] != pin@,
        decreases n - i,
    {
        assert(pins[i as int] == out@[i as int].0@);
        if same(out[i].0.as_str(), pin) {
            return true;
        }
        i += 1;
    }
    false
}

fn find_leaf<'a>(found: &Vec<(String, &'a Value)>, path: &str) -> (r: Option<&'a Value>)
    ensures
        match r {
            Some(v) => leaf_for(leaf_values(found@), path@) == Some(v.value()),
            None => leaf_for(leaf_values(found@), path@) is None,
        },
{
    let ghost all = leaf_values(found@);
    let n: usize = found.len();
    let mut i: usize = 0;
    assert(all.skip(0) =~= all);
    while i < n
        invariant
            n == found@.len(),
            all == leaf_values(found@),
            i <= n,
            leaf_for(all, path@) == leaf_for(all.skip(i as int), path@),
        decreases n - i,
    {
        assert(all.skip(i as int).drop_first() =~= all.skip(i + 1));
        assert(all.skip(i as int)[0] == (found@[i as int].0@, found@[i as int].1.value()));
        if same(found[i].0.as_str(), path) {
            return Some(found[i].1);
        }
        i += 1;
    }
    None
}

fn describe_carried(found: &Vec<(String, &Value)>) -> (r: String)
    ensures
        r@ == carried_text(leaf_values(found@)),
{
    if found.len() == 0 {
        return "it carries no signal".to_string();
    }
    let n: usize = found.len();
    let mut names: Vec<String> = Vec::new();
    let mut i: usize = 0;
    while i < n
        invariant
            n == found@.len(),
            i <= n,
            names@.len() == i,
            forall|j: int| 0 <= j < i ==> (#[trigger] names@[j])@ == found@[j].0@,
        decreases n - i,
    {
        names.push(found[i].0.clone());
        i += 1;
    }
    assert(names.deep_view() =~= paths(leaf_values(found@)));
    let list = quote_all(&names);
    "it carries ".to_string().concat(list.as_str())
}

/// The net for a signal.
fn find_net<'a>(
    req: &str,
    v: &'a Value,
    found: &Vec<(String, &'a Value)>,
    sig: &str,
    count: usize,
) -> (r: Result<&'a Value, String>)
    requires
        leaf_values(found@) == net_leaves_of(v.value()),
    ensures
        match r {
            Ok(n) => net_for(req@, v.value(), sig@, count as nat) == Ok::<_, Seq<char>>(n.value()),
            Err(e) => net_for(req@, v.value(), sig@, count as nat) == Err::<ValueV, _>(e@),
        },
{
    if let Some(n) = find_leaf(found, sig) {
        return Ok(n);
    }
    let bare = match v {
        Value::Net(_, _, _) => true,
        _ => false,
    };
    if count == 1 && bare {
        return Ok(v);
    }
    let carried = describe_carried(found);
    Err(
        cat5("pin_map: request `", req, "`: no signal `", sig, "` on the provided value — ").concat(
            carried.as_str(),
        ).concat(" (pass the io()/interface instance, or a bare Net for single-signal requests)"),
    )
}

/// Maps the pin of one signal.
fn take_signal(
    req: &str,
    v: &Value,
    found: &Vec<(String, &Value)>,
    count: usize,
    e: &(Value, Value),
    out: &mut Vec<(String, Value)>,
    mapped: &mut Vec<(String, u64, String)>,
) -> (r: Option<String>)
    requires
        leaf_values(found@) == net_leaves_of(v.value()),
    ensures
        ({
            let want = map_signal(
                MapV { out: old(out).deep_view(), mapped: old(mapped).deep_view() },
                req@,
                v.value(),
                count as nat,
                e.deep_view(),
            );
            &&& final(out).deep_view() == want.0.out
            &&& final(mapped).deep_view() == want.0.mapped
            &&& r.deep_view() == want.1
        }),
{
    proof {
        contents_are_values(e.1);
    }
    let sig: String = match &e.0 {
        Value::Str(s) => s.clone(),
        _ => String::new(),
    };
    assert(sig@ =~= key_or_empty(e.0.value()));
    let pin: Option<String> = match &e.1 {
        Value::Dict(d) => dict_get_str(d, "pin"),
        _ => None,
    };
    let pin = match pin {
        Some(p) => p,
        None => {
            return Some(
                cat5("pin_map: malformed assignment entry for `", req, "`/`", sig.as_str(), "`"),
            );
        },
    };
    let net = match find_net(req, v, found, sig.as_str(), count) {
        Ok(n) => n,
        Err(e) => {
            return Some(e);
        },
    };
    if has_pin(out, pin.as_str()) {
        return Some(cat3("pin_map: physical pin `", pin.as_str(), "` mapped by two requests"));
    }
    let ghost o0 = out.deep_view();
    let ghost m0 = mapped.deep_view();
    if let Value::Net(id, name, _) = net {
        if let Some(prev) = find_mapped(mapped, pin.as_str()) {
            if prev.0 != *id {
                return Some(
                    cat5(
                        "pin_map: physical pin `",
                        pin.as_str(),
                        "` already mapped to net `",
                        prev.1.as_str(),
                        "` in this module, now `",
                    ).concat(name.as_str()).concat(
                        "` — map the result of the last pin_solve for each request",
                    ),
                );
            }
        }
        mapped.push((pin.clone(), *id, name.clone()));
        assert(mapped.deep_view() =~= m0.push((pin@, *id, name@)));
    }
    let ghost pv = pin@;
    out.push((pin, net.copy()));
    assert(out.deep_view() =~= o0.push((pv, net.value())));
    None
}

proof fn signal_failure_stays(
    s: MapV,
    req: Seq<char>,
    v: ValueV,
    count: nat,
    entries: Seq<(ValueV, ValueV)>,
    k: int,
)
    requires
        0 <= k <= entries.len(),
        map_signals(s, req, v, count, entries.take(k)).1 is Some,
    ensures
        map_signals(s, req, v, count, entries) == map_signals(s, req, v, count, entries.take(k)),
    decreases entries.len() - k,
{
    if k < entries.len() {
        assert(entries.take(k + 1).drop_last() =~= entries.take(k));
        signal_failure_stays(s, req, v, count, entries, k + 1);
    } else {
        assert(entries.take(k) =~= entries);
    }
}

/// Maps the pins of the signals.
fn take_signals(
    req: &str,
    v: &Value,
    sigs: &Vec<(Value, Value)>,
    out: &mut Vec<(String, Value)>,
    mapped: &mut Vec<(String, u64, String)>,
) -> (r: Option<String>)
    ensures
        ({
            let want = map_signals(
                MapV { out: old(out).deep_view(), mapped: old(mapped).deep_view() },
                req@,
                v.value(),
                sigs@.len(),
                sigs.deep_view(),
            );
            &&& final(out).deep_view() == want.0.out
            &&& final(mapped).deep_view() == want.0.mapped
            &&& r.deep_view() == want.1
        }),
{
    let ghost begin = MapV { out: out.deep_view(), mapped: mapped.deep_view() };
    let ghost sv = sigs.deep_view();
    let found = net_leaves(v);
    let n: usize = sigs.len();
    let mut i: usize = 0;
    while i < n
        invariant
            n == sigs@.len(),
            sv == sigs.deep_view(),
            leaf_values(found@) == net_leaves_of(v.value()),
            begin == (MapV { out: old(out).deep_view(), mapped: old(mapped).deep_view() }),
            i <= n,
            map_signals(begin, req@, v.value(), n as nat, sv.take(i as int)) == (
                MapV { out: out.deep_view(), mapped: mapped.deep_view() },
                None::<Seq<char>>,
            ),
        decreases n - i,
    {
        assert(sv.take(i + 1).drop_last() =~= sv.take(i as int));
        assert(sv[i as int] == sigs@[i as int].deep_view());
        if let Some(e) = take_signal(req, v, &found, n, &sigs[i], out, mapped) {
            proof {
                signal_failure_stays(begin, req@, v.value(), n as nat, sv, i + 1);
            }
            return Some(e);
        }
        i += 1;
    }
    assert(sv.take(n as int) =~= sv);
    None
}

proof fn request_failure_stays(
    s: MapV,
    assignment: Seq<(ValueV, ValueV)>,
    ifaces: Seq<(Seq<char>, ValueV)>,
    k: int,
)
    requires
        0 <= k <= ifaces.len(),
        map_requests(s, assignment, ifaces.take(k)).1 is Some,
    ensures
        map_requests(s, assignment, ifaces) == map_requests(s, assignment, ifaces.take(k)),
    decreases ifaces.len() - k,
{
    if k < ifaces.len() {
        assert(ifaces.take(k + 1).drop_last() =~= ifaces.take(k));
        request_failure_stays(s, assignment, ifaces, k + 1);
    } else {
        assert(ifaces.take(k) =~= ifaces);
    }
}

fn find_unmapped(assignment: &Vec<(Value, Value)>, ifaces: &Vec<(String, Value)>) -> (r: Vec<String>)
    ensures
        r.deep_view() == unmapped(assignment.deep_view(), iface_names(ifaces.deep_view())),
{
    let ghost av = assignment.deep_view();
    let ghost given = iface_names(ifaces.deep_view());
    let mut names: Vec<String> = Vec::new();
    let m: usize = ifaces.len();
    let mut k: usize = 0;
    while k < m
        invariant
            m == ifaces@.len(),
            k <= m,
            names@.len() == k,
            forall|j: int| 0 <= j < k ==> (#[trigger] names@[j])@ == ifaces@[j].0@,
        decreases m - k,
    {
        names.push(ifaces[k].0.clone());
        k += 1;
    }
    assert(names.deep_view() =~= given);
    let n: usize = assignment.len();
    let mut out: Vec<String> = Vec::new();
    let mut i: usize = 0;
    assert(out.deep_view() =~= Seq::empty());
    while i < n
        invariant
            n == assignment@.len(),
            av == assignment.deep_view(),
            names.deep_view() == given,
            i <= n,
            out.deep_view() == unmapped(av.take(i as int), given),
        decreases n - i,
    {
        let ghost before = out.deep_view();
        assert(av.take(i + 1).drop_last() =~= av.take(i as int));
        assert(av[i as int] == assignment@[i as int].deep_view());
        if let Value::Str(s) = &assignment[i].0 {
            if !holds(&names, s.as_str()) {
                out.push(s.clone());
                assert(out.deep_view() =~= before.push(s@));
            }
        }
        i += 1;
    }
    assert(av.take(n as int) =~= av);
    out
}

/// Turns a solved assignment into physical pins with the nets of the matching interface
/// fields. `mapped` is the module's record of the pins mapped so far. Requests that are not in
/// the assignment are skipped; those for which no interface is given are warned about.
pub fn pin_map(
    assignment: &Value,
    ifaces: &Vec<(String, Value)>,
    mapped: &mut Vec<(String, u64, String)>,
) -> (r: Result<(Vec<(String, Value)>, Option<String>), String>)
    ensures
        match assignment.value() {
            ValueV::Dict(ad) => {
                let want = map_requests(
                    MapV { out: Seq::empty(), mapped: old(mapped).deep_view() },
                    ad,
                    ifaces.deep_view(),
                );
                &&& final(mapped).deep_view() == want.0.mapped
                &&& match want.1 {
                    Some(e) => r matches Err(m) && m@ == e,
                    None => r matches Ok(o) && o.0.deep_view() == want.0.out && o.1.deep_view()
                        == unmapped_warning(ad, iface_names(ifaces.deep_view())),
                }
            },
            _ => {
                &&& final(mapped).deep_view() == old(mapped).deep_view()
                &&& r matches Err(m) && m@
                    == "pin_map: first argument must be the `assignment` dict from pin_solve"@
            },
        },
{
    proof {
        contents_are_values(*assignment);
    }
    let ad = match assignment {
        Value::Dict(d) => d,
        _ => {
            return Err(
                "pin_map: first argument must be the `assignment` dict from pin_solve".to_string(),
            );
        },
    };
    let ghost av = ad.deep_view();
    let ghost iv = ifaces.deep_view();
    let mut out: Vec<(String, Value)> = Vec::new();
    assert(out.deep_view() =~= Seq::empty());
    let ghost begin = MapV { out: Seq::empty(), mapped: mapped.deep_view() };
    let n: usize = ifaces.len();
    let mut i: usize = 0;
    while i < n
        invariant
            n == ifaces@.len(),
            av == ad.deep_view(),
            assignment.value() == ValueV::Dict(av),
            iv == ifaces.deep_view(),
            begin == (MapV { out: Seq::empty(), mapped: old(mapped).deep_view() }),
            i <= n,
            map_requests(begin, av, iv.take(i as int)) == (
                MapV { out: out.deep_view(), mapped: mapped.deep_view() },
                None::<Seq<char>>,
            ),
        decreases n - i,
    {
        assert(iv.take(i + 1).drop_last() =~= iv.take(i as int));
        assert(iv[i as int] == (ifaces@[i as int].0@, ifaces@[i as int].1.value()));
        let req = ifaces[i].0.as_str();
        let v: &Value = match unpack_pin_at(&ifaces[i].1) {
            Some((inner, _, _)) => inner,
            None => &ifaces[i].1,
        };
        assert(v.value() == connected_value(iv[i as int].1));
        if let Some(entry) = dict_get(ad, req) {
            proof {
                contents_are_values(*entry);
            }
            let mut sigs: Option<&Vec<(Value, Value)>> = None;
            if let Value::Dict(ed) = entry {
                if let Some(sv) = dict_get(ed, "signals") {
                    proof {
                        contents_are_values(*sv);
                    }
                    if let Value::Dict(list) = sv {
                        sigs = Some(list);
                    }
                }
            }
            match sigs {
                None => {
                    proof {
                        request_failure_stays(begin, av, iv, i + 1);
                    }
                    return Err(cat3("pin_map: malformed assignment entry for `", req, "`"));
                },
                Some(list) => {
                    if let Some(e) = take_signals(req, v, list, &mut out, mapped) {
                        proof {
                            request_failure_stays(begin, av, iv, i + 1);
                        }
                        return Err(e);
                    }
                },
            }
        }
        i += 1;
    }
    assert(iv.take(n as int) =~= iv);
    let left = find_unmapped(ad, ifaces);
    let warning = if left.len() == 0 {
        None
    } else {
        let list = join(&in_order(&left), "`, `");
        Some(
            cat3(
                "pin_map: solved request(s) `",
                list.as_str(),
                "` are absent from the ifaces dict; their pins are in no Component(pins=...) and not in free_pins either",
            ),
        )
    };
    Ok((out, warning))
}

} // verus!
