//! What holds of the pin model as a whole: declarations are read back as they were made, pins in
//! use are not offered again, a pin is mapped once, and merging keeps what was solved.
use vstd::prelude::*;

use crate::json::{member_find, put_is_found, put_keeps_others, JsonV};
use crate::order::sorting_keeps_items;
use crate::pinmux::access::dict_find;
use crate::pinmux::combos::signal_pins;
use crate::pinmux::declare::{
    bound_entries, candidate_dict, connected_value, declared_request, named_entries,
    peripheral_dict, pin_dict, request_dict, request_pins, signal_entries, text_values, use_step,
};
use crate::pinmux::iface::{
    closure, closure_begins_with_root, info_of, repeat_means_duplicates, InfoV,
};
use crate::pinmux::merge::{kept_entry, merged_assignment};
use crate::pinmux::model::{PinLockV, RPeriphV, RPinV, RReqV};
use crate::pinmux::parse::{
    pin_data, prefer_step, provides_step, rperiph_of, rpin_of, rreq_of, signal_step, texts_in,
};
use crate::pinmux::pin_map::{
    map_requests, map_signal, map_signals, mapped_net, mapped_pins, signals_in, MapV, MappedV,
};
use crate::pinmux::report::{candidate_names, free_candidates, free_pins_of, not_in, pin_names_of};
use crate::pinmux::value::ValueV;
use crate::steps::{distinct, distinct_holds, only, only_holds, take_all};

verus! {

proof fn found_at(d: Seq<(ValueV, ValueV)>, key: Seq<char>, k: int)
    requires
        0 <= k < d.len(),
        d[k].0 == ValueV::Str(key),
        forall|i: int| 0 <= i < k ==> (#[trigger] d[i]).0 != ValueV::Str(key),
    ensures
        dict_find(d, key) == Some(d[k].1),
    decreases k,
{
    if k > 0 {
        let rest = d.drop_first();
        assert(d[0].0 != ValueV::Str(key));
        assert forall|i: int| 0 <= i < k - 1 implies (#[trigger] rest[i]).0 != ValueV::Str(key) by {
            assert(rest[i] == d[i + 1]);
        }
        found_at(rest, key, k - 1);
    }
}

/// A declared pin is read back as it was declared, its data in JSON form.
pub proof fn pins_are_read_back(
    name: Seq<char>,
    data: Seq<(Seq<char>, ValueV)>,
    cost: i32,
    input_only: bool,
    strap: bool,
    ctx: Seq<char>,
    json: Seq<(Seq<char>, JsonV)>,
)
    requires
        pin_data(ctx, named_entries(data)) == Ok::<_, Seq<char>>(json),
    ensures
        rpin_of(
            pin_dict(name, ValueV::Dict(named_entries(data)), cost as int, input_only, strap),
            ctx,
        ) == Ok::<_, Seq<char>>(RPinV { name, data: json, cost, input_only, strap }),
{
    let v = pin_dict(name, ValueV::Dict(named_entries(data)), cost as int, input_only, strap);
    let d = v->Dict_0;
    pin_fields();
    found_at(d, "kind"@, 0);
    found_at(d, "name"@, 1);
    found_at(d, "data"@, 2);
    found_at(d, "cost"@, 3);
    found_at(d, "input_only"@, 4);
    found_at(d, "strap"@, 5);
}

proof fn pin_fields()
    ensures
        "kind"@ != "name"@,
        "kind"@ != "data"@,
        "name"@ != "data"@,
        "kind"@ != "cost"@,
        "name"@ != "cost"@,
        "data"@ != "cost"@,
        "kind"@ != "input_only"@,
        "name"@ != "input_only"@,
        "data"@ != "input_only"@,
        "cost"@ != "input_only"@,
        "kind"@ != "strap"@,
        "name"@ != "strap"@,
        "data"@ != "strap"@,
        "cost"@ != "strap"@,
        "input_only"@ != "strap"@,
{
    reveal_strlit("kind");
    reveal_strlit("name");
    reveal_strlit("data");
    reveal_strlit("cost");
    reveal_strlit("input_only");
    reveal_strlit("strap");
    assert("kind"@.len() == 4 && "kind"@[0] == 'k');
    assert("name"@.len() == 4 && "name"@[0] == 'n');
    assert("data"@.len() == 4 && "data"@[0] == 'd');
    assert("cost"@.len() == 4 && "cost"@[0] == 'c');
    assert("input_only"@.len() == 10 && "input_only"@[0] == 'i');
    assert("strap"@.len() == 5 && "strap"@[0] == 's');
}

/// Naming a pin is declaring it without data, cost or restriction.
pub proof fn names_stand_for_plain_pins(s: Seq<char>, ctx: Seq<char>)
    ensures
        candidate_dict(ValueV::Str(s)) is Some,
        rpin_of(candidate_dict(ValueV::Str(s))->0, ctx) == rpin_of(ValueV::Str(s), ctx),
{
    let v = pin_dict(s, ValueV::Nothing, 0, false, false);
    let d = v->Dict_0;
    pin_fields();
    found_at(d, "kind"@, 0);
    found_at(d, "name"@, 1);
    found_at(d, "data"@, 2);
    found_at(d, "cost"@, 3);
    found_at(d, "input_only"@, 4);
    found_at(d, "strap"@, 5);
}

/// A declared peripheral is read back as it was declared, wherever its interfaces and candidates
/// are readable.
pub proof fn peripherals_are_read_back(
    name: Seq<char>,
    provides: Seq<ValueV>,
    signals: Seq<(Seq<char>, Seq<ValueV>)>,
    rebind: Seq<char>,
    attrs: Seq<(ValueV, ValueV)>,
    unless: Option<Seq<char>>,
    pool: Option<Seq<char>>,
    ids: (Seq<u64>, Seq<Seq<char>>),
    pins: Seq<(Seq<char>, Seq<RPinV>)>,
)
    requires
        take_all(provides, (Seq::empty(), Seq::empty()), provides_step()) == Ok::<_, Seq<char>>(
            ids,
        ),
        take_all(signal_entries(signals), Seq::empty(), signal_step(name)) == Ok::<_, Seq<char>>(
            pins,
        ),
    ensures
        rperiph_of(peripheral_dict(name, provides, signals, rebind, attrs, unless, pool)) == Ok::<
            _,
            Seq<char>,
        >(
            RPeriphV {
                name,
                provides_ids: ids.0,
                provides_names: ids.1,
                signals: pins,
                rebind,
                unless,
                pool,
            },
        ),
{
    let v = peripheral_dict(name, provides, signals, rebind, attrs, unless, pool);
    let d = v->Dict_0;
    reveal_strlit("kind");
    reveal_strlit("name");
    reveal_strlit("provides");
    reveal_strlit("signals");
    reveal_strlit("rebind");
    reveal_strlit("attrs");
    reveal_strlit("unless");
    reveal_strlit("pool");
    assert("kind"@.len() == 4 && "kind"@[0] == 'k');
    assert("name"@.len() == 4 && "name"@[0] == 'n');
    assert("provides"@.len() == 8 && "provides"@[0] == 'p');
    assert("signals"@.len() == 7 && "signals"@[0] == 's');
    assert("rebind"@.len() == 6 && "rebind"@[0] == 'r');
    assert("attrs"@.len() == 5 && "attrs"@[0] == 'a');
    assert("unless"@.len() == 6 && "unless"@[0] == 'u');
    assert("pool"@.len() == 4 && "pool"@[0] == 'p');
    found_at(d, "kind"@, 0);
    found_at(d, "name"@, 1);
    found_at(d, "provides"@, 2);
    found_at(d, "signals"@, 3);
    found_at(d, "rebind"@, 4);
    found_at(d, "unless"@, 6);
    found_at(d, "pool"@, 7);
}

/// The signals of a peripheral keep their names and order.
pub proof fn signals_keep_their_names(
    name: Seq<char>,
    signals: Seq<(Seq<char>, Seq<ValueV>)>,
    pins: Seq<(Seq<char>, Seq<RPinV>)>,
)
    requires
        take_all(signal_entries(signals), Seq::empty(), signal_step(name)) == Ok::<_, Seq<char>>(
            pins,
        ),
    ensures
        pins.len() == signals.len(),
        forall|i: int| 0 <= i < pins.len() ==> (#[trigger] pins[i]).0 == signals[i].0,
    decreases signals.len(),
{
    let e = signal_entries(signals);
    if signals.len() > 0 {
        assert(e.drop_last() =~= signal_entries(signals.drop_last()));
        match take_all(e.drop_last(), Seq::empty(), signal_step(name)) {
            Ok(front) => {
                signals_keep_their_names(name, signals.drop_last(), front);
                assert(pins.drop_last() =~= front);
                assert forall|i: int| 0 <= i < pins.len() implies (#[trigger] pins[i]).0
                    == signals[i].0 by {
                    if i < front.len() {
                        assert(pins[i] == front[i]);
                        assert(front[i].0 == signals.drop_last()[i].0);
                    }
                }
            },
            Err(_) => {},
        }
    }
}

proof fn texts_are_read_back(list: Seq<Seq<char>>)
    ensures
        texts_in(text_values(list)->List_0) == Some(list),
{
    let values = text_values(list)->List_0;
    assert(forall|i: int| 0 <= i < values.len() ==> (#[trigger] values[i]) is Str);
    assert(Seq::new(values.len(), |i: int| values[i]->Str_0) =~= list);
}

proof fn bounds_are_read_back(name: Seq<char>, by_signal: Seq<(Seq<char>, Seq<Seq<char>>)>)
    ensures
        take_all(bound_entries(by_signal), Seq::empty(), prefer_step(name)) == Ok::<_, Seq<char>>(
            by_signal,
        ),
    decreases by_signal.len(),
{
    let e = bound_entries(by_signal);
    if by_signal.len() > 0 {
        let front = by_signal.drop_last();
        bounds_are_read_back(name, front);
        assert(e.drop_last() =~= bound_entries(front));
        texts_are_read_back(by_signal.last().1);
        assert(e.last() == (
            ValueV::Str(by_signal.last().0),
            text_values(by_signal.last().1),
        ));
        assert(front.push(by_signal.last()) =~= by_signal);
    } else {
        assert(by_signal =~= Seq::empty());
    }
}

/// The dict of a request is read back as it was made.
pub proof fn request_dicts_are_read_back(
    name: Seq<char>,
    iface: ValueV,
    infos: Seq<InfoV>,
    uses: Seq<Seq<char>>,
    instance: Option<Seq<char>>,
    prefer: PinLockV,
    lock: bool,
    predicate: ValueV,
    direction: Option<Seq<char>>,
    if_connected: bool,
    bind: ValueV,
)
    requires
        closure(iface) == Ok::<_, Seq<char>>(infos),
        uses.len() > 0,
        uses.no_duplicates(),
    ensures
        rreq_of(
            request_dict(
                name,
                iface,
                uses,
                instance,
                prefer,
                lock,
                predicate,
                direction,
                if_connected,
                bind,
            ),
        ) == Ok::<_, Seq<char>>(
            RReqV {
                name,
                iface_id: infos[0].id,
                iface_name: infos[0].name,
                iface_closure_len: infos.len() as usize,
                uses,
                instance,
                prefer,
                lock,
                where_fn: !(predicate is Nothing),
                direction,
                if_connected,
            },
        ),
{
    let v = request_dict(
        name,
        iface,
        uses,
        instance,
        prefer,
        lock,
        predicate,
        direction,
        if_connected,
        bind,
    );
    let d = v->Dict_0;
    reveal_strlit("kind");
    reveal_strlit("name");
    reveal_strlit("iface");
    reveal_strlit("uses");
    reveal_strlit("instance");
    reveal_strlit("prefer");
    reveal_strlit("prefer_by_signal");
    reveal_strlit("lock");
    reveal_strlit("where");
    reveal_strlit("direction");
    reveal_strlit("if_connected");
    assert("kind"@.len() == 4 && "kind"@[0] == 'k');
    assert("name"@.len() == 4 && "name"@[0] == 'n');
    assert("iface"@.len() == 5 && "iface"@[0] == 'i');
    assert("uses"@.len() == 4 && "uses"@[0] == 'u');
    assert("instance"@.len() == 8 && "instance"@[0] == 'i');
    assert("prefer"@.len() == 6 && "prefer"@[0] == 'p');
    assert("prefer_by_signal"@.len() == 16 && "prefer_by_signal"@[0] == 'p');
    assert("lock"@.len() == 4 && "lock"@[0] == 'l');
    assert("where"@.len() == 5 && "where"@[0] == 'w');
    assert("direction"@.len() == 9 && "direction"@[0] == 'd');
    assert("if_connected"@.len() == 12 && "if_connected"@[0] == 'i');
    found_at(d, "kind"@, 0);
    found_at(d, "name"@, 1);
    found_at(d, "iface"@, 2);
    found_at(d, "uses"@, 3);
    found_at(d, "instance"@, 4);
    found_at(d, "prefer"@, 5);
    found_at(d, "prefer_by_signal"@, 6);
    found_at(d, "lock"@, 7);
    found_at(d, "where"@, 8);
    found_at(d, "direction"@, 9);
    found_at(d, "if_connected"@, 10);
    texts_are_read_back(uses);
    texts_are_read_back(prefer.any);
    bounds_are_read_back(name, prefer.by_signal);
    repeat_means_duplicates(uses);
}

proof fn uses_are_distinct(name: Seq<char>, info: InfoV, uses: Seq<Seq<char>>)
    ensures
        take_all(uses, Seq::empty(), use_step(name, info)) matches Ok(used) ==> used
            == uses && used.no_duplicates(),
    decreases uses.len(),
{
    if uses.len() > 0 {
        uses_are_distinct(name, info, uses.drop_last());
        match take_all(uses.drop_last(), Seq::empty(), use_step(name, info)) {
            Ok(front) => {
                if !front.contains(uses.last()) {
                    assert(front.push(uses.last()) =~= uses);
                }
            },
            Err(_) => {},
        }
    } else {
        assert(uses =~= Seq::empty());
    }
}

/// What a request declares is read back by the solver: its name, the signals that it uses, the
/// pins that it is held to, and what else it asks for.
pub proof fn requests_are_read_back(
    name: Seq<char>,
    iface: ValueV,
    infos: Seq<InfoV>,
    uses: Option<Seq<Seq<char>>>,
    instance: Option<Seq<char>>,
    prefer: Option<ValueV>,
    lock: bool,
    predicate: Option<ValueV>,
    direction: Option<Seq<char>>,
    if_connected: bool,
    bind: Option<ValueV>,
)
    requires
        declared_request(
            name,
            iface,
            uses,
            instance,
            prefer,
            lock,
            predicate,
            direction,
            if_connected,
            bind,
        ) is Ok,
        closure(iface) == Ok::<_, Seq<char>>(infos),
    ensures
        ({
            let v = declared_request(
                name,
                iface,
                uses,
                instance,
                prefer,
                lock,
                predicate,
                direction,
                if_connected,
                bind,
            )->Ok_0;
            &&& request_pins(name, prefer, lock, bind) is Ok
            &&& rreq_of(v) is Ok
            &&& rreq_of(v)->Ok_0.name == name
            &&& rreq_of(v)->Ok_0.uses == match uses {
                Some(u) => u,
                None => infos[0].signals,
            }
            &&& rreq_of(v)->Ok_0.instance == instance
            &&& request_pins(name, prefer, lock, bind)->Ok_0 == (
                rreq_of(v)->Ok_0.prefer,
                rreq_of(v)->Ok_0.lock,
            )
            &&& rreq_of(v)->Ok_0.direction == direction
            &&& rreq_of(v)->Ok_0.if_connected == if_connected
        }),
{
    let info = info_of(iface)->0;
    closure_begins_with_root(iface);
    repeat_means_duplicates(info.signals);
    match uses {
        Some(u) => {
            uses_are_distinct(name, info, u);
        },
        None => {},
    }
    let used = match uses {
        Some(u) => u,
        None => info.signals,
    };
    let pins = request_pins(name, prefer, lock, bind)->Ok_0;
    request_dicts_are_read_back(
        name,
        iface,
        infos,
        used,
        instance,
        pins.0,
        pins.1,
        match predicate {
            Some(w) => w,
            None => ValueV::Nothing,
        },
        direction,
        if_connected,
        match bind {
            Some(v) => connected_value(v),
            None => ValueV::Nothing,
        },
    );
}

/// The free pins are exactly the candidate pins that nobody uses.
pub proof fn free_pins_are_unused(periphs: Seq<RPeriphV>, used: Seq<Seq<char>>, pin: Seq<char>)
    ensures
        free_pins_of(periphs, used).contains(pin) <==> candidate_names(periphs).contains(pin)
            && !used.contains(pin),
{
    let names = candidate_names(periphs);
    let left = only(names, not_in(used));
    only_holds(names, not_in(used), pin);
    distinct_holds(left, pin);
    sorting_keeps_items::<String>(distinct(left), pin);
}

/// An alternate of a signal is one of its candidates, and nobody uses it.
pub proof fn alternates_are_unused(p: RPeriphV, sig: Seq<char>, used: Seq<Seq<char>>, pin: Seq<char>)
    ensures
        free_candidates(p, sig, used).contains(pin) <==> {
            &&& signal_pins(p.signals, sig) is Some
            &&& pin_names_of(signal_pins(p.signals, sig)->0).contains(pin)
            &&& !used.contains(pin)
        },
{
    match signal_pins(p.signals, sig) {
        Some(c) => {
            only_holds(pin_names_of(c), not_in(used), pin);
        },
        None => {},
    }
}

/// Every pin stands for one net: entries for one pin name one net.
pub open spec fn one_net_each(mapped: MappedV) -> bool {
    forall|i: int, j: int|
        0 <= i < mapped.len() && 0 <= j < mapped.len() && (#[trigger] mapped[i]).0 == (
        #[trigger] mapped[j]).0 ==> mapped[i].1 == mapped[j].1
}

proof fn mapped_net_is_exact(mapped: MappedV, pin: Seq<char>)
    ensures
        mapped_net(mapped, pin) matches Some(n) ==> exists|i: int|
            0 <= i < mapped.len() && (#[trigger] mapped[i]).0 == pin && mapped[i].1 == n.0,
        mapped_net(mapped, pin) is None ==> forall|i: int|
            0 <= i < mapped.len() ==> (#[trigger] mapped[i]).0 != pin,
    decreases mapped.len(),
{
    if mapped.len() > 0 {
        let front = mapped.drop_last();
        mapped_net_is_exact(front, pin);
        if mapped.last().0 == pin {
            assert(mapped[mapped.len() - 1] == mapped.last());
        } else if mapped_net(front, pin) is Some {
            let i = choose|i: int|
                0 <= i < front.len() && (#[trigger] front[i]).0 == pin && front[i].1 == mapped_net(
                    front,
                    pin,
                ).unwrap().0;
            assert(mapped[i] == front[i]);
        } else {
            assert forall|i: int| 0 <= i < mapped.len() implies (#[trigger] mapped[i]).0 != pin by {
                if i < front.len() {
                    assert(front[i] == mapped[i]);
                }
            }
        }
    }
}

/// A mapping is sound: no pin is mapped twice, and every pin stands for one net.
pub open spec fn is_sound_map(s: MapV) -> bool {
    mapped_pins(s.out).no_duplicates() && one_net_each(s.mapped)
}

proof fn signal_keeps_soundness(
    s: MapV,
    req: Seq<char>,
    v: ValueV,
    count: nat,
    e: (ValueV, ValueV),
)
    requires
        is_sound_map(s),
    ensures
        is_sound_map(map_signal(s, req, v, count, e).0),
{
    let t = map_signal(s, req, v, count, e).0;
    if t.out != s.out {
        let pin = t.out.last().0;
        assert(t.out == s.out.push(t.out.last()));
        assert(mapped_pins(t.out) =~= mapped_pins(s.out).push(pin));
        assert(!mapped_pins(s.out).contains(pin));
        mapped_net_is_exact(s.mapped, pin);
        if t.mapped != s.mapped {
            let last = t.mapped.last();
            assert(t.mapped == s.mapped.push(last));
            assert forall|i: int| 0 <= i < s.mapped.len() && (#[trigger] s.mapped[i]).0
                == last.0 implies s.mapped[i].1 == last.1 by {
                let n = mapped_net(s.mapped, pin);
                let k = choose|k: int|
                    0 <= k < s.mapped.len() && (#[trigger] s.mapped[k]).0 == pin && s.mapped[k].1
                        == n.unwrap().0;
                assert(s.mapped[i].1 == s.mapped[k].1);
            }
            assert forall|i: int, j: int|
                0 <= i < t.mapped.len() && 0 <= j < t.mapped.len() && (#[trigger] t.mapped[i]).0
                    == (#[trigger] t.mapped[j]).0 implies t.mapped[i].1 == t.mapped[j].1 by {
                if i < s.mapped.len() {
                    assert(t.mapped[i] == s.mapped[i]);
                }
                if j < s.mapped.len() {
                    assert(t.mapped[j] == s.mapped[j]);
                }
            }
        }
    }
}

proof fn signals_keep_soundness(
    s: MapV,
    req: Seq<char>,
    v: ValueV,
    count: nat,
    entries: Seq<(ValueV, ValueV)>,
)
    requires
        is_sound_map(s),
    ensures
        is_sound_map(map_signals(s, req, v, count, entries).0),
    decreases entries.len(),
{
    if entries.len() > 0 {
        signals_keep_soundness(s, req, v, count, entries.drop_last());
        let (t, failed) = map_signals(s, req, v, count, entries.drop_last());
        if failed is None {
            signal_keeps_soundness(t, req, v, count, entries.last());
        }
    }
}

/// Mapping the requests of a module maps no physical pin twice and leaves every pin of the module
/// with one net.
pub proof fn pins_are_mapped_once(
    s: MapV,
    assignment: Seq<(ValueV, ValueV)>,
    ifaces: Seq<(Seq<char>, ValueV)>,
)
    requires
        is_sound_map(s),
    ensures
        is_sound_map(map_requests(s, assignment, ifaces).0),
    decreases ifaces.len(),
{
    if ifaces.len() > 0 {
        pins_are_mapped_once(s, assignment, ifaces.drop_last());
        let (t, failed) = map_requests(s, assignment, ifaces.drop_last());
        if failed is None {
            match dict_find(assignment, ifaces.last().0) {
                Some(entry) => match signals_in(entry) {
                    Some(sigs) => {
                        signals_keep_soundness(
                            t,
                            ifaces.last().0,
                            connected_value(ifaces.last().1),
                            sigs.len(),
                            sigs,
                        );
                    },
                    None => {},
                },
                None => {},
            }
        }
    }
}

/// Merging with earlier solves keeps every entry of this solve as it is.
pub proof fn merging_keeps_this_solve(
    cur: Seq<(Seq<char>, JsonV)>,
    prior: Seq<(Seq<char>, JsonV)>,
    ours: Seq<Seq<char>>,
    used: Seq<Seq<char>>,
    key: Seq<char>,
)
    requires
        member_find(cur, key) is Some,
    ensures
        member_find(merged_assignment(cur, prior, ours, used), key) == member_find(cur, key),
    decreases prior.len(),
{
    if prior.len() > 0 {
        merging_keeps_this_solve(cur, prior.drop_last(), ours, used, key);
        let front = merged_assignment(cur, prior.drop_last(), ours, used);
        if member_find(front, prior.last().0) is None {
            put_keeps_others(
                front,
                prior.last().0,
                kept_entry(prior.last().1, ours, used),
                key,
            );
        }
    }
}

/// Merging with earlier solves loses no request: one that was solved before and not again is
/// still there, without the pins that are now in use among its alternates.
pub proof fn merging_loses_no_request(
    cur: Seq<(Seq<char>, JsonV)>,
    prior: Seq<(Seq<char>, JsonV)>,
    ours: Seq<Seq<char>>,
    used: Seq<Seq<char>>,
    i: int,
)
    requires
        0 <= i < prior.len(),
        member_find(cur, prior[i].0) is None,
        forall|a: int, b: int|
            0 <= a < b < prior.len() ==> (#[trigger] prior[a]).0 != (#[trigger] prior[b]).0,
    ensures
        member_find(merged_assignment(cur, prior, ours, used), prior[i].0) == Some(
            kept_entry(prior[i].1, ours, used),
        ),
    decreases prior.len(),
{
    let head = prior.drop_last();
    let front = merged_assignment(cur, head, ours, used);
    let entry = kept_entry(prior.last().1, ours, used);
    if i < prior.len() - 1 {
        merging_loses_no_request(cur, head, ours, used, i);
        assert(head[i] == prior[i]);
        if member_find(front, prior.last().0) is None {
            assert(prior[i].0 != prior[prior.len() - 1].0);
            put_keeps_others(front, prior.last().0, entry, prior[i].0);
        }
    } else {
        absent_stays_absent(cur, head, ours, used, prior[i].0);
        put_is_found(front, prior.last().0, entry);
    }
}

proof fn absent_stays_absent(
    cur: Seq<(Seq<char>, JsonV)>,
    prior: Seq<(Seq<char>, JsonV)>,
    ours: Seq<Seq<char>>,
    used: Seq<Seq<char>>,
    key: Seq<char>,
)
    requires
        member_find(cur, key) is None,
        forall|a: int| 0 <= a < prior.len() ==> (#[trigger] prior[a]).0 != key,
    ensures
        member_find(merged_assignment(cur, prior, ours, used), key) is None,
    decreases prior.len(),
{
    if prior.len() > 0 {
        let head = prior.drop_last();
        assert forall|a: int| 0 <= a < head.len() implies (#[trigger] head[a]).0 != key by {
            assert(head[a] == prior[a]);
        }
        absent_stays_absent(cur, head, ours, used, key);
        let front = merged_assignment(cur, head, ours, used);
        assert(prior[prior.len() - 1].0 != key);
        if member_find(front, prior.last().0) is None {
            put_keeps_others(front, prior.last().0, kept_entry(prior.last().1, ours, used), key);
        }
    }
}

} // verus!
