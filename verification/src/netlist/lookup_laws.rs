//! What is found by name: attributes, instances, entries, and the pins of components on nets.
use vstd::prelude::*;

use crate::netlist::erc::{
    attachment_of, component_path, dotted, pad_signals, recorded, typed_pins, typed_pins_of,
    typed_signals, types_of, ComponentV, PinTypesV, SymbolV,
};
use crate::netlist::schematic::{
    find_attribute, find_physical, find_text, instance_at, AttributeV, InstanceRefV, InstanceV,
    PortV,
};
use crate::order::{sorted, sorting_keeps_items};
use crate::sorted_map::map_find;
use crate::steps::{distinct, distinct_holds};
use crate::text::joined;

verus! {

/// An attribute is the first of its name; its text and its physical value are what it can be read as.
pub proof fn attributes_are_found_by_name(
    list: Seq<(Seq<char>, AttributeV)>,
    key: Seq<char>,
    a: AttributeV,
)
    ensures
        find_attribute(list, key) == Some(a) <==> exists|i: int|
            0 <= i < list.len() && #[trigger] list[i] == (key, a) && forall|j: int|
                0 <= j < i ==> (#[trigger] list[j]).0 != key,
        find_attribute(list, key) == Some(a) ==> find_text(list, key) == a.text && find_physical(
            list,
            key,
        ) == a.physical,
        (forall|j: int| 0 <= j < list.len() ==> (#[trigger] list[j]).0 != key) ==> find_attribute(
            list,
            key,
        ) is None && find_text(list, key) is None && find_physical(list, key) is None,
    decreases list.len(),
{
    if list.len() > 0 {
        let rest = list.drop_first();
        attributes_are_found_by_name(rest, key, a);
        if list[0].0 == key {
            if list[0].1 == a {
                assert(list[0] == (key, a));
            }
            if exists|i: int|
                0 <= i < list.len() && #[trigger] list[i] == (key, a) && forall|j: int|
                    0 <= j < i ==> (#[trigger] list[j]).0 != key {
                let i = choose|i: int|
                    0 <= i < list.len() && #[trigger] list[i] == (key, a) && forall|j: int|
                        0 <= j < i ==> (#[trigger] list[j]).0 != key;
                assert(i == 0) by {
                    if i > 0 {
                        assert(list[0].0 != key);
                    }
                }
            }
        } else {
            if exists|i: int|
                0 <= i < rest.len() && #[trigger] rest[i] == (key, a) && forall|j: int|
                    0 <= j < i ==> (#[trigger] rest[j]).0 != key {
                let i = choose|i: int|
                    0 <= i < rest.len() && #[trigger] rest[i] == (key, a) && forall|j: int|
                        0 <= j < i ==> (#[trigger] rest[j]).0 != key;
                assert(list[i + 1] == (key, a));
                assert forall|j: int| 0 <= j < i + 1 implies (#[trigger] list[j]).0 != key by {
                    if j > 0 {
                        assert(rest[j - 1] == list[j]);
                    }
                }
            }
            if exists|i: int|
                0 <= i < list.len() && #[trigger] list[i] == (key, a) && forall|j: int|
                    0 <= j < i ==> (#[trigger] list[j]).0 != key {
                let i = choose|i: int|
                    0 <= i < list.len() && #[trigger] list[i] == (key, a) && forall|j: int|
                        0 <= j < i ==> (#[trigger] list[j]).0 != key;
                assert(rest[i - 1] == (key, a));
                assert forall|j: int| 0 <= j < i - 1 implies (#[trigger] rest[j]).0 != key by {
                    assert(list[j + 1] == rest[j]);
                }
            }
            if forall|j: int| 0 <= j < list.len() ==> (#[trigger] list[j]).0 != key {
                assert forall|j: int| 0 <= j < rest.len() implies (#[trigger] rest[j]).0 != key by {
                    assert(list[j + 1] == rest[j]);
                }
            }
        }
        if forall|j: int| 0 <= j < list.len() ==> (#[trigger] list[j]).0 != key {
            assert(list[0].0 != key);
        }
    }
}

/// An instance is the first at its place.
pub proof fn instances_are_found_by_place(
    instances: Seq<InstanceV>,
    at: InstanceRefV,
    x: InstanceV,
)
    ensures
        instance_at(instances, at) == Some(x) <==> exists|i: int|
            0 <= i < instances.len() && #[trigger] instances[i] == x && x.at == at && forall|j: int|
                0 <= j < i ==> (#[trigger] instances[j]).at != at,
    decreases instances.len(),
{
    if instances.len() > 0 {
        let rest = instances.drop_first();
        instances_are_found_by_place(rest, at, x);
        if instances[0].at == at {
            if instances[0] == x {
                assert(instances[0] == x);
            }
            if exists|i: int|
                0 <= i < instances.len() && #[trigger] instances[i] == x && x.at == at && forall|j: int|
                    0 <= j < i ==> (#[trigger] instances[j]).at != at {
                let i = choose|i: int|
                    0 <= i < instances.len() && #[trigger] instances[i] == x && x.at == at
                        && forall|j: int| 0 <= j < i ==> (#[trigger] instances[j]).at != at;
                assert(i == 0) by {
                    if i > 0 {
                        assert(instances[0].at != at);
                    }
                }
            }
        } else {
            if exists|i: int|
                0 <= i < rest.len() && #[trigger] rest[i] == x && x.at == at && forall|j: int|
                    0 <= j < i ==> (#[trigger] rest[j]).at != at {
                let i = choose|i: int|
                    0 <= i < rest.len() && #[trigger] rest[i] == x && x.at == at && forall|j: int|
                        0 <= j < i ==> (#[trigger] rest[j]).at != at;
                assert(instances[i + 1] == x);
                assert forall|j: int| 0 <= j < i + 1 implies (#[trigger] instances[j]).at != at by {
                    if j > 0 {
                        assert(rest[j - 1] == instances[j]);
                    }
                }
            }
            if exists|i: int|
                0 <= i < instances.len() && #[trigger] instances[i] == x && x.at == at && forall|j: int|
                    0 <= j < i ==> (#[trigger] instances[j]).at != at {
                let i = choose|i: int|
                    0 <= i < instances.len() && #[trigger] instances[i] == x && x.at == at
                        && forall|j: int| 0 <= j < i ==> (#[trigger] instances[j]).at != at;
                assert(rest[i - 1] == x);
                assert forall|j: int| 0 <= j < i - 1 implies (#[trigger] rest[j]).at != at by {
                    assert(instances[j + 1] == rest[j]);
                }
            }
        }
    }
}

/// An entry is the first under its key.
pub proof fn entries_are_found_by_key<A, B>(entries: Seq<(A, B)>, key: A, v: B)
    ensures
        map_find(entries, key) == Some(v) <==> exists|i: int|
            0 <= i < entries.len() && #[trigger] entries[i] == (key, v) && forall|j: int|
                0 <= j < i ==> (#[trigger] entries[j]).0 != key,
    decreases entries.len(),
{
    if entries.len() > 0 {
        let rest = entries.drop_first();
        entries_are_found_by_key(rest, key, v);
        if entries[0].0 == key {
            if entries[0].1 == v {
                assert(entries[0] == (key, v));
            }
            if exists|i: int|
                0 <= i < entries.len() && #[trigger] entries[i] == (key, v) && forall|j: int|
                    0 <= j < i ==> (#[trigger] entries[j]).0 != key {
                let i = choose|i: int|
                    0 <= i < entries.len() && #[trigger] entries[i] == (key, v) && forall|j: int|
                        0 <= j < i ==> (#[trigger] entries[j]).0 != key;
                assert(i == 0) by {
                    if i > 0 {
                        assert(entries[0].0 != key);
                    }
                }
            }
        } else {
            if exists|i: int|
                0 <= i < rest.len() && #[trigger] rest[i] == (key, v) && forall|j: int|
                    0 <= j < i ==> (#[trigger] rest[j]).0 != key {
                let i = choose|i: int|
                    0 <= i < rest.len() && #[trigger] rest[i] == (key, v) && forall|j: int|
                        0 <= j < i ==> (#[trigger] rest[j]).0 != key;
                assert(entries[i + 1] == (key, v));
                assert forall|j: int| 0 <= j < i + 1 implies (#[trigger] entries[j]).0 != key by {
                    if j > 0 {
                        assert(rest[j - 1] == entries[j]);
                    }
                }
            }
            if exists|i: int|
                0 <= i < entries.len() && #[trigger] entries[i] == (key, v) && forall|j: int|
                    0 <= j < i ==> (#[trigger] entries[j]).0 != key {
                let i = choose|i: int|
                    0 <= i < entries.len() && #[trigger] entries[i] == (key, v) && forall|j: int|
                        0 <= j < i ==> (#[trigger] entries[j]).0 != key;
                assert(rest[i - 1] == (key, v));
                assert forall|j: int| 0 <= j < i - 1 implies (#[trigger] rest[j]).0 != key by {
                    assert(entries[j + 1] == rest[j]);
                }
            }
        }
    }
}

/// The path of a component is its modules and its name, with dots between them.
pub proof fn component_paths_are_dotted(modules: Vec<String>, name: &str, r: String)
    requires
        component_path.ensures((&modules, name), r),
    ensures
        r@ == joined(modules.deep_view().push(name@), "."@),
{
    dots_join(modules.deep_view(), name@);
}

proof fn dots_join(modules: Seq<Seq<char>>, name: Seq<char>)
    ensures
        dotted(modules, name) == joined(modules.push(name), "."@),
{
    assert(modules.push(name).drop_last() =~= modules);
}

/// The symbol carries the signal on a pad, and lists types for its pins.
pub open spec fn has_typed_pin(c: ComponentV, signal: Seq<char>) -> bool {
    &&& c.symbol is Some
    &&& exists|k: int|
        0 <= k < c.symbol->0.pad_to_signal.len() && (#[trigger] c.symbol->0.pad_to_signal[k]).1
            == signal
    &&& types_of(c.symbol->0.pin_types, signal) is Some
    &&& types_of(c.symbol->0.pin_types, signal)->0.types.len() > 0
}

proof fn types_are_of_the_signal(list: Seq<PinTypesV>, signal: Seq<char>)
    ensures
        types_of(list, signal) matches Some(t) ==> t.signal == signal,
    decreases list.len(),
{
    if list.len() > 0 && list[0].signal != signal {
        types_are_of_the_signal(list.drop_first(), signal);
    }
}

proof fn typed_found(path: Seq<char>, symbol: SymbolV, signals: Seq<Seq<char>>, x: (Seq<char>, PinTypesV))
    ensures
        typed_signals(path, symbol, signals).contains(x) <==> x.0 == path && exists|k: int|
            0 <= k < signals.len() && types_of(symbol.pin_types, #[trigger] signals[k]) == Some(x.1)
                && x.1.types.len() > 0,
    decreases signals.len(),
{
    if signals.len() > 0 {
        let front = signals.drop_last();
        typed_found(path, symbol, front, x);
        let a = typed_signals(path, symbol, front);
        let b = typed_signals(path, symbol, signals);
        let end = signals.len() - 1;
        assert(signals[end] == signals.last());
        if a.contains(x) {
            let i = choose|i: int| 0 <= i < a.len() && a[i] == x;
            assert(b[i] == x);
            let k = choose|k: int|
                0 <= k < front.len() && types_of(symbol.pin_types, #[trigger] front[k]) == Some(x.1)
                    && x.1.types.len() > 0;
            assert(signals[k] == front[k]);
        }
        if b.contains(x) {
            let i = choose|i: int| 0 <= i < b.len() && b[i] == x;
            if i < a.len() {
                assert(a[i] == x);
            } else {
                assert(types_of(symbol.pin_types, signals[end]) == Some(x.1));
            }
        }
        if x.0 == path && exists|k: int|
            0 <= k < signals.len() && types_of(symbol.pin_types, #[trigger] signals[k]) == Some(x.1)
                && x.1.types.len() > 0 {
            let k = choose|k: int|
                0 <= k < signals.len() && types_of(symbol.pin_types, #[trigger] signals[k]) == Some(
                    x.1,
                ) && x.1.types.len() > 0;
            if k < end {
                assert(front[k] == signals[k]);
            } else {
                assert(b[b.len() - 1] == x);
            }
        }
    }
}

/// The entry is a typed pin of the component.
pub open spec fn is_typed_pin(c: ComponentV, x: (Seq<char>, PinTypesV)) -> bool {
    &&& x.0 == joined(c.modules.push(c.name), "."@)
    &&& has_typed_pin(c, x.1.signal)
    &&& types_of(c.symbol->0.pin_types, x.1.signal) == Some(x.1)
}

proof fn component_pins(c: ComponentV, x: (Seq<char>, PinTypesV))
    ensures
        typed_pins_of(c).contains(x) <==> is_typed_pin(c, x),
{
    dots_join(c.modules, c.name);
    if let Some(s) = c.symbol {
        let all = pad_signals(s.pad_to_signal);
        let signals = sorted::<String>(distinct(all));
        typed_found(dotted(c.modules, c.name), s, signals, x);
        if typed_pins_of(c).contains(x) {
            let k = choose|k: int|
                0 <= k < signals.len() && types_of(s.pin_types, #[trigger] signals[k]) == Some(x.1)
                    && x.1.types.len() > 0;
            types_are_of_the_signal(s.pin_types, signals[k]);
            assert(signals.contains(signals[k]));
            sorting_keeps_items::<String>(distinct(all), signals[k]);
            distinct_holds(all, signals[k]);
            let p = choose|p: int| 0 <= p < all.len() && all[p] == signals[k];
            assert(s.pad_to_signal[p].1 == x.1.signal);
        }
        if is_typed_pin(c, x) {
            let p = choose|p: int|
                0 <= p < s.pad_to_signal.len() && (#[trigger] s.pad_to_signal[p]).1 == x.1.signal;
            assert(all[p] == x.1.signal);
            assert(all.contains(x.1.signal));
            distinct_holds(all, x.1.signal);
            sorting_keeps_items::<String>(distinct(all), x.1.signal);
            let k = choose|k: int| 0 <= k < signals.len() && signals[k] == x.1.signal;
            assert(types_of(s.pin_types, signals[k]) == Some(x.1));
        }
    }
}

proof fn all_pins(components: Seq<ComponentV>, x: (Seq<char>, PinTypesV))
    ensures
        typed_pins(components).contains(x) <==> exists|i: int|
            0 <= i < components.len() && is_typed_pin(#[trigger] components[i], x),
    decreases components.len(),
{
    if components.len() > 0 {
        let front = components.drop_last();
        all_pins(front, x);
        component_pins(components.last(), x);
        let a = typed_pins(front);
        let c = typed_pins_of(components.last());
        let b = typed_pins(components);
        let end = components.len() - 1;
        assert(components[end] == components.last());
        if a.contains(x) {
            let i = choose|i: int| 0 <= i < a.len() && a[i] == x;
            assert(b[i] == x);
            let k = choose|k: int| 0 <= k < front.len() && is_typed_pin(#[trigger] front[k], x);
            assert(components[k] == front[k]);
        }
        if c.contains(x) {
            let i = choose|i: int| 0 <= i < c.len() && c[i] == x;
            assert(b[a.len() + i] == x);
            assert(is_typed_pin(components[end], x));
        }
        if b.contains(x) {
            let i = choose|i: int| 0 <= i < b.len() && b[i] == x;
            if i < a.len() {
                assert(a[i] == x);
            } else {
                assert(c[i - a.len()] == x);
            }
        }
        if exists|i: int| 0 <= i < components.len() && is_typed_pin(#[trigger] components[i], x) {
            let i = choose|i: int|
                0 <= i < components.len() && is_typed_pin(#[trigger] components[i], x);
            if i < end {
                assert(front[i] == components[i]);
            }
        }
    }
}

proof fn last_recorded(pins: Seq<(Seq<char>, PinTypesV)>, path: Seq<char>, signal: Seq<char>)
    ensures
        recorded(pins, path, signal) matches Some(t) ==> t.signal == signal && pins.contains((path, t)),
        recorded(pins, path, signal) is None ==> forall|t: PinTypesV|
            t.signal == signal ==> !pins.contains((path, t)),
    decreases pins.len(),
{
    if pins.len() > 0 {
        let front = pins.drop_last();
        if pins.last().0 == path && pins.last().1.signal == signal {
            assert(pins[pins.len() - 1] == (path, pins.last().1));
        } else {
            last_recorded(front, path, signal);
            match recorded(front, path, signal) {
                Some(t) => {
                    let i = choose|i: int| 0 <= i < front.len() && front[i] == (path, t);
                    assert(pins[i] == (path, t));
                },
                None => {
                    assert forall|t: PinTypesV| t.signal == signal implies !pins.contains(
                        (path, t),
                    ) by {
                        if pins.contains((path, t)) {
                            let i = choose|i: int| 0 <= i < pins.len() && pins[i] == (path, t);
                            if i < front.len() {
                                assert(front[i] == (path, t));
                                assert(front.contains((path, t)));
                            } else {
                                assert(pins.last() == (path, t));
                            }
                        }
                    }
                },
            }
        }
    }
}

/// A port attaches a pin to its net exactly where a component stands at its path, carries the signal
/// on a pad, and lists types for it; and it attaches that pin, under the last name of the path, with
/// those types.
pub proof fn ports_attach_typed_pins(components: Seq<ComponentV>, port: PortV)
    ensures
        ({
            let got = attachment_of(typed_pins(components), port);
            &&& got is Some <==> port.pin is Some && exists|i: int|
                0 <= i < components.len() && joined(
                    (#[trigger] components[i]).modules.push(components[i].name),
                    "."@,
                ) == joined((port.pin->0).0.path, "."@) && has_typed_pin(components[i], (port.pin->0).1)
            &&& got matches Some(a) ==> {
                &&& a.signal_name == (port.pin->0).1
                &&& a.pin_types.signal == (port.pin->0).1
                &&& (port.pin->0).0.path.len() > 0 ==> a.component_name == (port.pin->0).0.path.last()
            }
        }),
{
    if let Some((at, signal)) = port.pin {
        let path = joined(at.path, "."@);
        let pins = typed_pins(components);
        last_recorded(pins, path, signal);
        match recorded(pins, path, signal) {
            Some(t) => {
                all_pins(components, (path, t));
                let i = choose|i: int|
                    0 <= i < components.len() && is_typed_pin(#[trigger] components[i], (path, t));
                assert(has_typed_pin(components[i], signal));
            },
            None => {
                if exists|i: int|
                    0 <= i < components.len() && joined(
                        (#[trigger] components[i]).modules.push(components[i].name),
                        "."@,
                    ) == path && has_typed_pin(components[i], signal) {
                    let i = choose|i: int|
                        0 <= i < components.len() && joined(
                            (#[trigger] components[i]).modules.push(components[i].name),
                            "."@,
                        ) == path && has_typed_pin(components[i], signal);
                    let t = types_of(components[i].symbol->0.pin_types, signal)->0;
                    types_are_of_the_signal(components[i].symbol->0.pin_types, signal);
                    all_pins(components, (path, t));
                    assert(is_typed_pin(components[i], (path, t)));
                }
            },
        }
    }
}

} // verus!
