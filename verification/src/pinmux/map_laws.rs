//! What holds of interfaces, of nets mapped to pins, of constrained requests and of swap reports.
use vstd::prelude::*;

use crate::json::{json_find, member_put, put_is_found, put_keeps_others, JsonV};
use crate::pinmux::constraints::{claimed_lock, ConstraintsV};
use crate::pinmux::declare::{connected_value, pin_at_of};
use crate::pinmux::iface::{
    closure, closure_from, ids_of, implied_adds, info_of, net_ids, net_leaves_of, pending,
    pending_from_next, with_implied, InfoV,
};
use crate::pinmux::merge::{live_in, member_json, members_json, pool_class_json, pool_reports};
use crate::pinmux::model::RReqV;
use crate::pinmux::parse::axis_on;
use crate::pinmux::pin_map::{
    entry_pin, key_or_empty, leaf_for, map_signals, unmapped, unmapped_warning, MapV,
};
use crate::pinmux::prepare::{constrained, input_for};
use crate::pinmux::report::text_array;
use crate::pinmux::swaps::PoolClassV;
use crate::pinmux::value::ValueV;

verus! {

/// The net belongs to the signal: it is what the value carries first under that name, or, where the
/// value carries nothing of the name and the request has one signal, the value itself, being a net.
pub open spec fn is_net_of(v: ValueV, sig: Seq<char>, count: nat, net: ValueV) -> bool {
    let found = net_leaves_of(v);
    ||| exists|i: int|
        0 <= i < found.len() && #[trigger] found[i] == (sig, net) && forall|j: int|
            0 <= j < i ==> (#[trigger] found[j]).0 != sig
    ||| (forall|j: int| 0 <= j < found.len() ==> (#[trigger] found[j]).0 != sig) && count == 1 && v is Net
        && net == v
}

proof fn first_leaf(found: Seq<(Seq<char>, ValueV)>, path: Seq<char>)
    ensures
        match leaf_for(found, path) {
            Some(n) => exists|i: int|
                0 <= i < found.len() && #[trigger] found[i] == (path, n) && forall|j: int|
                    0 <= j < i ==> (#[trigger] found[j]).0 != path,
            None => forall|j: int| 0 <= j < found.len() ==> (#[trigger] found[j]).0 != path,
        },
    decreases found.len(),
{
    if found.len() > 0 {
        if found[0].0 == path {
            assert(found[0] == (path, found[0].1));
        } else {
            let rest = found.drop_first();
            first_leaf(rest, path);
            match leaf_for(rest, path) {
                Some(n) => {
                    let i = choose|i: int|
                        0 <= i < rest.len() && #[trigger] rest[i] == (path, n) && forall|j: int|
                            0 <= j < i ==> (#[trigger] rest[j]).0 != path;
                    assert(found[i + 1] == (path, n));
                    assert forall|j: int| 0 <= j < i + 1 implies (#[trigger] found[j]).0 != path by {
                        if j > 0 {
                            assert(rest[j - 1] == found[j]);
                        }
                    }
                },
                None => {
                    assert forall|j: int| 0 <= j < found.len() implies (
                    #[trigger] found[j]).0 != path by {
                        if j > 0 {
                            assert(rest[j - 1] == found[j]);
                        }
                    }
                },
            }
        }
    }
}

/// Where the signals of a request are mapped without a complaint, each entry of the assignment maps
/// its pin to the net of its signal, in order, and nothing else is mapped.
pub proof fn pins_map_to_the_nets_of_their_signals(
    s: MapV,
    req: Seq<char>,
    v: ValueV,
    count: nat,
    entries: Seq<(ValueV, ValueV)>,
    k: int,
)
    requires
        map_signals(s, req, v, count, entries).1 is None,
        0 <= k < entries.len(),
    ensures
        ({
            let out = map_signals(s, req, v, count, entries).0.out;
            let at = s.out.len() + k;
            &&& out.len() == s.out.len() + entries.len()
            &&& out.take(s.out.len() as int) == s.out
            &&& entry_pin(entries[k].1) == Some(out[at].0)
            &&& is_net_of(v, key_or_empty(entries[k].0), count, out[at].1)
        }),
    decreases entries.len(),
{
    let front = entries.drop_last();
    let t = map_signals(s, req, v, count, front).0;
    let all = map_signals(s, req, v, count, entries).0;
    assert(map_signals(s, req, v, count, front).1 is None);
    let e = entries.last();
    first_leaf(net_leaves_of(v), key_or_empty(e.0));
    assert(all.out.len() == t.out.len() + 1);
    assert(all.out.take(t.out.len() as int) =~= t.out);
    if front.len() > 0 {
        pins_map_to_the_nets_of_their_signals(
            s,
            req,
            v,
            count,
            front,
            if k < front.len() {
                k
            } else {
                0
            },
        );
        assert(all.out.take(s.out.len() as int) =~= t.out.take(s.out.len() as int));
        if k < front.len() {
            assert(all.out[s.out.len() + k] == t.out[s.out.len() + k]);
        }
    } else {
        assert(t.out == s.out);
    }
}

/// A warning tells of solved requests that were not mapped exactly where there are any.
pub proof fn unmapped_requests_are_told(
    assignment: Seq<(ValueV, ValueV)>,
    given: Seq<Seq<char>>,
)
    ensures
        unmapped_warning(assignment, given) is Some <==> exists|i: int|
            0 <= i < assignment.len() && (#[trigger] assignment[i]).0 is Str && !given.contains(
                assignment[i].0->Str_0,
            ),
{
    some_unmapped(assignment, given);
}

proof fn some_unmapped(assignment: Seq<(ValueV, ValueV)>, given: Seq<Seq<char>>)
    ensures
        unmapped(assignment, given).len() > 0 <==> exists|i: int|
            0 <= i < assignment.len() && (#[trigger] assignment[i]).0 is Str && !given.contains(
                assignment[i].0->Str_0,
            ),
    decreases assignment.len(),
{
    if assignment.len() > 0 {
        let front = assignment.drop_last();
        some_unmapped(front, given);
        let end = assignment.len() - 1;
        assert(assignment[end] == assignment.last());
        if unmapped(front, given).len() > 0 {
            let i = choose|i: int|
                0 <= i < front.len() && (#[trigger] front[i]).0 is Str && !given.contains(
                    front[i].0->Str_0,
                );
            assert(assignment[i] == front[i]);
        }
        if exists|i: int|
            0 <= i < assignment.len() && (#[trigger] assignment[i]).0 is Str && !given.contains(
                assignment[i].0->Str_0,
            ) {
            let i = choose|i: int|
                0 <= i < assignment.len() && (#[trigger] assignment[i]).0 is Str && !given.contains(
                    assignment[i].0->Str_0,
                );
            if i < end {
                assert(front[i] == assignment[i]);
            }
        }
    }
}

/// A constraint on an input changes nothing of a request but the pins that it prefers and whether it
/// is locked to them. A soft constraint does not lock; a hard one does. Without an input of its name,
/// or where the name is that of a configuration, the request stays as it is.
pub proof fn constraints_only_set_the_lock(
    r: RReqV,
    configs: Seq<Seq<char>>,
    inputs: Seq<(Seq<char>, ValueV)>,
    solver: Seq<Seq<char>>,
    store: ConstraintsV,
)
    ensures
        ({
            let got = constrained(r, configs, inputs, solver, store).1;
            let input = input_for(inputs, r.name);
            &&& got matches Ok(x) ==> x == (RReqV { prefer: x.prefer, lock: x.lock, ..r })
            &&& configs.contains(r.name) || input is None ==> got == Ok::<_, Seq<char>>(r)
            &&& !configs.contains(r.name) && input is Some && pin_at_of(input->0) is None && claimed_lock(
                store,
                net_ids(connected_value(input->0)),
                solver,
                r.name,
            ) is None ==> got == Ok::<_, Seq<char>>(r)
            &&& !configs.contains(r.name) && input is Some && pin_at_of(input->0) is None ==> (claimed_lock(
                store,
                net_ids(connected_value(input->0)),
                solver,
                r.name,
            ) matches Some(c) ==> (got matches Ok(x) ==> x.prefer == c.0 && x.lock == !c.1))
            &&& !configs.contains(r.name) && input is Some ==> (pin_at_of(input->0) matches Some(c)
                ==> (got matches Ok(x) ==> x.prefer == c.1 && x.lock == !c.2))
        }),
{
}

/// The identity is among the infos.
pub open spec fn has_identity(infos: Seq<InfoV>, id: u64) -> bool {
    exists|i: int| 0 <= i < infos.len() && (#[trigger] infos[i]).id == id
}

proof fn implied_are_there(out: Seq<InfoV>, implied: Seq<ValueV>)
    ensures
        with_implied(out, implied) matches Ok(o) ==> {
            &&& out.len() <= o.len()
            &&& out == o.take(out.len() as int)
            &&& forall|k: int|
                0 <= k < implied.len() ==> info_of(#[trigger] implied[k]) is Some && has_identity(
                    o,
                    info_of(implied[k])->0.id,
                )
            &&& forall|i: int|
                out.len() <= i < o.len() ==> exists|k: int|
                    0 <= k < implied.len() && info_of(#[trigger] implied[k]) == Some(#[trigger] o[i])
        },
    decreases implied.len(),
{
    if implied.len() > 0 {
        let front = implied.drop_last();
        let end = implied.len() - 1;
        assert(implied[end] == implied.last());
        implied_are_there(out, front);
        match with_implied(out, implied) {
            Ok(o) => {
                let before = with_implied(out, front)->Ok_0;
                let info = info_of(implied.last())->0;
                assert(before =~= o.take(before.len() as int));
                assert(out =~= o.take(out.len() as int)) by {
                    assert(out == before.take(out.len() as int));
                }
                assert forall|k: int| 0 <= k < implied.len() implies info_of(
                    #[trigger] implied[k],
                ) is Some && has_identity(o, info_of(implied[k])->0.id) by {
                    if k < end {
                        assert(front[k] == implied[k]);
                        assert(has_identity(before, info_of(front[k])->0.id));
                        let i = choose|i: int|
                            0 <= i < before.len() && (#[trigger] before[i]).id == info_of(
                                front[k],
                            )->0.id;
                        assert(o[i] == before[i]);
                    } else if o.len() == before.len() {
                        let i = choose|i: int|
                            0 <= i < ids_of(before).len() && ids_of(before)[i] == info.id;
                        assert(before[i].id == info.id);
                        assert(o[i] == before[i]);
                    } else {
                        assert(o[o.len() - 1].id == info.id);
                    }
                }
                assert forall|i: int| out.len() <= i < o.len() implies exists|k: int|
                    0 <= k < implied.len() && info_of(#[trigger] implied[k]) == Some(
                        #[trigger] o[i],
                    ) by {
                    if i < before.len() {
                        assert(o[i] == before[i]);
                        let k = choose|k: int|
                            0 <= k < front.len() && info_of(#[trigger] front[k]) == Some(before[i]);
                        assert(implied[k] == front[k]);
                    } else {
                        assert(info_of(implied[end]) == Some(o[i]));
                    }
                }
            },
            Err(_) => {},
        }
    } else {
        assert(out =~= out.take(out.len() as int));
    }
}

/// Whatever the infos before the cursor imply is among the infos.
spec fn closed_up_to(infos: Seq<InfoV>, cursor: int) -> bool {
    forall|c: int, k: int|
        0 <= c < cursor && 0 <= k < infos[c].implies.len() ==> info_of(
            #[trigger] infos[c].implies[k],
        ) is Some && has_identity(infos, info_of(infos[c].implies[k])->0.id)
}

proof fn closure_closes(out: Seq<InfoV>, cursor: int)
    requires
        0 <= cursor <= out.len(),
        closed_up_to(out, cursor),
    ensures
        closure_from(out, cursor) matches Ok(r) ==> closed_up_to(r, r.len() as int),
    decreases pending(out, cursor),
{
    if cursor < out.len() {
        pending_from_next(out, cursor);
        implied_adds(out, out[cursor].implies, cursor + 1);
        implied_are_there(out, out[cursor].implies);
        match with_implied(out, out[cursor].implies) {
            Ok(o) => {
                assert forall|i: int| 0 <= i < out.len() implies #[trigger] o[i] == out[i] by {
                    assert(o.take(out.len() as int)[i] == out[i]);
                }
                assert forall|c: int, k: int|
                    0 <= c < cursor + 1 && 0 <= k < o[c].implies.len() implies info_of(
                    #[trigger] o[c].implies[k],
                ) is Some && has_identity(o, info_of(o[c].implies[k])->0.id) by {
                    assert(o[c] == out[c]);
                    if c < cursor {
                        assert(info_of(out[c].implies[k]) is Some);
                        let i = choose|i: int|
                            0 <= i < out.len() && (#[trigger] out[i]).id == info_of(
                                out[c].implies[k],
                            )->0.id;
                        assert(o[i] == out[i]);
                    }
                }
                closure_closes(o, cursor + 1);
            },
            Err(_) => {},
        }
    }
}

/// A peripheral that provides an interface provides all that it implies, and all that this implies
/// in turn: the closure of an interface type holds whatever any of its members implies.
pub proof fn closures_hold_what_is_implied(root: ValueV, c: int, k: int)
    requires
        closure(root) matches Ok(infos) && 0 <= c < infos.len() && 0 <= k < infos[c].implies.len(),
    ensures
        closure(root) matches Ok(infos) && info_of(infos[c].implies[k]) is Some && has_identity(
            infos,
            info_of(infos[c].implies[k])->0.id,
        ),
{
    let info = info_of(root)->0;
    closure_closes(seq![info], 0);
    let infos = closure(root)->Ok_0;
    assert(info_of(infos[c].implies[k]) is Some);
}

/// A swap is reported where two requests can trade places, or one can move to a spare.
pub proof fn swaps_take_two_or_a_spare(c: PoolClassV)
    ensures
        pool_reports(seq![c]).len() == if c.members.len() >= 2 || (c.members.len() == 1
            && c.spares.len() > 0) {
            1int
        } else {
            0
        },
{
    let one = seq![c];
    assert(one.drop_last() =~= Seq::empty());
    assert(one.last() == c);
    assert(pool_reports(one.drop_last()).len() == 0);
}

proof fn report_keys_differ()
    ensures
        "granularity"@ != "rebind"@,
        "granularity"@ != "pool"@,
        "granularity"@ != "members"@,
        "granularity"@ != "spare_pins"@,
        "rebind"@ != "pool"@,
        "rebind"@ != "members"@,
        "rebind"@ != "spare_pins"@,
        "pool"@ != "members"@,
        "pool"@ != "spare_pins"@,
        "members"@ != "spare_pins"@,
{
    reveal_strlit("granularity");
    reveal_strlit("rebind");
    reveal_strlit("pool");
    reveal_strlit("members");
    reveal_strlit("spare_pins");
    assert("granularity"@[0] == 'g');
    assert("rebind"@[0] == 'r');
    assert("pool"@[0] == 'p');
    assert("members"@[0] == 'm');
    assert("spare_pins"@[0] == 's');
}

/// The report on a pool names it, says that pins are traded and how they are rebound, and lists the
/// requests with their pins and the spare pins.
pub proof fn pool_reports_name_the_pool(c: PoolClassV)
    ensures
        ({
            let j = pool_class_json(c);
            &&& json_find(j, "granularity"@) == Some(JsonV::Str("pin"@))
            &&& json_find(j, "rebind"@) == Some(JsonV::Str(c.rebind))
            &&& json_find(j, "pool"@) == Some(JsonV::Str(c.pool))
            &&& json_find(j, "spare_pins"@) == Some(text_array(c.spares))
            &&& json_find(j, "members"@) matches Some(JsonV::Array(list)) && list.len()
                == c.members.len() && forall|i: int|
                0 <= i < list.len() ==> #[trigger] list[i] == member_json(c.members[i], "pin"@)
        }),
{
    report_keys_differ();
    let m0 = Seq::<(Seq<char>, JsonV)>::empty();
    let v1 = JsonV::Str("pin"@);
    let m1 = member_put(m0, "granularity"@, v1);
    let v2 = JsonV::Str(c.rebind);
    let m2 = member_put(m1, "rebind"@, v2);
    let v3 = JsonV::Str(c.pool);
    let m3 = member_put(m2, "pool"@, v3);
    let v4 = members_json(c.members, "pin"@);
    let m4 = member_put(m3, "members"@, v4);
    let v5 = text_array(c.spares);
    put_is_found(m0, "granularity"@, v1);
    put_is_found(m1, "rebind"@, v2);
    put_is_found(m2, "pool"@, v3);
    put_is_found(m3, "members"@, v4);
    put_is_found(m4, "spare_pins"@, v5);
    put_keeps_others(m1, "rebind"@, v2, "granularity"@);
    put_keeps_others(m2, "pool"@, v3, "granularity"@);
    put_keeps_others(m2, "pool"@, v3, "rebind"@);
    put_keeps_others(m3, "members"@, v4, "granularity"@);
    put_keeps_others(m3, "members"@, v4, "rebind"@);
    put_keeps_others(m3, "members"@, v4, "pool"@);
    put_keeps_others(m4, "spare_pins"@, v5, "granularity"@);
    put_keeps_others(m4, "spare_pins"@, v5, "rebind"@);
    put_keeps_others(m4, "spare_pins"@, v5, "pool"@);
    put_keeps_others(m4, "spare_pins"@, v5, "members"@);
}

/// The entry of an earlier class names a request and, under the key, what it was given.
pub open spec fn names_member(m: JsonV, key: Seq<char>, r: Seq<char>, v: Seq<char>) -> bool {
    json_find(m, "request"@) == Some(JsonV::Str(r)) && json_find(m, key) == Some(JsonV::Str(v))
}

/// Of an earlier class those members stay whose requests were not solved again.
pub proof fn solved_requests_leave_earlier_classes(
    members: Seq<JsonV>,
    key: Seq<char>,
    solved: Seq<Seq<char>>,
    x: (Seq<char>, Seq<char>),
)
    ensures
        live_in(members, key, solved).contains(x) <==> !solved.contains(x.0) && exists|i: int|
            0 <= i < members.len() && names_member(#[trigger] members[i], key, x.0, x.1),
    decreases members.len(),
{
    if members.len() > 0 {
        let front = members.drop_last();
        solved_requests_leave_earlier_classes(front, key, solved, x);
        let a = live_in(front, key, solved);
        let b = live_in(members, key, solved);
        let end = members.len() - 1;
        assert(members[end] == members.last());
        if a.contains(x) {
            let k = choose|k: int| 0 <= k < a.len() && a[k] == x;
            assert(b[k] == x);
            let i = choose|i: int|
                0 <= i < front.len() && names_member(#[trigger] front[i], key, x.0, x.1);
            assert(names_member(members[i], key, x.0, x.1));
        }
        if b.contains(x) {
            let k = choose|k: int| 0 <= k < b.len() && b[k] == x;
            if k < a.len() {
                assert(a[k] == x);
            } else {
                assert(names_member(members[end], key, x.0, x.1));
            }
        }
        if !solved.contains(x.0) && exists|i: int|
            0 <= i < members.len() && names_member(#[trigger] members[i], key, x.0, x.1) {
            let i = choose|i: int|
                0 <= i < members.len() && names_member(#[trigger] members[i], key, x.0, x.1);
            if i < end {
                assert(names_member(front[i], key, x.0, x.1));
            } else {
                assert(b[b.len() - 1] == x);
            }
        }
    }
}

/// An axis of the configuration is on where the first entry of its name is true: neither nothing, nor
/// false, nor zero, nor empty. An axis without an entry is off.
pub proof fn axes_go_by_their_first_entry(config: Seq<(Seq<char>, ValueV)>, key: Seq<char>, i: int)
    requires
        0 <= i < config.len() ==> config[i].0 == key,
        forall|j: int| 0 <= j < i && j < config.len() ==> (#[trigger] config[j]).0 != key,
        0 <= i <= config.len(),
    ensures
        i == config.len() ==> !axis_on(config, key),
        i < config.len() ==> match config[i].1 {
            ValueV::Nothing => !axis_on(config, key),
            ValueV::Bool(b) => axis_on(config, key) == b,
            ValueV::Int(n) => axis_on(config, key) == (n != 0),
            ValueV::Str(s) => axis_on(config, key) == (s.len() > 0),
            ValueV::List(a) => axis_on(config, key) == (a.len() > 0),
            ValueV::Dict(a) => axis_on(config, key) == (a.len() > 0),
            _ => true,
        },
    decreases config.len(),
{
    if i > 0 {
        let rest = config.drop_first();
        assert(config[0].0 != key);
        assert forall|j: int| 0 <= j < i - 1 && j < rest.len() implies (#[trigger] rest[j]).0 != key by {
            assert(rest[j] == config[j + 1]);
        }
        axes_go_by_their_first_entry(rest, key, i - 1);
    }
}

} // verus!
