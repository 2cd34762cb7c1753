//! Interface types: their signals, and the closure over the interfaces they imply.
use vstd::prelude::*;

use crate::pinmux::access::{contents_are_values, type_text};
use crate::pinmux::value::{Value, ValueV};
use crate::text::holds;

verus! {

/// Fields of an interface type or instance, in declaration order.
pub open spec fn fields_of(v: ValueV) -> Option<Seq<(Seq<char>, ValueV)>> {
    match v {
        ValueV::Interface(f, _) => Some(f),
        ValueV::InterfaceType(_, f, _, _) => Some(f),
        _ => None,
    }
}

/// A net or a net type: a connection, as opposed to metadata.
pub open spec fn is_connection(v: ValueV) -> bool {
    v is Net || v is NetType
}

/// The ids of the nets in `v`: of a net itself, or of the net leaves of an interface.
pub open spec fn net_ids(v: ValueV) -> Seq<u64>
    decreases v, 1int,
{
    match v {
        ValueV::Net(id, _, _) => seq![id],
        ValueV::Interface(f, _) => net_ids_in(f),
        ValueV::InterfaceType(_, f, _, _) => net_ids_in(f),
        _ => Seq::empty(),
    }
}

/// The ids of the nets in the fields, in order.
pub open spec fn net_ids_in(fields: Seq<(Seq<char>, ValueV)>) -> Seq<u64>
    decreases fields, 0int,
{
    if fields.len() == 0 {
        Seq::empty()
    } else {
        net_ids_in(fields.drop_last()) + net_ids(fields.last().1)
    }
}

/// The path of a field below `prefix`.
pub open spec fn field_path(prefix: Seq<char>, name: Seq<char>) -> Seq<char> {
    if prefix.len() == 0 {
        name
    } else {
        prefix + "_"@ + name
    }
}

/// Net leaves below `v`, nested fields flattened into paths below `prefix`.
pub open spec fn leaves(v: ValueV, prefix: Seq<char>) -> Seq<(Seq<char>, ValueV)>
    decreases v, 1int,
{
    match v {
        ValueV::Interface(f, _) => leaves_in(f, prefix),
        ValueV::InterfaceType(_, f, _, _) => leaves_in(f, prefix),
        _ => Seq::empty(),
    }
}

/// Net leaves of the fields, in order.
pub open spec fn leaves_in(fields: Seq<(Seq<char>, ValueV)>, prefix: Seq<char>) -> Seq<
    (Seq<char>, ValueV),
>
    decreases fields, 0int,
{
    if fields.len() == 0 {
        Seq::empty()
    } else {
        let path = field_path(prefix, fields.last().0);
        leaves_in(fields.drop_last(), prefix) + if is_connection(fields.last().1) {
            seq![(path, fields.last().1)]
        } else {
            leaves(fields.last().1, path)
        }
    }
}

/// The net leaves of a value.
pub open spec fn net_leaves_of(v: ValueV) -> Seq<(Seq<char>, ValueV)> {
    leaves(v, Seq::empty())
}

/// The paths of leaves.
pub open spec fn paths(found: Seq<(Seq<char>, ValueV)>) -> Seq<Seq<char>> {
    Seq::new(found.len(), |i: int| found[i].0)
}

/// What the model reads of an interface type.
#[verifier::ext_equal]
pub struct InfoV {
    pub id: u64,
    pub name: Seq<char>,
    pub signals: Seq<Seq<char>>,
    pub implies: Seq<ValueV>,
    pub attrs: Seq<(Seq<char>, ValueV)>,
}

/// The interface type that a value is.
pub open spec fn info_of(v: ValueV) -> Option<InfoV> {
    match v {
        ValueV::InterfaceType(h, f, i, a) => Some(
            InfoV { id: h.id, name: h.name, signals: paths(net_leaves_of(v)), implies: i, attrs: a },
        ),
        _ => None,
    }
}

/// The first text that also stands earlier in the list.
pub open spec fn first_repeat(list: Seq<Seq<char>>) -> Option<Seq<char>>
    decreases list.len(),
{
    if list.len() == 0 {
        None
    } else {
        match first_repeat(list.drop_last()) {
            Some(s) => Some(s),
            None => if list.drop_last().contains(list.last()) {
                Some(list.last())
            } else {
                None
            },
        }
    }
}

/// A list has a repeat if and only if it holds some text twice.
pub proof fn repeat_means_duplicates(list: Seq<Seq<char>>)
    ensures
        first_repeat(list) is None == list.no_duplicates(),
    decreases list.len(),
{
    if list.len() > 0 {
        let head = list.drop_last();
        repeat_means_duplicates(head);
        if first_repeat(list) is None {
            assert forall|i: int, j: int| 0 <= i < list.len() && 0 <= j < list.len() && i != j implies list[i]
                != list[j] by {
                if i < head.len() && j < head.len() {
                    assert(head[i] != head[j]);
                } else if i < head.len() {
                    assert(head.contains(head[i]));
                } else {
                    assert(head.contains(head[j]));
                }
            }
        }
        if list.no_duplicates() {
            assert(head.no_duplicates()) by {
                assert forall|i: int, j: int| 0 <= i < head.len() && 0 <= j < head.len() && i != j implies head[i]
                    != head[j] by {
                    assert(list[i] != list[j]);
                }
            }
            if head.contains(list.last()) {
                let i = choose|i: int| 0 <= i < head.len() && head[i] == list.last();
                assert(list[i] == list[list.len() - 1]);
            }
        }
    }
}

/// The complaint about two signals of one name.
pub open spec fn repeat_text(name: Seq<char>, signal: Seq<char>) -> Seq<char> {
    "interface "@ + name + ": nested fields flatten to two signals named `"@ + signal
        + "` — rename one of them"@
}

/// The identities in a closure.
pub open spec fn ids_of(infos: Seq<InfoV>) -> Seq<u64> {
    Seq::new(infos.len(), |i: int| infos[i].id)
}

/// The closure with the interfaces that `implied` names added, each identity once.
pub open spec fn with_implied(out: Seq<InfoV>, implied: Seq<ValueV>) -> Result<Seq<InfoV>, Seq<char>>
    decreases implied.len(),
{
    if implied.len() == 0 {
        Ok(out)
    } else {
        match with_implied(out, implied.drop_last()) {
            Err(e) => Err(e),
            Ok(o) => match info_of(implied.last()) {
                None => Err("interface(implies=...) entry is not an interface type"@),
                Some(info) => if ids_of(o).contains(info.id) {
                    Ok(o)
                } else {
                    match first_repeat(info.signals) {
                        Some(s) => Err(repeat_text(info.name, s)),
                        None => Ok(o.push(info)),
                    }
                },
            },
        }
    }
}

/// The number of interface types in a value, itself and all that it implies.
pub open spec fn weight(v: ValueV) -> nat
    decreases v, 1int,
{
    match v {
        ValueV::InterfaceType(_, _, i, _) => 1 + weight_of(i),
        _ => 0,
    }
}

/// The number of interface types in the values.
pub open spec fn weight_of(list: Seq<ValueV>) -> nat
    decreases list, 0int,
{
    if list.len() == 0 {
        0
    } else {
        weight_of(list.drop_last()) + weight(list.last())
    }
}

/// The number of interface types still to be looked at.
pub open spec fn pending(infos: Seq<InfoV>, cursor: int) -> nat
    decreases infos.len(),
{
    if infos.len() <= cursor || infos.len() == 0 {
        0
    } else {
        pending(infos.drop_last(), cursor) + 1 + weight_of(infos.last().implies)
    }
}

/// Adding the implied interfaces adds no more than their number to what is pending.
pub proof fn implied_adds(out: Seq<InfoV>, implied: Seq<ValueV>, cursor: int)
    requires
        0 <= cursor <= out.len(),
    ensures
        with_implied(out, implied) matches Ok(o) ==> pending(o, cursor) <= pending(out, cursor)
            + weight_of(implied) && out.len() <= o.len() && out == o.take(out.len() as int),
    decreases implied.len(),
{
    if implied.len() > 0 {
        implied_adds(out, implied.drop_last(), cursor);
        match with_implied(out, implied.drop_last()) {
            Ok(o) => {
                match info_of(implied.last()) {
                    Some(info) => {
                        let p = o.push(info);
                        assert(p.drop_last() =~= o);
                        assert(p.last() == info);
                        assert(pending(p, cursor) == pending(o, cursor) + 1 + weight_of(info.implies));
                        assert(weight(implied.last()) == 1 + weight_of(info.implies));
                        assert(weight_of(implied) == weight_of(implied.drop_last()) + weight(
                            implied.last(),
                        ));
                        assert(p.take(out.len() as int) =~= o.take(out.len() as int));
                    },
                    None => {},
                }
            },
            Err(_) => {},
        }
    } else {
        assert(out.take(out.len() as int) =~= out);
    }
}

/// What is pending shrinks when the cursor moves on.
pub proof fn pending_from_next(infos: Seq<InfoV>, cursor: int)
    requires
        0 <= cursor < infos.len(),
    ensures
        pending(infos, cursor) == pending(infos, cursor + 1) + 1 + weight_of(infos[cursor].implies),
    decreases infos.len(),
{
    if cursor < infos.len() - 1 {
        pending_from_next(infos.drop_last(), cursor);
    } else {
        assert(pending(infos.drop_last(), cursor) == 0);
        assert(pending(infos, cursor + 1) == 0);
    }
}

/// The closure, once the interfaces before `cursor` have been looked at.
pub open spec fn closure_from(out: Seq<InfoV>, cursor: int) -> Result<Seq<InfoV>, Seq<char>>
    decreases pending(out, cursor),
    when 0 <= cursor <= out.len()
{
    if cursor >= out.len() {
        Ok(out)
    } else {
        proof {
            pending_from_next(out, cursor);
            implied_adds(out, out[cursor].implies, cursor + 1);
        }
        match with_implied(out, out[cursor].implies) {
            Err(e) => Err(e),
            Ok(o) => closure_from(o, cursor + 1),
        }
    }
}

/// The breadth-first closure of an interface type over the interfaces it implies, each
/// identity once.
pub open spec fn closure(root: ValueV) -> Result<Seq<InfoV>, Seq<char>> {
    match info_of(root) {
        None => Err("expected an interface type, got `"@ + type_text(root) + "`"@),
        Some(info) => match first_repeat(info.signals) {
            Some(s) => Err(repeat_text(info.name, s)),
            None => closure_from(seq![info], 0),
        },
    }
}

/// What the model reads of an interface type.
pub struct IfaceInfo<'a> {
    pub id: u64,
    pub name: &'a str,
    pub signals: Vec<String>,
    pub implies: &'a Vec<Value>,
    pub attr_specs: &'a Vec<(String, Value)>,
}

impl<'a> DeepView for IfaceInfo<'a> {
    type V = InfoV;

    open spec fn deep_view(&self) -> InfoV {
        InfoV {
            id: self.id,
            name: self.name@,
            signals: self.signals.deep_view(),
            implies: self.implies.deep_view(),
            attrs: self.attr_specs.deep_view(),
        }
    }
}

/// Fields of an interface type or instance, in declaration order.
pub fn iface_fields(v: &Value) -> (r: Option<&Vec<(String, Value)>>)
    ensures
        match r {
            Some(f) => fields_of(v.value()) == Some(f.deep_view()) && decreases_to!(*v => f@),
            None => fields_of(v.value()) is None,
        },
{
    proof {
        contents_are_values(*v);
    }
    match v {
        Value::Interface(f, _) => {
            assert(decreases_to!(*v => v->Interface_0));
            assert(decreases_to!(*f => f@));
            Some(f)
        },
        Value::InterfaceType(_, f, _, _) => {
            assert(decreases_to!(*v => v->InterfaceType_1));
            assert(decreases_to!(*f => f@));
            Some(f)
        },
        _ => None,
    }
}

/// Net identity and display name, if `v` is a net.
pub fn net_identity(v: &Value) -> (r: Option<(u64, String)>)
    ensures
        match v.value() {
            ValueV::Net(id, name, _) => r matches Some(n) && n.0 == id && n.1@ == name,
            _ => r is None,
        },
{
    match v {
        Value::Net(id, name, _) => Some((*id, name.clone())),
        _ => None,
    }
}

/// Whether `v` is a connection, as opposed to metadata.
pub fn is_net_field(v: &Value) -> (r: bool)
    ensures
        r == is_connection(v.value()),
{
    match v {
        Value::Net(_, _, _) => true,
        Value::NetType(_) => true,
        _ => false,
    }
}

/// Appends the ids of the nets in `v`.
pub fn collect_net_ids(v: &Value, out: &mut Vec<u64>)
    ensures
        final(out)@ == old(out)@ + net_ids(v.value()),
    decreases v,
{
    let ghost before = out@;
    if let Value::Net(id, _, _) = v {
        out.push(*id);
        assert(out@ =~= before + net_ids(v.value()));
        return ;
    }
    match iface_fields(v) {
        Some(f) => {
            let ghost fv = f.deep_view();
            let n: usize = f.len();
            let mut i: usize = 0;
            assert(before + net_ids_in(fv.take(0)) =~= before);
            while i < n
                invariant
                    n == f@.len(),
                    fv == f.deep_view(),
                    i <= n,
                    decreases_to!(*v => f@),
                    out@ == before + net_ids_in(fv.take(i as int)),
                decreases n - i,
            {
                assert(decreases_to!(f@ => f@[i as int]));
                assert(decreases_to!(f@[i as int] => f@[i as int].1));
                collect_net_ids(&f[i].1, out);
                let ghost now = fv.take(i + 1);
                assert(now.drop_last() =~= fv.take(i as int));
                assert(out@ =~= before + net_ids_in(now));
                i += 1;
            }
            assert(fv.take(n as int) =~= fv);
        },
        None => {
            assert(net_ids(v.value()) =~= Seq::empty());
            assert(out@ =~= before + net_ids(v.value()));
        },
    }
}

/// The values of leaves.
pub open spec fn leaf_values(found: Seq<(String, &Value)>) -> Seq<(Seq<char>, ValueV)> {
    Seq::new(found.len(), |i: int| (found[i].0@, found[i].1.value()))
}

fn walk<'a>(v: &'a Value, prefix: &str, out: &mut Vec<(String, &'a Value)>)
    ensures
        leaf_values(final(out)@) == leaf_values(old(out)@) + leaves(v.value(), prefix@),
    decreases v,
{
    let ghost before = leaf_values(out@);
    match iface_fields(v) {
        Some(f) => {
            let ghost fv = f.deep_view();
            let n: usize = f.len();
            let mut i: usize = 0;
            assert(before + leaves_in(fv.take(0), prefix@) =~= before);
            while i < n
                invariant
                    n == f@.len(),
                    fv == f.deep_view(),
                    i <= n,
                    decreases_to!(*v => f@),
                    leaf_values(out@) == before + leaves_in(fv.take(i as int), prefix@),
                decreases n - i,
            {
                let ghost mid = leaf_values(out@);
                let ghost now = fv.take(i + 1);
                assert(now.drop_last() =~= fv.take(i as int));
                let path: String = if prefix.is_empty() {
                    f[i].0.clone()
                } else {
                    prefix.to_string().concat("_").concat(f[i].0.as_str())
                };
                assert(path@ == field_path(prefix@, fv[i as int].0));
                if is_net_field(&f[i].1) {
                    out.push((path, &f[i].1));
                    assert(leaf_values(out@) =~= mid + seq![(field_path(prefix@, fv[i as int].0), fv[i as int].1)]);
                } else {
                    assert(decreases_to!(f@ => f@[i as int]));
                    assert(decreases_to!(f@[i as int] => f@[i as int].1));
                    walk(&f[i].1, path.as_str(), out);
                }
                assert(leaf_values(out@) =~= before + leaves_in(now, prefix@));
                i += 1;
            }
            assert(fv.take(n as int) =~= fv);
        },
        None => {
            assert(leaf_values(out@) =~= before + leaves(v.value(), prefix@));
        },
    }
}

/// Net leaves, nested fields flattened into `_`-joined paths.
pub fn net_leaves(v: &Value) -> (r: Vec<(String, &Value)>)
    ensures
        leaf_values(r@) == net_leaves_of(v.value()),
{
    let mut out: Vec<(String, &Value)> = Vec::new();
    walk(v, "", &mut out);
    proof {
        reveal_strlit("");
        assert(""@ =~= Seq::empty());
    }
    assert(leaf_values(out@) =~= net_leaves_of(v.value()));
    out
}

/// Flattening can collide; one signal must not silently shadow the other.
pub fn check_signal_names(info: &IfaceInfo) -> (r: Result<(), String>)
    ensures
        match first_repeat(info.deep_view().signals) {
            Some(s) => r matches Err(e) && e@ == repeat_text(info.name@, s),
            None => r is Ok,
        },
{
    match repeated(&info.signals) {
        Some(s) => Err(
            "interface ".to_string().concat(info.name).concat(
                ": nested fields flatten to two signals named `",
            ).concat(s.as_str()).concat("` — rename one of them"),
        ),
        None => Ok(()),
    }
}

/// The first text that also stands earlier in the list.
pub fn repeated(list: &Vec<String>) -> (r: Option<String>)
    ensures
        r.deep_view() == first_repeat(list.deep_view()),
{
    let ghost all = list.deep_view();
    let n: usize = list.len();
    let mut seen: Vec<String> = Vec::new();
    let mut i: usize = 0;
    assert(seen.deep_view() =~= all.take(0));
    while i < n
        invariant
            n == list@.len(),
            all == list.deep_view(),
            i <= n,
            seen.deep_view() == all.take(i as int),
            first_repeat(all.take(i as int)) is None,
        decreases n - i,
    {
        let ghost now = all.take(i + 1);
        assert(now.drop_last() =~= all.take(i as int));
        if holds(&seen, list[i].as_str()) {
            proof {
                repeat_at_prefix(all, i + 1);
            }
            return Some(list[i].clone());
        }
        seen.push(list[i].clone());
        assert(seen.deep_view() =~= now);
        i += 1;
    }
    assert(all.take(n as int) =~= all);
    None
}

/// A repeat in the front of a list is the first repeat of the list.
proof fn repeat_at_prefix(list: Seq<Seq<char>>, k: int)
    requires
        0 <= k <= list.len(),
        first_repeat(list.take(k)) is Some,
    ensures
        first_repeat(list) == first_repeat(list.take(k)),
    decreases list.len() - k,
{
    if k < list.len() {
        let now = list.take(k + 1);
        assert(now.drop_last() =~= list.take(k));
        repeat_at_prefix(list, k + 1);
    } else {
        assert(list.take(k) =~= list);
    }
}

/// The interface type that a value is.
pub fn iface_info(v: &Value) -> (r: Option<IfaceInfo<'_>>)
    ensures
        match r {
            Some(info) => info_of(v.value()) == Some(info.deep_view()),
            None => info_of(v.value()) is None,
        },
{
    proof {
        contents_are_values(*v);
    }
    match v {
        Value::InterfaceType(h, _, i, a) => {
            let found = net_leaves(v);
            let mut signals: Vec<String> = Vec::new();
            let n: usize = found.len();
            let mut k: usize = 0;
            while k < n
                invariant
                    n == found@.len(),
                    k <= n,
                    signals@.len() == k,
                    forall|j: int| 0 <= j < k ==> (#[trigger] signals@[j])@ == found@[j].0@,
                decreases n - k,
            {
                signals.push(found[k].0.clone());
                k += 1;
            }
            assert(signals.deep_view() =~= paths(leaf_values(found@)));
            Some(IfaceInfo { id: h.id, name: h.name.as_str(), signals, implies: i, attr_specs: a })
        },
        _ => None,
    }
}

fn has_id<'a>(infos: &Vec<IfaceInfo<'a>>, id: u64) -> (r: bool)
    ensures
        r == ids_of(infos.deep_view()).contains(id),
{
    let ghost ids = ids_of(infos.deep_view());
    let mut i: usize = 0;
    while i < infos.len()
        invariant
            ids == ids_of(infos.deep_view()),
            i <= infos@.len(),
            forall|j: int| 0 <= j < i ==> ids[j] != id,
        decreases infos@.len() - i,
    {
        if infos[i].id == id {
            assert(ids[i as int] == id);
            return true;
        }
        i += 1;
    }
    false
}

/// The breadth-first closure of an interface type over the interfaces it implies.
pub fn iface_closure(root: &Value) -> (r: Result<Vec<IfaceInfo<'_>>, String>)
    ensures
        match r {
            Ok(infos) => closure(root.value()) == Ok::<Seq<InfoV>, Seq<char>>(infos.deep_view()),
            Err(e) => closure(root.value()) == Err::<Seq<InfoV>, Seq<char>>(e@),
        },
{
    let info = match iface_info(root) {
        Some(info) => info,
        None => {
            let t = root.get_type();
            return Err("expected an interface type, got `".to_string().concat(t.as_str()).concat("`"));
        },
    };
    if let Err(e) = check_signal_names(&info) {
        return Err(e);
    }
    let ghost whole = closure(root.value());
    let mut out: Vec<IfaceInfo> = Vec::new();
    let ghost first = info.deep_view();
    out.push(info);
    assert(out.deep_view() =~= seq![first]);
    let mut cursor: usize = 0;
    while cursor < out.len()
        invariant
            cursor <= out@.len(),
            whole == closure(root.value()),
            whole == closure_from(out.deep_view(), cursor as int),
        decreases pending(out.deep_view(), cursor as int),
    {
        let implied: &Vec<Value> = out[cursor].implies;
        let ghost iv = implied.deep_view();
        let ghost before = out.deep_view();
        proof {
            assert(iv == before[cursor as int].implies);
            pending_from_next(before, cursor as int);
            implied_adds(before, iv, cursor + 1);
        }
        let n: usize = implied.len();
        let mut i: usize = 0;
        assert(with_implied(before, iv.take(0)) == Ok::<Seq<InfoV>, Seq<char>>(out.deep_view()));
        while i < n
            invariant
                n == implied@.len(),
                iv == implied.deep_view(),
                i <= n,
                cursor < before.len(),
                iv == before[cursor as int].implies,
                whole == closure(root.value()),
                whole == closure_from(before, cursor as int),
                with_implied(before, iv.take(i as int)) == Ok::<Seq<InfoV>, Seq<char>>(out.deep_view()),
            decreases n - i,
        {
            let ghost so_far = out.deep_view();
            let ghost now = iv.take(i + 1);
            assert(now.drop_last() =~= iv.take(i as int));
            assert(now.last() == implied@[i as int].value());
            match iface_info(&implied[i]) {
                None => {
                    proof {
                        failure_stays(before, iv, i + 1);
                    }
                    return Err("interface(implies=...) entry is not an interface type".to_string());
                },
                Some(info) => {
                    let ghost added = info.deep_view();
                    if !has_id(&out, info.id) {
                        match check_signal_names(&info) {
                            Err(e) => {
                                proof {
                                    failure_stays(before, iv, i + 1);
                                }
                                return Err(e);
                            },
                            Ok(_) => {},
                        }
                        out.push(info);
                        assert(out.deep_view() =~= so_far.push(added));
                    }
                },
            }
            i += 1;
        }
        assert(iv.take(n as int) =~= iv);
        proof {
            implied_adds(before, iv, cursor as int);
        }
        cursor += 1;
    }
    Ok(out)
}

/// A failure in the front of the implied interfaces is the failure of all of them.
proof fn failure_stays(out: Seq<InfoV>, implied: Seq<ValueV>, k: int)
    requires
        0 <= k <= implied.len(),
        with_implied(out, implied.take(k)) is Err,
    ensures
        with_implied(out, implied) == with_implied(out, implied.take(k)),
    decreases implied.len() - k,
{
    if k < implied.len() {
        let now = implied.take(k + 1);
        assert(now.drop_last() =~= implied.take(k));
        failure_stays(out, implied, k + 1);
    } else {
        assert(implied.take(k) =~= implied);
    }
}

/// A closure begins with the interface type itself.
pub proof fn closure_begins_with_root(root: ValueV)
    ensures
        closure(root) matches Ok(infos) ==> infos.len() > 0 && info_of(root) == Some(infos[0]),
{
    match info_of(root) {
        Some(info) => {
            if first_repeat(info.signals) is None {
                closure_keeps_front(seq![info], 0);
            }
        },
        None => {},
    }
}

proof fn closure_keeps_front(out: Seq<InfoV>, cursor: int)
    requires
        0 <= cursor <= out.len(),
        out.len() > 0,
    ensures
        closure_from(out, cursor) matches Ok(infos) ==> infos.len() > 0 && infos[0] == out[0],
    decreases pending(out, cursor),
{
    if cursor < out.len() {
        pending_from_next(out, cursor);
        implied_adds(out, out[cursor].implies, cursor + 1);
        match with_implied(out, out[cursor].implies) {
            Ok(o) => {
                assert(o.take(out.len() as int)[0] == o[0]);
                closure_keeps_front(o, cursor + 1);
            },
            Err(_) => {},
        }
    }
}

/// No identity occurs twice in a closure.
pub proof fn closure_names_each_identity_once(root: ValueV)
    ensures
        closure(root) matches Ok(infos) ==> ids_of(infos).no_duplicates(),
{
    match info_of(root) {
        Some(info) => {
            if first_repeat(info.signals) is None {
                closure_keeps_ids_apart(seq![info], 0);
            }
        },
        None => {},
    }
}

proof fn implied_keeps_ids_apart(out: Seq<InfoV>, implied: Seq<ValueV>)
    requires
        ids_of(out).no_duplicates(),
    ensures
        with_implied(out, implied) matches Ok(o) ==> ids_of(o).no_duplicates(),
    decreases implied.len(),
{
    if implied.len() > 0 {
        implied_keeps_ids_apart(out, implied.drop_last());
        match with_implied(out, implied.drop_last()) {
            Ok(o) => {
                match info_of(implied.last()) {
                    Some(info) => {
                        assert(ids_of(o.push(info)) =~= ids_of(o).push(info.id));
                        if !ids_of(o).contains(info.id) {
                            let n = ids_of(o).push(info.id);
                            assert forall|i: int, j: int|
                                0 <= i < n.len() && 0 <= j < n.len() && i != j implies n[i] != n[j] by {
                                if i == o.len() {
                                    assert(ids_of(o).contains(ids_of(o)[j]));
                                } else if j == o.len() {
                                    assert(ids_of(o).contains(ids_of(o)[i]));
                                }
                            }
                        }
                    },
                    None => {},
                }
            },
            Err(_) => {},
        }
    }
}

proof fn closure_keeps_ids_apart(out: Seq<InfoV>, cursor: int)
    requires
        0 <= cursor <= out.len(),
        ids_of(out).no_duplicates(),
    ensures
        closure_from(out, cursor) matches Ok(infos) ==> ids_of(infos).no_duplicates(),
    decreases pending(out, cursor),
{
    if cursor < out.len() {
        pending_from_next(out, cursor);
        implied_adds(out, out[cursor].implies, cursor + 1);
        implied_keeps_ids_apart(out, out[cursor].implies);
        match with_implied(out, out[cursor].implies) {
            Ok(o) => closure_keeps_ids_apart(o, cursor + 1),
            Err(_) => {},
        }
    }
}

} // verus!
