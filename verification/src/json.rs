//! JSON trees and their mathematical values.
use vstd::prelude::*;

use crate::duplicate::Duplicate;
use crate::text::{lex_le, same, text_le};

verus! {

/// A JSON tree. An object lists its members in order, each name once.
pub enum Json {
    Null,
    Bool(bool),
    Int(i64),
    /// A number that is no 64-bit integer: its text, and whether it differs from zero.
    Float(String, bool),
    Str(String),
    Array(Vec<Json>),
    Object(Vec<(String, Json)>),
}

/// The value of a JSON tree.
pub enum JsonV {
    Null,
    Bool(bool),
    Int(i64),
    Float(Seq<char>, bool),
    Str(Seq<char>),
    Array(Seq<JsonV>),
    Object(Seq<(Seq<char>, JsonV)>),
}

impl Json {
    pub open spec fn value(self) -> JsonV
        decreases self,
    {
        match self {
            Json::Null => JsonV::Null,
            Json::Bool(b) => JsonV::Bool(b),
            Json::Int(i) => JsonV::Int(i),
            Json::Float(t, n) => JsonV::Float(t@, n),
            Json::Str(s) => JsonV::Str(s@),
            Json::Array(items) => JsonV::Array(
                Seq::new(
                    items@.len(),
                    |i: int|
                        if 0 <= i < items@.len() {
                            items@[i].value()
                        } else {
                            JsonV::Null
                        },
                ),
            ),
            Json::Object(members) => JsonV::Object(
                Seq::new(
                    members@.len(),
                    |i: int|
                        if 0 <= i < members@.len() {
                            (members@[i].0@, members@[i].1.value())
                        } else {
                            (Seq::empty(), JsonV::Null)
                        },
                ),
            ),
        }
    }

    /// A copy of the tree.
    pub fn copy(&self) -> (r: Json)
        ensures
            r.value() == self.value(),
        decreases self,
    {
        match self {
            Json::Null => Json::Null,
            Json::Bool(b) => Json::Bool(*b),
            Json::Int(i) => Json::Int(*i),
            Json::Float(t, n) => Json::Float(t.clone(), *n),
            Json::Str(s) => Json::Str(s.clone()),
            Json::Array(items) => {
                let mut out: Vec<Json> = Vec::new();
                let n: usize = items.len();
                let mut i: usize = 0;
                while i < n
                    invariant
                        n == items@.len(),
                        i <= n,
                        *self == Json::Array(*items),
                        out@.len() == i,
                        forall|j: int| 0 <= j < i ==> (#[trigger] out@[j]).value() == items@[j].value(),
                    decreases n - i,
                {
                    assert(decreases_to!(*self => self->Array_0));
                    assert(decreases_to!(*items => items@));
                    assert(decreases_to!(items@ => items@[i as int]));
                    out.push(items[i].copy());
                    i += 1;
                }
                let r = Json::Array(out);
                assert(r.value()->Array_0 =~= self.value()->Array_0);
                r
            },
            Json::Object(members) => {
                let mut out: Vec<(String, Json)> = Vec::new();
                let n: usize = members.len();
                let mut i: usize = 0;
                while i < n
                    invariant
                        n == members@.len(),
                        i <= n,
                        *self == Json::Object(*members),
                        out@.len() == i,
                        forall|j: int|
                            0 <= j < i ==> (#[trigger] out@[j]).0@ == members@[j].0@
                                && out@[j].1.value() == members@[j].1.value(),
                    decreases n - i,
                {
                    assert(decreases_to!(*self => self->Object_0));
                    assert(decreases_to!(*members => members@));
                    assert(decreases_to!(members@ => members@[i as int]));
                    assert(decreases_to!(members@[i as int] => members@[i as int].1));
                    out.push((members[i].0.clone(), members[i].1.copy()));
                    i += 1;
                }
                let r = Json::Object(out);
                assert(r.value()->Object_0 =~= self.value()->Object_0);
                r
            },
        }
    }
}

impl DeepView for Json {
    type V = JsonV;

    open spec fn deep_view(&self) -> JsonV {
        self.value()
    }
}

impl Duplicate for Json {
    fn duplicate(&self) -> (r: Self) {
        self.copy()
    }
}

/// The members with `key` set to `v`: in place of the member of that name, else before the
/// first member with a later name.
pub open spec fn member_put(members: Seq<(Seq<char>, JsonV)>, key: Seq<char>, v: JsonV) -> Seq<
    (Seq<char>, JsonV),
>
    decreases members.len(),
{
    if members.len() == 0 {
        seq![(key, v)]
    } else if members[0].0 == key {
        seq![(key, v)] + members.drop_first()
    } else if lex_le(key, members[0].0) {
        seq![(key, v)] + members
    } else {
        seq![members[0]] + member_put(members.drop_first(), key, v)
    }
}

/// The member of the given name.
pub open spec fn member_find(members: Seq<(Seq<char>, JsonV)>, key: Seq<char>) -> Option<JsonV>
    decreases members.len(),
{
    if members.len() == 0 {
        None
    } else if members[0].0 == key {
        Some(members[0].1)
    } else {
        member_find(members.drop_first(), key)
    }
}

/// What was put is found.
pub proof fn put_is_found(members: Seq<(Seq<char>, JsonV)>, key: Seq<char>, v: JsonV)
    ensures
        member_find(member_put(members, key, v), key) == Some(v),
    decreases members.len(),
{
    let r = member_put(members, key, v);
    if members.len() > 0 && members[0].0 != key && !lex_le(key, members[0].0) {
        put_is_found(members.drop_first(), key, v);
        assert(r.drop_first() =~= member_put(members.drop_first(), key, v));
    }
}

/// Putting a member leaves the others as they were.
pub proof fn put_keeps_others(
    members: Seq<(Seq<char>, JsonV)>,
    key: Seq<char>,
    v: JsonV,
    other: Seq<char>,
)
    requires
        other != key,
    ensures
        member_find(member_put(members, key, v), other) == member_find(members, other),
    decreases members.len(),
{
    let r = member_put(members, key, v);
    if members.len() == 0 {
        assert(r.drop_first() =~= members);
    } else if members[0].0 == key {
        assert(r.drop_first() =~= members.drop_first());
    } else if lex_le(key, members[0].0) {
        assert(r.drop_first() =~= members);
    } else {
        put_keeps_others(members.drop_first(), key, v, other);
        assert(r.drop_first() =~= member_put(members.drop_first(), key, v));
    }
}

proof fn put_at(members: Seq<(Seq<char>, JsonV)>, key: Seq<char>, v: JsonV, at: int)
    requires
        0 <= at <= members.len(),
        forall|i: int|
            0 <= i < at ==> (#[trigger] members[i]).0 != key && !lex_le(key, members[i].0),
        at < members.len() ==> members[at].0 == key || lex_le(key, members[at].0),
    ensures
        member_put(members, key, v) == if at < members.len() && members[at].0 == key {
            members.update(at, (key, v))
        } else {
            members.insert(at, (key, v))
        },
    decreases members.len(),
{
    let want = if at < members.len() && members[at].0 == key {
        members.update(at, (key, v))
    } else {
        members.insert(at, (key, v))
    };
    if at == 0 {
        assert(member_put(members, key, v) =~= want);
    } else {
        assert(members[0].0 != key && !lex_le(key, members[0].0));
        let rest = members.drop_first();
        assert forall|i: int| 0 <= i < at - 1 implies (#[trigger] rest[i]).0 != key && !lex_le(
            key,
            rest[i].0,
        ) by {
            assert(rest[i] == members[i + 1]);
        }
        put_at(rest, key, v, at - 1);
        assert(member_put(members, key, v) =~= want);
    }
}

/// Sets a member of an object.
pub fn put(members: &mut Vec<(String, Json)>, key: String, v: Json)
    ensures
        final(members).deep_view() == member_put(old(members).deep_view(), key@, v.value()),
{
    let ghost all = members.deep_view();
    let n: usize = members.len();
    let mut i: usize = 0;
    while i < n
        invariant
            *members == *old(members),
            n == members@.len(),
            all == members.deep_view(),
            i <= n,
            forall|j: int| 0 <= j < i ==> (#[trigger] all[j]).0 != key@ && !lex_le(key@, all[j].0),
        decreases n - i,
    {
        assert(all[i as int] == (members@[i as int].0@, members@[i as int].1.value()));
        if same(members[i].0.as_str(), key.as_str()) {
            proof {
                put_at(all, key@, v.value(), i as int);
            }
            let ghost want = all.update(i as int, (key@, v.value()));
            members.set(i, (key, v));
            assert(members.deep_view() =~= want);
            return ;
        }
        if text_le(key.as_str(), members[i].0.as_str()) {
            proof {
                put_at(all, key@, v.value(), i as int);
            }
            let ghost want = all.insert(i as int, (key@, v.value()));
            members.insert(i, (key, v));
            assert(members.deep_view() =~= want);
            return ;
        }
        i += 1;
    }
    proof {
        put_at(all, key@, v.value(), n as int);
    }
    let ghost want = all.insert(n as int, (key@, v.value()));
    members.push((key, v));
    assert(members.deep_view() =~= want);
}

/// The contents of a container are its items' values.
pub proof fn contents_are_json_values(v: Json)
    ensures
        match v {
            Json::Array(a) => v.value() == JsonV::Array(a.deep_view()),
            Json::Object(a) => v.value() == JsonV::Object(a.deep_view()),
            _ => true,
        },
{
    match v {
        Json::Array(a) => {
            assert(v.value()->Array_0 =~= a.deep_view());
        },
        Json::Object(a) => {
            assert(v.value()->Object_0 =~= a.deep_view());
        },
        _ => {},
    }
}

/// The member of the given name.
pub fn member<'a>(members: &'a Vec<(String, Json)>, key: &str) -> (r: Option<&'a Json>)
    ensures
        match r {
            Some(v) => member_find(members.deep_view(), key@) == Some(v.value()),
            None => member_find(members.deep_view(), key@) is None,
        },
{
    let ghost all = members.deep_view();
    let n: usize = members.len();
    let mut i: usize = 0;
    assert(all.skip(0) =~= all);
    while i < n
        invariant
            n == members@.len(),
            all == members.deep_view(),
            i <= n,
            member_find(all, key@) == member_find(all.skip(i as int), key@),
        decreases n - i,
    {
        assert(all.skip(i as int).drop_first() =~= all.skip(i + 1));
        assert(all.skip(i as int)[0] == (members@[i as int].0@, members@[i as int].1.value()));
        if same(members[i].0.as_str(), key) {
            return Some(&members[i].1);
        }
        i += 1;
    }
    None
}

/// The member of the given name, if `v` is an object that has it.
pub open spec fn json_find(v: JsonV, key: Seq<char>) -> Option<JsonV> {
    match v {
        JsonV::Object(m) => member_find(m, key),
        _ => None,
    }
}

/// The text that `v` is.
pub open spec fn json_text(v: JsonV) -> Option<Seq<char>> {
    match v {
        JsonV::Str(s) => Some(s),
        _ => None,
    }
}

/// The member of the given name, where it is a text.
pub open spec fn json_find_text(v: JsonV, key: Seq<char>) -> Option<Seq<char>> {
    match json_find(v, key) {
        Some(x) => json_text(x),
        None => None,
    }
}

/// The member of the given name, where it is an array.
pub open spec fn json_find_array(v: JsonV, key: Seq<char>) -> Option<Seq<JsonV>> {
    match json_find(v, key) {
        Some(JsonV::Array(a)) => Some(a),
        _ => None,
    }
}

impl Json {
    /// The member of the given name, if the value is an object that has it.
    pub fn get(&self, key: &str) -> (r: Option<&Json>)
        ensures
            match r {
                Some(v) => json_find(self.value(), key@) == Some(v.value()),
                None => json_find(self.value(), key@) is None,
            },
    {
        proof {
            contents_are_json_values(*self);
        }
        match self {
            Json::Object(m) => member(m, key),
            _ => None,
        }
    }

    /// The member of the given name, where it is a text.
    pub fn get_text(&self, key: &str) -> (r: Option<&String>)
        ensures
            match r {
                Some(s) => json_find_text(self.value(), key@) == Some(s@),
                None => json_find_text(self.value(), key@) is None,
            },
    {
        match self.get(key) {
            Some(Json::Str(s)) => Some(s),
            _ => None,
        }
    }

    /// The member of the given name, where it is an array.
    pub fn get_array(&self, key: &str) -> (r: Option<&Vec<Json>>)
        ensures
            match r {
                Some(a) => json_find_array(self.value(), key@) == Some(a.deep_view()),
                None => json_find_array(self.value(), key@) is None,
            },
    {
        match self.get(key) {
            Some(v) => {
                proof {
                    contents_are_json_values(*v);
                }
                match v {
                    Json::Array(a) => Some(a),
                    _ => None,
                }
            },
            None => None,
        }
    }
}

} // verus!
