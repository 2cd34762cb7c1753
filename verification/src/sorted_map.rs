//! Maps as lists of entries in key order.
use vstd::prelude::*;

use crate::order::Ranked;
use crate::text::lex_antisymmetric;

verus! {

/// Keys: values that their order tells apart.
pub trait Keyed: Ranked {
    proof fn rank_antisymmetric(a: Self::V, b: Self::V)
        requires
            Self::ranks_le(a, b),
            Self::ranks_le(b, a),
        ensures
            a == b,
    ;
}

impl Keyed for String {
    proof fn rank_antisymmetric(a: Seq<char>, b: Seq<char>) {
        lex_antisymmetric(a, b);
    }
}

impl Keyed for i64 {
    proof fn rank_antisymmetric(a: i64, b: i64) {
    }
}

/// The entries with `key` set to `v`: in place of the entry of that key, else before the first
/// entry with a later key.
pub open spec fn map_put<K: Keyed, V: DeepView>(
    entries: Seq<(K::V, V::V)>,
    key: K::V,
    v: V::V,
) -> Seq<(K::V, V::V)>
    decreases entries.len(),
{
    if entries.len() == 0 {
        seq![(key, v)]
    } else if entries[0].0 == key {
        seq![(key, v)] + entries.drop_first()
    } else if K::ranks_le(key, entries[0].0) {
        seq![(key, v)] + entries
    } else {
        seq![entries[0]] + map_put::<K, V>(entries.drop_first(), key, v)
    }
}

/// The value of the entry of the given key.
pub open spec fn map_find<A, B>(entries: Seq<(A, B)>, key: A) -> Option<B>
    decreases entries.len(),
{
    if entries.len() == 0 {
        None
    } else if entries[0].0 == key {
        Some(entries[0].1)
    } else {
        map_find(entries.drop_first(), key)
    }
}

/// The keys stand in strictly rising order.
pub open spec fn keys_rise<K: Keyed, V: DeepView>(entries: Seq<(K::V, V::V)>) -> bool {
    forall|i: int, j: int|
        0 <= i < j < entries.len() ==> K::ranks_le((#[trigger] entries[i]).0, (#[trigger] entries[j]).0)
            && entries[i].0 != entries[j].0
}

/// What was put is found; the other entries are as they were.
pub proof fn map_put_is_found<K: Keyed, V: DeepView>(
    entries: Seq<(K::V, V::V)>,
    key: K::V,
    v: V::V,
    other: K::V,
)
    ensures
        map_find(map_put::<K, V>(entries, key, v), other) == if other == key {
            Some(v)
        } else {
            map_find(entries, other)
        },
    decreases entries.len(),
{
    let r = map_put::<K, V>(entries, key, v);
    if entries.len() == 0 {
        assert(r.drop_first() =~= entries);
    } else if entries[0].0 == key {
        assert(r.drop_first() =~= entries.drop_first());
    } else if K::ranks_le(key, entries[0].0) {
        assert(r.drop_first() =~= entries);
    } else {
        map_put_is_found::<K, V>(entries.drop_first(), key, v, other);
        assert(r.drop_first() =~= map_put::<K, V>(entries.drop_first(), key, v));
    }
}

proof fn put_keys<K: Keyed, V: DeepView>(entries: Seq<(K::V, V::V)>, key: K::V, v: V::V)
    ensures
        forall|i: int|
            0 <= i < map_put::<K, V>(entries, key, v).len() ==> {
                ||| (#[trigger] map_put::<K, V>(entries, key, v)[i]).0 == key
                ||| exists|j: int|
                    0 <= j < entries.len() && (#[trigger] entries[j]).0 == map_put::<K, V>(
                        entries,
                        key,
                        v,
                    )[i].0
            },
    decreases entries.len(),
{
    let r = map_put::<K, V>(entries, key, v);
    if entries.len() > 0 {
        let rest = entries.drop_first();
        put_keys::<K, V>(rest, key, v);
        let q = map_put::<K, V>(rest, key, v);
        assert forall|i: int| 0 <= i < r.len() implies {
            ||| (#[trigger] r[i]).0 == key
            ||| exists|j: int| 0 <= j < entries.len() && (#[trigger] entries[j]).0 == r[i].0
        } by {
            if entries[0].0 == key {
                if i > 0 {
                    assert(entries[i].0 == r[i].0);
                }
            } else if K::ranks_le(key, entries[0].0) {
                if i > 0 {
                    assert(entries[i - 1].0 == r[i].0);
                }
            } else if i == 0 {
                assert(entries[0].0 == r[0].0);
            } else {
                assert(r[i] == q[i - 1]);
                if q[i - 1].0 != key {
                    let j = choose|j: int|
                        0 <= j < rest.len() && (#[trigger] rest[j]).0 == q[i - 1].0;
                    assert(entries[j + 1].0 == r[i].0);
                }
            }
        }
    }
}

/// Putting an entry keeps the keys in strictly rising order.
pub proof fn map_put_keeps_order<K: Keyed, V: DeepView>(
    entries: Seq<(K::V, V::V)>,
    key: K::V,
    v: V::V,
)
    requires
        keys_rise::<K, V>(entries),
    ensures
        keys_rise::<K, V>(map_put::<K, V>(entries, key, v)),
    decreases entries.len(),
{
    let r = map_put::<K, V>(entries, key, v);
    if entries.len() > 0 {
        let first = entries[0].0;
        let rest = entries.drop_first();
        assert(keys_rise::<K, V>(rest)) by {
            assert forall|i: int, j: int| 0 <= i < j < rest.len() implies K::ranks_le(
                (#[trigger] rest[i]).0,
                (#[trigger] rest[j]).0,
            ) && rest[i].0 != rest[j].0 by {
                assert(rest[i] == entries[i + 1]);
                assert(rest[j] == entries[j + 1]);
            }
        }
        if first == key {
            assert forall|i: int, j: int| 0 <= i < j < r.len() implies K::ranks_le(
                (#[trigger] r[i]).0,
                (#[trigger] r[j]).0,
            ) && r[i].0 != r[j].0 by {
                assert(r[i].0 == entries[i].0);
                assert(r[j].0 == entries[j].0);
            }
        } else if K::ranks_le(key, first) {
            assert forall|i: int, j: int| 0 <= i < j < r.len() implies K::ranks_le(
                (#[trigger] r[i]).0,
                (#[trigger] r[j]).0,
            ) && r[i].0 != r[j].0 by {
                assert(r[j] == entries[j - 1]);
                if i > 0 {
                    assert(r[i] == entries[i - 1]);
                } else if j > 1 {
                    assert(K::ranks_le(entries[0].0, entries[j - 1].0));
                    K::rank_trans(key, first, entries[j - 1].0);
                    if key == entries[j - 1].0 {
                        K::rank_antisymmetric(first, key);
                    }
                }
            }
        } else {
            K::rank_total(key, first);
            map_put_keeps_order::<K, V>(rest, key, v);
            put_keys::<K, V>(rest, key, v);
            let q = map_put::<K, V>(rest, key, v);
            assert forall|i: int, j: int| 0 <= i < j < r.len() implies K::ranks_le(
                (#[trigger] r[i]).0,
                (#[trigger] r[j]).0,
            ) && r[i].0 != r[j].0 by {
                assert(r[j] == q[j - 1]);
                if i > 0 {
                    assert(r[i] == q[i - 1]);
                } else if q[j - 1].0 != key {
                    let k = choose|k: int|
                        0 <= k < rest.len() && (#[trigger] rest[k]).0 == q[j - 1].0;
                    assert(rest[k] == entries[k + 1]);
                    assert(entries[0].0 != entries[k + 1].0);
                }
            }
        }
    }
}

proof fn put_at<K: Keyed, V: DeepView>(
    entries: Seq<(K::V, V::V)>,
    key: K::V,
    v: V::V,
    at: int,
)
    requires
        0 <= at <= entries.len(),
        forall|i: int|
            0 <= i < at ==> (#[trigger] entries[i]).0 != key && !K::ranks_le(key, entries[i].0),
        at < entries.len() ==> entries[at].0 == key || K::ranks_le(key, entries[at].0),
    ensures
        map_put::<K, V>(entries, key, v) == if at < entries.len() && entries[at].0 == key {
            entries.update(at, (key, v))
        } else {
            entries.insert(at, (key, v))
        },
    decreases entries.len(),
{
    let want = if at < entries.len() && entries[at].0 == key {
        entries.update(at, (key, v))
    } else {
        entries.insert(at, (key, v))
    };
    if at == 0 {
        assert(map_put::<K, V>(entries, key, v) =~= want);
    } else {
        assert(entries[0].0 != key && !K::ranks_le(key, entries[0].0));
        let rest = entries.drop_first();
        assert forall|i: int| 0 <= i < at - 1 implies (#[trigger] rest[i]).0 != key
            && !K::ranks_le(key, rest[i].0) by {
            assert(rest[i] == entries[i + 1]);
        }
        put_at::<K, V>(rest, key, v, at - 1);
        assert(map_put::<K, V>(entries, key, v) =~= want);
    }
}

/// Whether two keys are the same.
pub fn same_key<K: Keyed>(a: &K, b: &K) -> (r: bool)
    ensures
        r == (a.deep_view() == b.deep_view()),
{
    proof {
        K::rank_total(a.deep_view(), a.deep_view());
        if K::ranks_le(a.deep_view(), b.deep_view()) && K::ranks_le(
            b.deep_view(),
            a.deep_view(),
        ) {
            K::rank_antisymmetric(a.deep_view(), b.deep_view());
        }
    }
    let x: bool = a.no_later(b);
    let y: bool = b.no_later(a);
    x && y
}

/// Sets the entry of a key.
pub fn put_entry<K: Keyed, V: DeepView>(entries: &mut Vec<(K, V)>, key: K, v: V)
    ensures
        final(entries).deep_view() == map_put::<K, V>(
            old(entries).deep_view(),
            key.deep_view(),
            v.deep_view(),
        ),
{
    let ghost all = entries.deep_view();
    let ghost kv = key.deep_view();
    let ghost vv = v.deep_view();
    let n: usize = entries.len();
    let mut i: usize = 0;
    while i < n
        invariant
            *entries == *old(entries),
            n == entries@.len(),
            all == entries.deep_view(),
            kv == key.deep_view(),
            vv == v.deep_view(),
            i <= n,
            forall|j: int|
                0 <= j < i ==> (#[trigger] all[j]).0 != kv && !K::ranks_le(kv, all[j].0),
        decreases n - i,
    {
        assert(all[i as int] == entries@[i as int].deep_view());
        if same_key(&entries[i].0, &key) {
            proof {
                put_at::<K, V>(all, kv, vv, i as int);
            }
            let ghost want = all.update(i as int, (kv, vv));
            entries.set(i, (key, v));
            assert(entries.deep_view() =~= want);
            return ;
        }
        if key.no_later(&entries[i].0) {
            proof {
                put_at::<K, V>(all, kv, vv, i as int);
            }
            let ghost want = all.insert(i as int, (kv, vv));
            entries.insert(i, (key, v));
            assert(entries.deep_view() =~= want);
            return ;
        }
        i += 1;
    }
    proof {
        put_at::<K, V>(all, kv, vv, n as int);
    }
    let ghost want = all.insert(n as int, (kv, vv));
    entries.push((key, v));
    assert(entries.deep_view() =~= want);
}

/// The value of the entry of the given key.
pub fn entry<'a, K: Keyed, V: DeepView>(entries: &'a Vec<(K, V)>, key: &K) -> (r: Option<&'a V>)
    ensures
        match r {
            Some(v) => map_find(entries.deep_view(), key.deep_view()) == Some(v.deep_view()),
            None => map_find(entries.deep_view(), key.deep_view()) is None,
        },
{
    let ghost all = entries.deep_view();
    let ghost kv = key.deep_view();
    let n: usize = entries.len();
    let mut i: usize = 0;
    assert(all.skip(0) =~= all);
    while i < n
        invariant
            n == entries@.len(),
            all == entries.deep_view(),
            kv == key.deep_view(),
            i <= n,
            map_find(all, kv) == map_find(all.skip(i as int), kv),
        decreases n - i,
    {
        assert(all.skip(i as int).drop_first() =~= all.skip(i + 1));
        assert(all.skip(i as int)[0] == entries@[i as int].deep_view());
        if same_key(&entries[i].0, key) {
            return Some(&entries[i].1);
        }
        i += 1;
    }
    None
}

/// An entry is found only where one with its key stands.
pub proof fn found_entries_stand<A, B>(entries: Seq<(A, B)>, key: A)
    ensures
        map_find(entries, key) is Some ==> exists|i: int|
            0 <= i < entries.len() && (#[trigger] entries[i]).0 == key,
    decreases entries.len(),
{
    if entries.len() > 0 && entries[0].0 != key {
        let rest = entries.drop_first();
        found_entries_stand(rest, key);
        if map_find(entries, key) is Some {
            let i = choose|i: int| 0 <= i < rest.len() && (#[trigger] rest[i]).0 == key;
            assert(entries[i + 1].0 == key);
        }
    }
}

/// The sum of the counts.
pub open spec fn count_total<A>(entries: Seq<(A, usize)>) -> nat
    decreases entries.len(),
{
    if entries.len() == 0 {
        0
    } else {
        entries[0].1 as nat + count_total(entries.drop_first())
    }
}

/// Putting a count changes the sum by as much as it changes the count of its key.
pub proof fn put_changes_total<K: Keyed>(entries: Seq<(K::V, usize)>, key: K::V, v: usize)
    requires
        keys_rise::<K, usize>(entries),
    ensures
        count_total(map_put::<K, usize>(entries, key, v)) == count_total(entries) + v - match map_find(
            entries,
            key,
        ) {
            Some(n) => n as int,
            None => 0,
        },
    decreases entries.len(),
{
    let r = map_put::<K, usize>(entries, key, v);
    if entries.len() == 0 {
        assert(r.drop_first() =~= entries);
    } else {
        let first = entries[0].0;
        let rest = entries.drop_first();
        if first == key {
            assert(r.drop_first() =~= rest);
        } else if K::ranks_le(key, first) {
            assert(r.drop_first() =~= entries);
            found_entries_stand(entries, key);
            if map_find(entries, key) is Some {
                let i = choose|i: int| 0 <= i < entries.len() && (#[trigger] entries[i]).0 == key;
                assert(K::ranks_le(entries[0].0, entries[i].0));
                K::rank_antisymmetric(first, key);
            }
        } else {
            assert forall|i: int, j: int| 0 <= i < j < rest.len() implies K::ranks_le(
                (#[trigger] rest[i]).0,
                (#[trigger] rest[j]).0,
            ) && rest[i].0 != rest[j].0 by {
                assert(rest[i] == entries[i + 1]);
                assert(rest[j] == entries[j + 1]);
            }
            put_changes_total::<K>(rest, key, v);
            assert(r.drop_first() =~= map_put::<K, usize>(rest, key, v));
        }
    }
}

} // verus!
