//! Merging a solve into the properties of its module: the assignment and the swap classes of
//! earlier solves stay live, minus what this solve consumed.
use vstd::prelude::*;

use crate::duplicate::Duplicate;
use crate::json::{
    contents_are_json_values, json_find_array, json_find_text, json_text, member, member_find,
    member_put, put, Json, JsonV,
};
use crate::order::{in_order, sorted};
use crate::pinmux::report::{make_text_array, not_in, text_array};
use crate::pinmux::swaps::{keep_not_in, ClusterClass, ClusterClassV, PoolClass, PoolClassV};
use crate::steps::{only, only_one_more};
use crate::text::{holds, same};

verus! {

/// A class is reported: it has two members, or one member and a spare.
pub open spec fn emits(members: nat, spares: nat) -> bool {
    members >= 2 || (members > 0 && spares > 0)
}

fn is_reported(members: usize, spares: usize) -> (r: bool)
    ensures
        r == emits(members as nat, spares as nat),
{
    members >= 2 || (members > 0 && spares > 0)
}

/// One member of a class.
pub open spec fn member_json(m: (Seq<char>, Seq<char>), key: Seq<char>) -> JsonV {
    JsonV::Object(
        member_put(
            member_put(Seq::empty(), "request"@, JsonV::Str(m.0)),
            key,
            JsonV::Str(m.1),
        ),
    )
}

/// The members of a class.
pub open spec fn members_json(members: Seq<(Seq<char>, Seq<char>)>, key: Seq<char>) -> JsonV {
    JsonV::Array(Seq::new(members.len(), |i: int| member_json(members[i], key)))
}

/// The report of a pool's class.
pub open spec fn pool_class_json(c: PoolClassV) -> JsonV {
    let m1 = member_put(Seq::empty(), "granularity"@, JsonV::Str("pin"@));
    let m2 = member_put(m1, "rebind"@, JsonV::Str(c.rebind));
    let m3 = member_put(m2, "pool"@, JsonV::Str(c.pool));
    let m4 = member_put(m3, "members"@, members_json(c.members, "pin"@));
    JsonV::Object(member_put(m4, "spare_pins"@, text_array(c.spares)))
}

/// The report of a cluster's class.
pub open spec fn cluster_class_json(
    members: Seq<(Seq<char>, Seq<char>)>,
    spares: Seq<Seq<char>>,
) -> JsonV {
    let m1 = member_put(Seq::empty(), "granularity"@, JsonV::Str("cluster"@));
    let m2 = member_put(m1, "rebind"@, JsonV::Str("none"@));
    let m3 = member_put(m2, "members"@, members_json(members, "instance"@));
    JsonV::Object(member_put(m3, "spare_units"@, text_array(spares)))
}

/// The reports of the pools' classes that are reported.
pub open spec fn pool_reports(classes: Seq<PoolClassV>) -> Seq<JsonV>
    decreases classes.len(),
{
    if classes.len() == 0 {
        Seq::empty()
    } else {
        let front = pool_reports(classes.drop_last());
        let c = classes.last();
        if emits(c.members.len(), c.spares.len()) {
            front.push(pool_class_json(c))
        } else {
            front
        }
    }
}

/// The reports of the clusters' classes that are reported.
pub open spec fn cluster_reports(classes: Seq<ClusterClassV>) -> Seq<JsonV>
    decreases classes.len(),
{
    if classes.len() == 0 {
        Seq::empty()
    } else {
        let front = cluster_reports(classes.drop_last());
        let c = classes.last();
        if emits(c.members.len(), c.spares.len()) {
            front.push(cluster_class_json(c.members, c.spares))
        } else {
            front
        }
    }
}

/// The swap classes of a solve.
pub open spec fn swap_reports(pools: Seq<PoolClassV>, clusters: Seq<ClusterClassV>) -> Seq<JsonV> {
    pool_reports(pools) + cluster_reports(clusters)
}

fn make_members(members: &Vec<(String, String)>, key: &str) -> (r: Json)
    ensures
        r.value() == members_json(members.deep_view(), key@),
{
    let ghost mv = members.deep_view();
    let n: usize = members.len();
    let mut out: Vec<Json> = Vec::new();
    let mut i: usize = 0;
    while i < n
        invariant
            n == members@.len(),
            mv == members.deep_view(),
            i <= n,
            out@.len() == i,
            forall|j: int| 0 <= j < i ==> (#[trigger] out@[j]).value() == member_json(mv[j], key@),
        decreases n - i,
    {
        assert(mv[i as int] == (members@[i as int].0@, members@[i as int].1@));
        let mut m: Vec<(String, Json)> = Vec::new();
        assert(m.deep_view() =~= Seq::empty());
        put(&mut m, "request".to_string(), Json::Str(members[i].0.clone()));
        put(&mut m, key.to_string(), Json::Str(members[i].1.clone()));
        let o = Json::Object(m);
        proof {
            contents_are_json_values(o);
        }
        out.push(o);
        i += 1;
    }
    let r = Json::Array(out);
    proof {
        contents_are_json_values(r);
        assert(out.deep_view() =~= members_json(mv, key@)->Array_0);
    }
    r
}

fn make_pool_class(
    pool: &str,
    rebind: &str,
    members: &Vec<(String, String)>,
    spares: &Vec<String>,
) -> (r: Json)
    ensures
        r.value() == pool_class_json(
            (PoolClassV {
                pool: pool@,
                rebind: rebind@,
                members: members.deep_view(),
                spares: spares.deep_view(),
            }),
        ),
{
    let mut m: Vec<(String, Json)> = Vec::new();
    assert(m.deep_view() =~= Seq::empty());
    put(&mut m, "granularity".to_string(), Json::Str("pin".to_string()));
    put(&mut m, "rebind".to_string(), Json::Str(rebind.to_string()));
    put(&mut m, "pool".to_string(), Json::Str(pool.to_string()));
    put(&mut m, "members".to_string(), make_members(members, "pin"));
    put(&mut m, "spare_pins".to_string(), make_text_array(spares));
    let o = Json::Object(m);
    proof {
        contents_are_json_values(o);
    }
    o
}

fn make_cluster_class(members: &Vec<(String, String)>, spares: &Vec<String>) -> (r: Json)
    ensures
        r.value() == cluster_class_json(members.deep_view(), spares.deep_view()),
{
    let mut m: Vec<(String, Json)> = Vec::new();
    assert(m.deep_view() =~= Seq::empty());
    put(&mut m, "granularity".to_string(), Json::Str("cluster".to_string()));
    put(&mut m, "rebind".to_string(), Json::Str("none".to_string()));
    put(&mut m, "members".to_string(), make_members(members, "instance"));
    put(&mut m, "spare_units".to_string(), make_text_array(spares));
    let o = Json::Object(m);
    proof {
        contents_are_json_values(o);
    }
    o
}

/// Appends the reports of the classes.
fn add_reports(pools: &Vec<PoolClass>, clusters: &Vec<ClusterClass>, out: &mut Vec<Json>)
    ensures
        final(out).deep_view() == old(out).deep_view() + swap_reports(
            pools.deep_view(),
            clusters.deep_view(),
        ),
{
    let ghost base = out.deep_view();
    let ghost pv = pools.deep_view();
    let ghost cv = clusters.deep_view();
    let n: usize = pools.len();
    let mut i: usize = 0;
    assert(base + pool_reports(pv.take(0)) =~= base);
    while i < n
        invariant
            n == pools@.len(),
            pv == pools.deep_view(),
            i <= n,
            out.deep_view() == base + pool_reports(pv.take(i as int)),
        decreases n - i,
    {
        let ghost before = out.deep_view();
        assert(pv.take(i + 1).drop_last() =~= pv.take(i as int));
        let c = &pools[i];
        assert(pv[i as int] == c.deep_view());
        if is_reported(c.members.len(), c.spares.len()) {
            out.push(make_pool_class(c.pool.as_str(), c.rebind.as_str(), &c.members, &c.spares));
            assert(out.deep_view() =~= before.push(pool_class_json(pv[i as int])));
        }
        assert(out.deep_view() =~= base + pool_reports(pv.take(i + 1)));
        i += 1;
    }
    assert(pv.take(n as int) =~= pv);
    let ghost mid = out.deep_view();
    let m: usize = clusters.len();
    let mut k: usize = 0;
    assert(mid + cluster_reports(cv.take(0)) =~= mid);
    while k < m
        invariant
            m == clusters@.len(),
            cv == clusters.deep_view(),
            k <= m,
            out.deep_view() == mid + cluster_reports(cv.take(k as int)),
        decreases m - k,
    {
        let ghost before = out.deep_view();
        assert(cv.take(k + 1).drop_last() =~= cv.take(k as int));
        let c = &clusters[k];
        assert(cv[k as int] == c.deep_view());
        if is_reported(c.members.len(), c.spares.len()) {
            out.push(make_cluster_class(&c.members, &c.spares));
            assert(out.deep_view() =~= before.push(
                cluster_class_json(cv[k as int].members, cv[k as int].spares),
            ));
        }
        assert(out.deep_view() =~= mid + cluster_reports(cv.take(k + 1)));
        k += 1;
    }
    assert(cv.take(m as int) =~= cv);
    assert(out.deep_view() =~= base + swap_reports(pv, cv));
}

/// The swap classes of a solve.
pub fn make_swap_reports(pools: &Vec<PoolClass>, clusters: &Vec<ClusterClass>) -> (r: Vec<Json>)
    ensures
        r.deep_view() == swap_reports(pools.deep_view(), clusters.deep_view()),
{
    let mut out: Vec<Json> = Vec::new();
    assert(out.deep_view() =~= Seq::empty());
    add_reports(pools, clusters, &mut out);
    assert(out.deep_view() =~= swap_reports(pools.deep_view(), clusters.deep_view()));
    out
}

/// No text of the names.
pub open spec fn not_text_in(names: Seq<Seq<char>>) -> spec_fn(JsonV) -> bool {
    |j: JsonV|
        match json_text(j) {
            Some(t) => !names.contains(t),
            None => true,
        }
}

/// The alternates without the pins in use; lists that this empties are dropped.
pub open spec fn trimmed_alternates(alts: Seq<(Seq<char>, JsonV)>, used: Seq<Seq<char>>) -> Seq<
    (Seq<char>, JsonV),
>
    decreases alts.len(),
{
    if alts.len() == 0 {
        Seq::empty()
    } else {
        let front = trimmed_alternates(alts.drop_last(), used);
        match alts.last().1 {
            JsonV::Array(a) => {
                let left = only(a, not_text_in(used));
                if left.len() > 0 {
                    front.push((alts.last().0, JsonV::Array(left)))
                } else {
                    front
                }
            },
            _ => front.push(alts.last()),
        }
    }
}

/// The members with the alternates trimmed.
pub open spec fn with_trimmed(members: Seq<(Seq<char>, JsonV)>, used: Seq<Seq<char>>) -> Seq<
    (Seq<char>, JsonV),
> {
    match member_find(members, "alternates"@) {
        Some(JsonV::Object(alts)) => member_put(
            members,
            "alternates"@,
            JsonV::Object(trimmed_alternates(alts, used)),
        ),
        _ => members,
    }
}

/// An entry of an earlier solve: where it sits on a part of this table, its alternates are net
/// of the pins in use; else it stays as it is.
pub open spec fn kept_entry(v: JsonV, ours: Seq<Seq<char>>, used: Seq<Seq<char>>) -> JsonV {
    let mine = match json_find_text(v, "instance"@) {
        Some(i) => ours.contains(i),
        None => false,
    };
    match v {
        JsonV::Object(members) => if mine {
            JsonV::Object(with_trimmed(members, used))
        } else {
            v
        },
        _ => v,
    }
}

/// The assignment with the entries of earlier solves that this one did not solve again.
pub open spec fn merged_assignment(
    cur: Seq<(Seq<char>, JsonV)>,
    prior: Seq<(Seq<char>, JsonV)>,
    ours: Seq<Seq<char>>,
    used: Seq<Seq<char>>,
) -> Seq<(Seq<char>, JsonV)>
    decreases prior.len(),
{
    if prior.len() == 0 {
        cur
    } else {
        let front = merged_assignment(cur, prior.drop_last(), ours, used);
        if member_find(front, prior.last().0) is Some {
            front
        } else {
            member_put(front, prior.last().0, kept_entry(prior.last().1, ours, used))
        }
    }
}

fn trim_array(a: &Vec<Json>, used: &Vec<String>) -> (r: Vec<Json>)
    ensures
        r.deep_view() == only(a.deep_view(), not_text_in(used.deep_view())),
{
    let ghost av = a.deep_view();
    let ghost test = not_text_in(used.deep_view());
    let n: usize = a.len();
    let mut out: Vec<Json> = Vec::new();
    let mut i: usize = 0;
    assert(out.deep_view() =~= Seq::empty());
    while i < n
        invariant
            n == a@.len(),
            av == a.deep_view(),
            test == not_text_in(used.deep_view()),
            i <= n,
            out.deep_view() == only(av.take(i as int), test),
        decreases n - i,
    {
        let ghost before = out.deep_view();
        proof {
            only_one_more(av, test, i as int);
        }
        assert(av[i as int] == a@[i as int].value());
        let keep = match &a[i] {
            Json::Str(t) => !holds(used, t.as_str()),
            _ => true,
        };
        if keep {
            out.push(a[i].copy());
            assert(out.deep_view() =~= before.push(av[i as int]));
        }
        i += 1;
    }
    assert(av.take(n as int) =~= av);
    out
}

fn trim_alternates(alts: &Vec<(String, Json)>, used: &Vec<String>) -> (r: Vec<(String, Json)>)
    ensures
        r.deep_view() == trimmed_alternates(alts.deep_view(), used.deep_view()),
{
    let ghost av = alts.deep_view();
    let ghost uv = used.deep_view();
    let n: usize = alts.len();
    let mut out: Vec<(String, Json)> = Vec::new();
    let mut i: usize = 0;
    assert(out.deep_view() =~= Seq::empty());
    while i < n
        invariant
            n == alts@.len(),
            av == alts.deep_view(),
            uv == used.deep_view(),
            i <= n,
            out.deep_view() == trimmed_alternates(av.take(i as int), uv),
        decreases n - i,
    {
        let ghost before = out.deep_view();
        assert(av.take(i + 1).drop_last() =~= av.take(i as int));
        assert(av[i as int] == (alts@[i as int].0@, alts@[i as int].1.value()));
        proof {
            contents_are_json_values(alts@[i as int].1);
        }
        match &alts[i].1 {
            Json::Array(a) => {
                let left = trim_array(a, used);
                let ghost lv = left.deep_view();
                if left.len() > 0 {
                    let j = Json::Array(left);
                    proof {
                        contents_are_json_values(j);
                    }
                    out.push((alts[i].0.clone(), j));
                    assert(out.deep_view() =~= before.push((av[i as int].0, JsonV::Array(lv))));
                }
            },
            other => {
                out.push((alts[i].0.clone(), other.copy()));
                assert(out.deep_view() =~= before.push(av[i as int]));
            },
        }
        i += 1;
    }
    assert(av.take(n as int) =~= av);
    out
}

fn keep_entry(v: &Json, ours: &Vec<String>, used: &Vec<String>) -> (r: Json)
    ensures
        r.value() == kept_entry(v.value(), ours.deep_view(), used.deep_view()),
{
    let mine = match v.get_text("instance") {
        Some(i) => holds(ours, i.as_str()),
        None => false,
    };
    if !mine {
        return v.copy();
    }
    proof {
        contents_are_json_values(*v);
    }
    match v {
        Json::Object(members) => {
            let mut out = members.duplicate();
            if let Some(alts) = member(members, "alternates") {
                proof {
                    contents_are_json_values(*alts);
                }
                if let Json::Object(list) = alts {
                    let left = Json::Object(trim_alternates(list, used));
                    proof {
                        contents_are_json_values(left);
                    }
                    put(&mut out, "alternates".to_string(), left);
                }
            }
            let r = Json::Object(out);
            proof {
                contents_are_json_values(r);
            }
            r
        },
        other => other.copy(),
    }
}

/// The assignment with the entries of earlier solves that this one did not solve again.
pub fn merge_assignment(
    cur: &Vec<(String, Json)>,
    prior: &Vec<(String, Json)>,
    ours: &Vec<String>,
    used: &Vec<String>,
) -> (r: Vec<(String, Json)>)
    ensures
        r.deep_view() == merged_assignment(
            cur.deep_view(),
            prior.deep_view(),
            ours.deep_view(),
            used.deep_view(),
        ),
{
    let ghost cv = cur.deep_view();
    let ghost pv = prior.deep_view();
    let ghost ov = ours.deep_view();
    let ghost uv = used.deep_view();
    let n: usize = prior.len();
    let mut out = cur.duplicate();
    let mut i: usize = 0;
    assert(pv.take(0) =~= Seq::empty());
    while i < n
        invariant
            n == prior@.len(),
            cv == cur.deep_view(),
            pv == prior.deep_view(),
            ov == ours.deep_view(),
            uv == used.deep_view(),
            i <= n,
            out.deep_view() == merged_assignment(cv, pv.take(i as int), ov, uv),
        decreases n - i,
    {
        assert(pv.take(i + 1).drop_last() =~= pv.take(i as int));
        assert(pv[i as int] == (prior@[i as int].0@, prior@[i as int].1.value()));
        if member(&out, prior[i].0.as_str()).is_none() {
            let kept = keep_entry(&prior[i].1, ours, used);
            put(&mut out, prior[i].0.clone(), kept);
        }
        i += 1;
    }
    assert(pv.take(n as int) =~= pv);
    out
}

/// The member of a class that is still live: its request was not solved again.
pub open spec fn live_member(m: JsonV, key: Seq<char>, solved: Seq<Seq<char>>) -> Option<
    (Seq<char>, Seq<char>),
> {
    match (json_find_text(m, "request"@), json_find_text(m, key)) {
        (Some(r), Some(v)) => if solved.contains(r) {
            None
        } else {
            Some((r, v))
        },
        _ => None,
    }
}

/// The members that are still live.
pub open spec fn live_in(members: Seq<JsonV>, key: Seq<char>, solved: Seq<Seq<char>>) -> Seq<
    (Seq<char>, Seq<char>),
>
    decreases members.len(),
{
    if members.len() == 0 {
        Seq::empty()
    } else {
        let front = live_in(members.drop_last(), key, solved);
        match live_member(members.last(), key, solved) {
            Some(m) => front.push(m),
            None => front,
        }
    }
}

/// The live members of a class.
pub open spec fn live_members(class: JsonV, key: Seq<char>, solved: Seq<Seq<char>>) -> Seq<
    (Seq<char>, Seq<char>),
> {
    match json_find_array(class, "members"@) {
        Some(m) => live_in(m, key, solved),
        None => Seq::empty(),
    }
}

/// The texts of an array.
pub open spec fn texts_of(list: Seq<JsonV>) -> Seq<Seq<char>>
    decreases list.len(),
{
    if list.len() == 0 {
        Seq::empty()
    } else {
        let front = texts_of(list.drop_last());
        match json_text(list.last()) {
            Some(t) => front.push(t),
            None => front,
        }
    }
}

/// The texts under a name.
pub open spec fn texts_under(class: JsonV, key: Seq<char>) -> Seq<Seq<char>> {
    match json_find_array(class, key) {
        Some(a) => texts_of(a),
        None => Seq::empty(),
    }
}

/// The instances that the members name.
pub open spec fn instances_in(members: Seq<JsonV>) -> Seq<Seq<char>>
    decreases members.len(),
{
    if members.len() == 0 {
        Seq::empty()
    } else {
        let front = instances_in(members.drop_last());
        match json_find_text(members.last(), "instance"@) {
            Some(t) => front.push(t),
            None => front,
        }
    }
}

/// The units of an earlier cluster: those of its members and its spares.
pub open spec fn prior_units(class: JsonV) -> Seq<Seq<char>> {
    (match json_find_array(class, "members"@) {
        Some(m) => instances_in(m),
        None => Seq::empty(),
    }) + texts_under(class, "spare_units"@)
}

/// What the merge of the swap classes has come to.
#[verifier::ext_equal]
pub struct MergeV {
    pub pools: Seq<PoolClassV>,
    pub clusters: Seq<ClusterClassV>,
    pub merged: Seq<JsonV>,
}

/// What the solve knows when it merges: the requests solved, the parts and pools of its table,
/// the pins and instances in use.
#[verifier::ext_equal]
pub struct KnownV {
    pub solved: Seq<Seq<char>>,
    pub ours: Seq<Seq<char>>,
    pub our_pools: Seq<Seq<char>>,
    pub used: Seq<Seq<char>>,
    pub taken: Seq<Seq<char>>,
}

/// What the solve knows when it merges.
pub struct Known {
    pub solved: Vec<String>,
    pub ours: Vec<String>,
    pub our_pools: Vec<String>,
    pub used: Vec<String>,
    pub taken: Vec<String>,
}

impl DeepView for Known {
    type V = KnownV;

    open spec fn deep_view(&self) -> KnownV {
        KnownV {
            solved: self.solved.deep_view(),
            ours: self.ours.deep_view(),
            our_pools: self.our_pools.deep_view(),
            used: self.used.deep_view(),
            taken: self.taken.deep_view(),
        }
    }
}

/// The place of the first class of a pool.
pub open spec fn pool_place(pools: Seq<PoolClassV>, pool: Seq<char>) -> Option<int>
    decreases pools.len(),
{
    if pools.len() == 0 {
        None
    } else {
        match pool_place(pools.drop_last(), pool) {
            Some(i) => Some(i),
            None => if pools.last().pool == pool {
                Some(pools.len() - 1)
            } else {
                None
            },
        }
    }
}

/// The two lists have a text in common.
pub open spec fn overlap(a: Seq<Seq<char>>, b: Seq<Seq<char>>) -> bool {
    exists|i: int| 0 <= i < a.len() && b.contains(#[trigger] a[i])
}

/// The place of the first class with one of the units.
pub open spec fn cluster_place(clusters: Seq<ClusterClassV>, units: Seq<Seq<char>>) -> Option<int>
    decreases clusters.len(),
{
    if clusters.len() == 0 {
        None
    } else {
        match cluster_place(clusters.drop_last(), units) {
            Some(i) => Some(i),
            None => if overlap(clusters.last().units, units) {
                Some(clusters.len() - 1)
            } else {
                None
            },
        }
    }
}

/// A text, or the one to take where there is none.
pub open spec fn text_or(t: Option<Seq<char>>, other: Seq<char>) -> Seq<char> {
    match t {
        Some(t) => t,
        None => other,
    }
}

/// The spares that are left: on silicon of this table, those not in use.
pub open spec fn spares_left(list: Seq<Seq<char>>, mine: bool, used: Seq<Seq<char>>) -> Seq<Seq<char>> {
    if mine {
        only(list, not_in(used))
    } else {
        list
    }
}

/// Takes one class of an earlier solve: its members fold into the fresh class of the same pool
/// or cluster; a pool or cluster that this solve did not place on is kept.
pub open spec fn merge_class(s: MergeV, class: JsonV, k: KnownV) -> MergeV {
    if json_find_text(class, "granularity"@) == Some("pin"@) {
        let live = live_members(class, "pin"@, k.solved);
        let pool = text_or(json_find_text(class, "pool"@), Seq::empty());
        match pool_place(s.pools, pool) {
            Some(i) => MergeV {
                pools: s.pools.update(
                    i,
                    PoolClassV {
                        members: sorted::<(String, String)>(s.pools[i].members + live),
                        ..s.pools[i]
                    },
                ),
                ..s
            },
            None => {
                let spares = spares_left(
                    texts_under(class, "spare_pins"@),
                    k.our_pools.contains(pool),
                    k.used,
                );
                if emits(live.len(), spares.len()) {
                    let rebind = text_or(json_find_text(class, "rebind"@), "firmware"@);
                    MergeV {
                        merged: s.merged.push(
                            pool_class_json(PoolClassV { pool, rebind, members: live, spares }),
                        ),
                        ..s
                    }
                } else {
                    s
                }
            },
        }
    } else {
        let live = live_members(class, "instance"@, k.solved);
        let units = prior_units(class);
        match cluster_place(s.clusters, units) {
            Some(i) => MergeV {
                clusters: s.clusters.update(
                    i,
                    ClusterClassV {
                        members: sorted::<(String, String)>(s.clusters[i].members + live),
                        ..s.clusters[i]
                    },
                ),
                ..s
            },
            None => {
                let spares = spares_left(
                    texts_under(class, "spare_units"@),
                    overlap(units, k.ours),
                    k.taken,
                );
                if emits(live.len(), spares.len()) {
                    MergeV { merged: s.merged.push(cluster_class_json(live, spares)), ..s }
                } else {
                    s
                }
            },
        }
    }
}

/// Takes the classes of the earlier solves in order.
pub open spec fn merge_classes(s: MergeV, prior: Seq<JsonV>, k: KnownV) -> MergeV
    decreases prior.len(),
{
    if prior.len() == 0 {
        s
    } else {
        merge_class(merge_classes(s, prior.drop_last(), k), prior.last(), k)
    }
}

/// The swap classes with those of earlier solves.
pub open spec fn merged_swaps(
    pools: Seq<PoolClassV>,
    clusters: Seq<ClusterClassV>,
    prior: Seq<JsonV>,
    k: KnownV,
) -> Seq<JsonV> {
    let s = merge_classes(MergeV { pools, clusters, merged: Seq::empty() }, prior, k);
    s.merged + swap_reports(s.pools, s.clusters)
}

fn find_live_members(class: &Json, key: &str, solved: &Vec<String>) -> (r: Vec<(String, String)>)
    ensures
        r.deep_view() == live_members(class.value(), key@, solved.deep_view()),
{
    let mut out: Vec<(String, String)> = Vec::new();
    assert(out.deep_view() =~= Seq::empty());
    let members = match class.get_array("members") {
        Some(m) => m,
        None => {
            return out;
        },
    };
    let ghost mv = members.deep_view();
    let ghost sv = solved.deep_view();
    let n: usize = members.len();
    let mut i: usize = 0;
    while i < n
        invariant
            n == members@.len(),
            mv == members.deep_view(),
            sv == solved.deep_view(),
            i <= n,
            out.deep_view() == live_in(mv.take(i as int), key@, sv),
        decreases n - i,
    {
        let ghost before = out.deep_view();
        assert(mv.take(i + 1).drop_last() =~= mv.take(i as int));
        assert(mv[i as int] == members@[i as int].value());
        if let Some(r) = members[i].get_text("request") {
            if let Some(v) = members[i].get_text(key) {
                if !holds(solved, r.as_str()) {
                    out.push((r.clone(), v.clone()));
                    assert(out.deep_view() =~= before.push((r@, v@)));
                }
            }
        }
        i += 1;
    }
    assert(mv.take(n as int) =~= mv);
    out
}

fn find_texts(class: &Json, key: &str) -> (r: Vec<String>)
    ensures
        r.deep_view() == texts_under(class.value(), key@),
{
    let mut out: Vec<String> = Vec::new();
    assert(out.deep_view() =~= Seq::empty());
    let list = match class.get_array(key) {
        Some(a) => a,
        None => {
            return out;
        },
    };
    let ghost lv = list.deep_view();
    let n: usize = list.len();
    let mut i: usize = 0;
    while i < n
        invariant
            n == list@.len(),
            lv == list.deep_view(),
            i <= n,
            out.deep_view() == texts_of(lv.take(i as int)),
        decreases n - i,
    {
        let ghost before = out.deep_view();
        assert(lv.take(i + 1).drop_last() =~= lv.take(i as int));
        assert(lv[i as int] == list@[i as int].value());
        if let Json::Str(t) = &list[i] {
            out.push(t.clone());
            assert(out.deep_view() =~= before.push(t@));
        }
        i += 1;
    }
    assert(lv.take(n as int) =~= lv);
    out
}

fn find_prior_units(class: &Json) -> (r: Vec<String>)
    ensures
        r.deep_view() == prior_units(class.value()),
{
    let mut out: Vec<String> = Vec::new();
    assert(out.deep_view() =~= Seq::empty());
    if let Some(members) = class.get_array("members") {
        let ghost mv = members.deep_view();
        let n: usize = members.len();
        let mut i: usize = 0;
        while i < n
            invariant
                n == members@.len(),
                mv == members.deep_view(),
                i <= n,
                out.deep_view() == instances_in(mv.take(i as int)),
            decreases n - i,
        {
            let ghost before = out.deep_view();
            assert(mv.take(i + 1).drop_last() =~= mv.take(i as int));
            assert(mv[i as int] == members@[i as int].value());
            if let Some(t) = members[i].get_text("instance") {
                out.push(t.clone());
                assert(out.deep_view() =~= before.push(t@));
            }
            i += 1;
        }
        assert(mv.take(n as int) =~= mv);
    }
    let ghost first = out.deep_view();
    let mut more = find_texts(class, "spare_units");
    let ghost second = more.deep_view();
    out.append(&mut more);
    assert(out.deep_view() =~= first + second);
    out
}

proof fn pool_place_in_front(pools: Seq<PoolClassV>, pool: Seq<char>, k: int)
    requires
        0 <= k <= pools.len(),
        pool_place(pools.take(k), pool) is Some,
    ensures
        pool_place(pools, pool) == pool_place(pools.take(k), pool),
    decreases pools.len() - k,
{
    if k < pools.len() {
        assert(pools.take(k + 1).drop_last() =~= pools.take(k));
        pool_place_in_front(pools, pool, k + 1);
    } else {
        assert(pools.take(k) =~= pools);
    }
}

fn find_pool(pools: &Vec<PoolClass>, pool: &str) -> (r: Option<usize>)
    ensures
        match r {
            Some(i) => pool_place(pools.deep_view(), pool@) == Some(i as int) && i < pools@.len(),
            None => pool_place(pools.deep_view(), pool@) is None,
        },
{
    let ghost pv = pools.deep_view();
    let n: usize = pools.len();
    let mut i: usize = 0;
    while i < n
        invariant
            n == pools@.len(),
            pv == pools.deep_view(),
            i <= n,
            pool_place(pv.take(i as int), pool@) is None,
        decreases n - i,
    {
        assert(pv.take(i + 1).drop_last() =~= pv.take(i as int));
        assert(pv[i as int] == pools@[i as int].deep_view());
        if same(pools[i].pool.as_str(), pool) {
            proof {
                pool_place_in_front(pv, pool@, i + 1);
            }
            return Some(i);
        }
        i += 1;
    }
    assert(pv.take(n as int) =~= pv);
    None
}

fn overlaps(a: &Vec<String>, b: &Vec<String>) -> (r: bool)
    ensures
        r == overlap(a.deep_view(), b.deep_view()),
{
    let ghost av = a.deep_view();
    let n: usize = a.len();
    let mut i: usize = 0;
    while i < n
        invariant
            n == a@.len(),
            av == a.deep_view(),
            i <= n,
            forall|j: int| 0 <= j < i ==> !b.deep_view().contains(#[trigger] av[j]),
        decreases n - i,
    {
        assert(av[i as int] == a@[i as int]@);
        if holds(b, a[i].as_str()) {
            return true;
        }
        i += 1;
    }
    false
}

proof fn cluster_place_in_front(clusters: Seq<ClusterClassV>, units: Seq<Seq<char>>, k: int)
    requires
        0 <= k <= clusters.len(),
        cluster_place(clusters.take(k), units) is Some,
    ensures
        cluster_place(clusters, units) == cluster_place(clusters.take(k), units),
    decreases clusters.len() - k,
{
    if k < clusters.len() {
        assert(clusters.take(k + 1).drop_last() =~= clusters.take(k));
        cluster_place_in_front(clusters, units, k + 1);
    } else {
        assert(clusters.take(k) =~= clusters);
    }
}

fn find_cluster(clusters: &Vec<ClusterClass>, units: &Vec<String>) -> (r: Option<usize>)
    ensures
        match r {
            Some(i) => cluster_place(clusters.deep_view(), units.deep_view()) == Some(i as int) && i
                < clusters@.len(),
            None => cluster_place(clusters.deep_view(), units.deep_view()) is None,
        },
{
    let ghost cv = clusters.deep_view();
    let ghost uv = units.deep_view();
    let n: usize = clusters.len();
    let mut i: usize = 0;
    while i < n
        invariant
            n == clusters@.len(),
            cv == clusters.deep_view(),
            uv == units.deep_view(),
            i <= n,
            cluster_place(cv.take(i as int), uv) is None,
        decreases n - i,
    {
        assert(cv.take(i + 1).drop_last() =~= cv.take(i as int));
        assert(cv[i as int] == clusters@[i as int].deep_view());
        if overlaps(&clusters[i].units, units) {
            proof {
                cluster_place_in_front(cv, uv, i + 1);
            }
            return Some(i);
        }
        i += 1;
    }
    assert(cv.take(n as int) =~= cv);
    None
}

fn keep_spares(list: Vec<String>, mine: bool, used: &Vec<String>) -> (r: Vec<String>)
    ensures
        r.deep_view() == spares_left(list.deep_view(), mine, used.deep_view()),
{
    if mine {
        keep_not_in(&list, used)
    } else {
        list
    }
}

/// The members with more of them, sorted.
fn fold_members(members: &Vec<(String, String)>, live: Vec<(String, String)>) -> (r: Vec<
    (String, String),
>)
    ensures
        r.deep_view() == sorted::<(String, String)>(members.deep_view() + live.deep_view()),
{
    let mut all = members.duplicate();
    let mut more = live;
    let ghost a = all.deep_view();
    let ghost b = more.deep_view();
    all.append(&mut more);
    assert(all.deep_view() =~= a + b);
    in_order(&all)
}

fn take_pool_class(
    pools: &mut Vec<PoolClass>,
    merged: &mut Vec<Json>,
    clusters: &Vec<ClusterClass>,
    class: &Json,
    k: &Known,
)
    requires
        json_find_text(class.value(), "granularity"@) == Some("pin"@),
    ensures
        ({
            let s = merge_class(
                MergeV {
                    pools: old(pools).deep_view(),
                    clusters: clusters.deep_view(),
                    merged: old(merged).deep_view(),
                },
                class.value(),
                k.deep_view(),
            );
            &&& final(pools).deep_view() == s.pools
            &&& final(merged).deep_view() == s.merged
            &&& clusters.deep_view() == s.clusters
        }),
{
    let live = find_live_members(class, "pin", &k.solved);
    let pool = match class.get_text("pool") {
        Some(p) => p.clone(),
        None => String::new(),
    };
    assert(pool@ =~= text_or(json_find_text(class.value(), "pool"@), Seq::empty()));
    match find_pool(pools, pool.as_str()) {
        Some(i) => {
            let ghost before = pools.deep_view();
            let ghost lv = live.deep_view();
            let members = fold_members(&pools[i].members, live);
            let ghost mv = members.deep_view();
            pools[i].members = members;
            assert(pools.deep_view() =~= before.update(
                i as int,
                PoolClassV { members: mv, ..before[i as int] },
            ));
        },
        None => {
            let mine = holds(&k.our_pools, pool.as_str());
            let spares = keep_spares(find_texts(class, "spare_pins"), mine, &k.used);
            if is_reported(live.len(), spares.len()) {
                let rebind = match class.get_text("rebind") {
                    Some(r) => r.clone(),
                    None => "firmware".to_string(),
                };
                let ghost before = merged.deep_view();
                let one = make_pool_class(pool.as_str(), rebind.as_str(), &live, &spares);
                let ghost ov = one.value();
                merged.push(one);
                assert(merged.deep_view() =~= before.push(ov));
            }
        },
    }
}

fn take_cluster_class(
    clusters: &mut Vec<ClusterClass>,
    merged: &mut Vec<Json>,
    pools: &Vec<PoolClass>,
    class: &Json,
    k: &Known,
)
    requires
        json_find_text(class.value(), "granularity"@) != Some("pin"@),
    ensures
        ({
            let s = merge_class(
                MergeV {
                    pools: pools.deep_view(),
                    clusters: old(clusters).deep_view(),
                    merged: old(merged).deep_view(),
                },
                class.value(),
                k.deep_view(),
            );
            &&& final(clusters).deep_view() == s.clusters
            &&& final(merged).deep_view() == s.merged
            &&& pools.deep_view() == s.pools
        }),
{
    let live = find_live_members(class, "instance", &k.solved);
    let units = find_prior_units(class);
    match find_cluster(clusters, &units) {
        Some(i) => {
            let ghost before = clusters.deep_view();
            let members = fold_members(&clusters[i].members, live);
            let ghost mv = members.deep_view();
            clusters[i].members = members;
            assert(clusters.deep_view() =~= before.update(
                i as int,
                ClusterClassV { members: mv, ..before[i as int] },
            ));
        },
        None => {
            let mine = overlaps(&units, &k.ours);
            let spares = keep_spares(find_texts(class, "spare_units"), mine, &k.taken);
            if is_reported(live.len(), spares.len()) {
                let ghost before = merged.deep_view();
                let one = make_cluster_class(&live, &spares);
                let ghost ov = one.value();
                merged.push(one);
                assert(merged.deep_view() =~= before.push(ov));
            }
        },
    }
}

/// The swap classes with those of earlier solves: members of a pool or cluster that this solve
/// touched again fold into the fresh class, so one class never fragments across solves.
pub fn merge_swaps(
    pools: &Vec<PoolClass>,
    clusters: &Vec<ClusterClass>,
    prior: &Vec<Json>,
    k: &Known,
) -> (r: Vec<Json>)
    ensures
        r.deep_view() == merged_swaps(
            pools.deep_view(),
            clusters.deep_view(),
            prior.deep_view(),
            k.deep_view(),
        ),
{
    let ghost begin = MergeV {
        pools: pools.deep_view(),
        clusters: clusters.deep_view(),
        merged: Seq::empty(),
    };
    let ghost pv = prior.deep_view();
    let ghost kv = k.deep_view();
    let mut new_pools = pools.duplicate();
    let mut new_clusters = clusters.duplicate();
    let mut merged: Vec<Json> = Vec::new();
    assert(merged.deep_view() =~= Seq::empty());
    assert(pv.take(0) =~= Seq::empty());
    let n: usize = prior.len();
    let mut i: usize = 0;
    while i < n
        invariant
            n == prior@.len(),
            pv == prior.deep_view(),
            kv == k.deep_view(),
            begin.pools == pools.deep_view(),
            begin.clusters == clusters.deep_view(),
            begin.merged == Seq::<JsonV>::empty(),
            i <= n,
            merge_classes(begin, pv.take(i as int), kv) == (MergeV {
                pools: new_pools.deep_view(),
                clusters: new_clusters.deep_view(),
                merged: merged.deep_view(),
            }),
        decreases n - i,
    {
        assert(pv.take(i + 1).drop_last() =~= pv.take(i as int));
        let class = &prior[i];
        assert(pv[i as int] == class.value());
        let by_pin = match class.get_text("granularity") {
            Some(g) => same(g.as_str(), "pin"),
            None => false,
        };
        if by_pin {
            take_pool_class(&mut new_pools, &mut merged, &new_clusters, class, k);
        } else {
            take_cluster_class(&mut new_clusters, &mut merged, &new_pools, class, k);
        }
        i += 1;
    }
    assert(pv.take(n as int) =~= pv);
    add_reports(&new_pools, &new_clusters, &mut merged);
    merged
}

} // verus!
