//! Residual freedom of a solve: classes of requests that may trade pins or units.
use vstd::prelude::*;

use crate::duplicate::Duplicate;
use crate::order::{as_ints, in_order, picked, rank_order, ranking, sorted};
use crate::pinmux::lock::lock_is_empty;
use crate::pinmux::model::{Combo, ComboV, RPeriph, RPeriphV, RReq, RReqV};
use crate::pinmux::place::all_within;
use crate::pinmux::report::not_in;
use crate::steps::{distinct, only, only_one_more};
use crate::text::{holds, same};

verus! {

/// The request takes part in swaps. A lock with pins removes it; a bare lock constrains
/// nothing.
pub open spec fn swaps(r: RReqV) -> bool {
    !(r.lock && !lock_is_empty(r.prefer))
}

/// A class of requests that may trade pins of a pool.
pub struct PoolClass {
    pub pool: String,
    pub rebind: String,
    /// Request and pin.
    pub members: Vec<(String, String)>,
    pub spares: Vec<String>,
}

/// The value of a `PoolClass`.
#[verifier::ext_equal]
pub struct PoolClassV {
    pub pool: Seq<char>,
    pub rebind: Seq<char>,
    pub members: Seq<(Seq<char>, Seq<char>)>,
    pub spares: Seq<Seq<char>>,
}

impl DeepView for PoolClass {
    type V = PoolClassV;

    open spec fn deep_view(&self) -> PoolClassV {
        PoolClassV {
            pool: self.pool@,
            rebind: self.rebind@,
            members: self.members.deep_view(),
            spares: self.spares.deep_view(),
        }
    }
}

impl Duplicate for PoolClass {
    fn duplicate(&self) -> (r: Self) {
        PoolClass {
            pool: self.pool.clone(),
            rebind: self.rebind.clone(),
            members: self.members.duplicate(),
            spares: self.spares.duplicate(),
        }
    }
}

/// A class of requests that may trade units of a cluster.
pub struct ClusterClass {
    pub units: Vec<String>,
    /// Request and unit.
    pub members: Vec<(String, String)>,
    pub spares: Vec<String>,
}

/// The value of a `ClusterClass`.
#[verifier::ext_equal]
pub struct ClusterClassV {
    pub units: Seq<Seq<char>>,
    pub members: Seq<(Seq<char>, Seq<char>)>,
    pub spares: Seq<Seq<char>>,
}

impl DeepView for ClusterClass {
    type V = ClusterClassV;

    open spec fn deep_view(&self) -> ClusterClassV {
        ClusterClassV {
            units: self.units.deep_view(),
            members: self.members.deep_view(),
            spares: self.spares.deep_view(),
        }
    }
}

impl Duplicate for ClusterClass {
    fn duplicate(&self) -> (r: Self) {
        ClusterClass {
            units: self.units.duplicate(),
            members: self.members.duplicate(),
            spares: self.spares.duplicate(),
        }
    }
}

/// The providers of the chosen combos.
pub open spec fn provider(periphs: Seq<RPeriphV>, c: ComboV) -> RPeriphV {
    periphs[c.periph_idx as int]
}

/// The pools that swapping requests were placed on, in the order of the requests.
pub open spec fn pools_used(
    reqs: Seq<RReqV>,
    periphs: Seq<RPeriphV>,
    chosen: Seq<ComboV>,
    n: nat,
) -> Seq<Seq<char>>
    decreases n,
{
    if n == 0 {
        Seq::empty()
    } else {
        let front = pools_used(reqs, periphs, chosen, (n - 1) as nat);
        let pool = provider(periphs, chosen[n - 1]).pool;
        if swaps(reqs[n - 1]) && pool is Some {
            front.push(pool.unwrap())
        } else {
            front
        }
    }
}

/// The swapping requests on a pool, each with its pin.
pub open spec fn pool_members(
    reqs: Seq<RReqV>,
    periphs: Seq<RPeriphV>,
    chosen: Seq<ComboV>,
    pool: Seq<char>,
    n: nat,
) -> Seq<(Seq<char>, Seq<char>)>
    decreases n,
{
    if n == 0 {
        Seq::empty()
    } else {
        let front = pool_members(reqs, periphs, chosen, pool, (n - 1) as nat);
        if swaps(reqs[n - 1]) && provider(periphs, chosen[n - 1]).pool == Some(pool) {
            front.push((reqs[n - 1].name, chosen[n - 1].pins[0].1.name))
        } else {
            front
        }
    }
}

/// The first candidates of the pool's units.
pub open spec fn unit_pins(periphs: Seq<RPeriphV>, pool: Seq<char>) -> Seq<Seq<char>>
    decreases periphs.len(),
{
    if periphs.len() == 0 {
        Seq::empty()
    } else {
        let front = unit_pins(periphs.drop_last(), pool);
        let p = periphs.last();
        if p.pool == Some(pool) && p.signals.len() > 0 && p.signals[0].1.len() > 0 {
            front.push(p.signals[0].1[0].name)
        } else {
            front
        }
    }
}

/// The rebind cost of the pool: that of its first unit.
pub open spec fn pool_rebind(periphs: Seq<RPeriphV>, pool: Seq<char>) -> Seq<char>
    decreases periphs.len(),
{
    if periphs.len() == 0 {
        "firmware"@
    } else if periphs[0].pool == Some(pool) {
        periphs[0].rebind
    } else {
        pool_rebind(periphs.drop_first(), pool)
    }
}

/// The class of a pool.
pub open spec fn pool_class(
    reqs: Seq<RReqV>,
    periphs: Seq<RPeriphV>,
    chosen: Seq<ComboV>,
    used: Seq<Seq<char>>,
    pool: Seq<char>,
) -> PoolClassV {
    PoolClassV {
        pool,
        rebind: pool_rebind(periphs, pool),
        members: sorted::<(String, String)>(
            pool_members(reqs, periphs, chosen, pool, reqs.len()),
        ),
        spares: sorted::<String>(only(unit_pins(periphs, pool), not_in(used))),
    }
}

/// The classes of the pools in use, by name.
pub open spec fn pool_classes_of(
    reqs: Seq<RReqV>,
    periphs: Seq<RPeriphV>,
    chosen: Seq<ComboV>,
    used: Seq<Seq<char>>,
) -> Seq<PoolClassV> {
    let pools = sorted::<String>(distinct(pools_used(reqs, periphs, chosen, reqs.len())));
    Seq::new(pools.len(), |i: int| pool_class(reqs, periphs, chosen, used, pools[i]))
}

fn is_swapping(r: &RReq) -> (b: bool)
    ensures
        b == swaps(r.deep_view()),
{
    !(r.lock && !r.prefer.is_empty())
}

fn is_in_pool(p: &RPeriph, pool: &str) -> (b: bool)
    ensures
        b == (p.deep_view().pool == Some(pool@)),
{
    match &p.pool {
        Some(name) => same(name.as_str(), pool),
        None => false,
    }
}

/// What holds of the chosen combos: one for each request, with a provider of the table and at
/// least one pin.
pub open spec fn well_placed(reqs: Seq<RReq>, periphs: Seq<RPeriph>, chosen: Seq<Combo>) -> bool {
    &&& chosen.len() == reqs.len()
    &&& all_within(chosen, periphs.len() as int)
    &&& forall|i: int| 0 <= i < chosen.len() ==> (#[trigger] chosen[i]).pins@.len() > 0
}

fn find_pool_members(
    reqs: &Vec<RReq>,
    periphs: &Vec<RPeriph>,
    chosen: &Vec<Combo>,
    pool: &str,
) -> (r: Vec<(String, String)>)
    requires
        well_placed(reqs@, periphs@, chosen@),
    ensures
        r.deep_view() == pool_members(
            reqs.deep_view(),
            periphs.deep_view(),
            chosen.deep_view(),
            pool@,
            reqs@.len(),
        ),
{
    let ghost rv = reqs.deep_view();
    let ghost pv = periphs.deep_view();
    let ghost cv = chosen.deep_view();
    let n: usize = reqs.len();
    let mut out: Vec<(String, String)> = Vec::new();
    let mut i: usize = 0;
    assert(out.deep_view() =~= Seq::empty());
    while i < n
        invariant
            n == reqs@.len(),
            well_placed(reqs@, periphs@, chosen@),
            rv == reqs.deep_view(),
            pv == periphs.deep_view(),
            cv == chosen.deep_view(),
            i <= n,
            out.deep_view() == pool_members(rv, pv, cv, pool@, i as nat),
        decreases n - i,
    {
        let ghost before = out.deep_view();
        assert(rv[i as int] == reqs@[i as int].deep_view());
        assert(cv[i as int] == chosen@[i as int].deep_view());
        assert(chosen@[i as int].pins@.len() > 0);
        let at: usize = chosen[i].periph_idx;
        assert(pv[at as int] == periphs@[at as int].deep_view());
        if is_swapping(&reqs[i]) && is_in_pool(&periphs[at], pool) {
            out.push((reqs[i].name.clone(), chosen[i].pins[0].1.name.clone()));
            assert(out.deep_view() =~= before.push(
                (rv[i as int].name, cv[i as int].pins[0].1.name),
            ));
        }
        i += 1;
    }
    out
}

fn find_unit_pins(periphs: &Vec<RPeriph>, pool: &str, used: &Vec<String>) -> (r: Vec<String>)
    ensures
        r.deep_view() == only(unit_pins(periphs.deep_view(), pool@), not_in(used.deep_view())),
{
    let ghost pv = periphs.deep_view();
    let ghost test = not_in(used.deep_view());
    let n: usize = periphs.len();
    let mut out: Vec<String> = Vec::new();
    let mut i: usize = 0;
    assert(out.deep_view() =~= only(unit_pins(pv.take(0), pool@), test));
    while i < n
        invariant
            n == periphs@.len(),
            pv == periphs.deep_view(),
            test == not_in(used.deep_view()),
            i <= n,
            out.deep_view() == only(unit_pins(pv.take(i as int), pool@), test),
        decreases n - i,
    {
        let ghost before = out.deep_view();
        assert(pv.take(i + 1).drop_last() =~= pv.take(i as int));
        let p = &periphs[i];
        assert(pv[i as int] == p.deep_view());
        if is_in_pool(p, pool) && p.signals.len() > 0 {
            assert(pv[i as int].signals[0] == (p.signals@[0].0@, p.signals@[0].1.deep_view()));
            if p.signals[0].1.len() > 0 {
                let ghost longer = unit_pins(pv.take(i + 1), pool@);
                assert(longer.drop_last() =~= unit_pins(pv.take(i as int), pool@));
                if !holds(used, p.signals[0].1[0].name.as_str()) {
                    out.push(p.signals[0].1[0].name.clone());
                    assert(out.deep_view() =~= before.push(longer.last()));
                }
            }
        }
        i += 1;
    }
    assert(pv.take(n as int) =~= pv);
    out
}

fn find_pool_rebind(periphs: &Vec<RPeriph>, pool: &str) -> (r: String)
    ensures
        r@ == pool_rebind(periphs.deep_view(), pool@),
{
    let ghost all = periphs.deep_view();
    let n: usize = periphs.len();
    let mut i: usize = 0;
    assert(all.skip(0) =~= all);
    while i < n
        invariant
            n == periphs@.len(),
            all == periphs.deep_view(),
            i <= n,
            pool_rebind(all, pool@) == pool_rebind(all.skip(i as int), pool@),
        decreases n - i,
    {
        assert(all.skip(i as int).drop_first() =~= all.skip(i + 1));
        assert(all.skip(i as int)[0] == periphs@[i as int].deep_view());
        if is_in_pool(&periphs[i], pool) {
            return periphs[i].rebind.clone();
        }
        i += 1;
    }
    "firmware".to_string()
}

fn find_pools(reqs: &Vec<RReq>, periphs: &Vec<RPeriph>, chosen: &Vec<Combo>) -> (r: Vec<String>)
    requires
        well_placed(reqs@, periphs@, chosen@),
    ensures
        r.deep_view() == distinct(
            pools_used(reqs.deep_view(), periphs.deep_view(), chosen.deep_view(), reqs@.len()),
        ),
{
    let ghost rv = reqs.deep_view();
    let ghost pv = periphs.deep_view();
    let ghost cv = chosen.deep_view();
    let n: usize = reqs.len();
    let mut out: Vec<String> = Vec::new();
    let mut i: usize = 0;
    assert(out.deep_view() =~= distinct(pools_used(rv, pv, cv, 0)));
    while i < n
        invariant
            n == reqs@.len(),
            well_placed(reqs@, periphs@, chosen@),
            rv == reqs.deep_view(),
            pv == periphs.deep_view(),
            cv == chosen.deep_view(),
            i <= n,
            out.deep_view() == distinct(pools_used(rv, pv, cv, i as nat)),
        decreases n - i,
    {
        let ghost before = out.deep_view();
        assert(rv[i as int] == reqs@[i as int].deep_view());
        assert(cv[i as int] == chosen@[i as int].deep_view());
        assert(chosen@[i as int].periph_idx < periphs@.len());
        let at: usize = chosen[i].periph_idx;
        assert(pv[at as int] == periphs@[at as int].deep_view());
        if is_swapping(&reqs[i]) {
            if let Some(pool) = &periphs[at].pool {
                let ghost longer = pools_used(rv, pv, cv, (i + 1) as nat);
                assert(longer.drop_last() =~= pools_used(rv, pv, cv, i as nat));
                if !holds(&out, pool.as_str()) {
                    out.push(pool.clone());
                    assert(out.deep_view() =~= before.push(pool@));
                }
            }
        }
        i += 1;
    }
    out
}

/// The classes of the pools in use.
pub fn find_pool_classes(
    reqs: &Vec<RReq>,
    periphs: &Vec<RPeriph>,
    chosen: &Vec<Combo>,
    used: &Vec<String>,
) -> (r: Vec<PoolClass>)
    requires
        well_placed(reqs@, periphs@, chosen@),
    ensures
        r.deep_view() == pool_classes_of(
            reqs.deep_view(),
            periphs.deep_view(),
            chosen.deep_view(),
            used.deep_view(),
        ),
{
    let ghost rv = reqs.deep_view();
    let ghost pv = periphs.deep_view();
    let ghost cv = chosen.deep_view();
    let ghost uv = used.deep_view();
    let pools = in_order(&find_pools(reqs, periphs, chosen));
    let ghost names = pools.deep_view();
    let n: usize = pools.len();
    let mut out: Vec<PoolClass> = Vec::new();
    let mut i: usize = 0;
    while i < n
        invariant
            n == pools@.len(),
            names == pools.deep_view(),
            well_placed(reqs@, periphs@, chosen@),
            rv == reqs.deep_view(),
            pv == periphs.deep_view(),
            cv == chosen.deep_view(),
            uv == used.deep_view(),
            i <= n,
            out@.len() == i,
            forall|j: int|
                0 <= j < i ==> (#[trigger] out@[j]).deep_view() == pool_class(rv, pv, cv, uv, names[j]),
        decreases n - i,
    {
        assert(names[i as int] == pools@[i as int]@);
        let pool = pools[i].as_str();
        let members = in_order(&find_pool_members(reqs, periphs, chosen, pool));
        let spares = in_order(&find_unit_pins(periphs, pool, used));
        let rebind = find_pool_rebind(periphs, pool);
        out.push(PoolClass { pool: pools[i].clone(), rebind, members, spares });
        i += 1;
    }
    assert(out.deep_view() =~= pool_classes_of(rv, pv, cv, uv));
    out
}

/// The two lists hold the same identities.
pub open spec fn same_ids(a: Seq<u64>, b: Seq<u64>) -> bool {
    (forall|i: int| 0 <= i < a.len() ==> b.contains(#[trigger] a[i])) && (forall|i: int|
        0 <= i < b.len() ==> a.contains(#[trigger] b[i]))
}

/// The provider is a unit of a cluster.
pub open spec fn is_unit(p: RPeriphV) -> bool {
    p.rebind == "none"@ && p.pool is None
}

/// Some cluster has the identities.
pub open spec fn has_cluster(keys: Seq<Seq<u64>>, ids: Seq<u64>) -> bool {
    exists|i: int| 0 <= i < keys.len() && same_ids(#[trigger] keys[i], ids)
}

/// The clusters that swapping requests were placed on, each by the identities it provides.
pub open spec fn clusters_used(
    reqs: Seq<RReqV>,
    periphs: Seq<RPeriphV>,
    chosen: Seq<ComboV>,
    n: nat,
) -> Seq<Seq<u64>>
    decreases n,
{
    if n == 0 {
        Seq::empty()
    } else {
        let front = clusters_used(reqs, periphs, chosen, (n - 1) as nat);
        let p = provider(periphs, chosen[n - 1]);
        if swaps(reqs[n - 1]) && is_unit(p) && !has_cluster(front, p.provides_ids) {
            front.push(p.provides_ids)
        } else {
            front
        }
    }
}

/// The swapping requests on a cluster, each with its unit.
pub open spec fn cluster_members(
    reqs: Seq<RReqV>,
    periphs: Seq<RPeriphV>,
    chosen: Seq<ComboV>,
    key: Seq<u64>,
    n: nat,
) -> Seq<(Seq<char>, Seq<char>)>
    decreases n,
{
    if n == 0 {
        Seq::empty()
    } else {
        let front = cluster_members(reqs, periphs, chosen, key, (n - 1) as nat);
        let p = provider(periphs, chosen[n - 1]);
        if swaps(reqs[n - 1]) && is_unit(p) && same_ids(key, p.provides_ids) {
            front.push((reqs[n - 1].name, p.name))
        } else {
            front
        }
    }
}

/// The units of a cluster.
pub open spec fn cluster_units(periphs: Seq<RPeriphV>, key: Seq<u64>) -> Seq<Seq<char>>
    decreases periphs.len(),
{
    if periphs.len() == 0 {
        Seq::empty()
    } else {
        let front = cluster_units(periphs.drop_last(), key);
        let p = periphs.last();
        if is_unit(p) && same_ids(key, p.provides_ids) {
            front.push(p.name)
        } else {
            front
        }
    }
}

/// The class of a cluster.
pub open spec fn cluster_class(
    reqs: Seq<RReqV>,
    periphs: Seq<RPeriphV>,
    chosen: Seq<ComboV>,
    taken: Seq<Seq<char>>,
    key: Seq<u64>,
) -> ClusterClassV {
    ClusterClassV {
        units: cluster_units(periphs, key),
        members: sorted::<(String, String)>(
            cluster_members(reqs, periphs, chosen, key, reqs.len()),
        ),
        spares: sorted::<String>(only(cluster_units(periphs, key), not_in(taken))),
    }
}

/// The members of the classes.
pub open spec fn member_lists(classes: Seq<ClusterClassV>) -> Seq<Seq<(Seq<char>, Seq<char>)>> {
    Seq::new(classes.len(), |i: int| classes[i].members)
}

/// The classes of the clusters in use, by their members.
pub open spec fn cluster_classes_of(
    reqs: Seq<RReqV>,
    periphs: Seq<RPeriphV>,
    chosen: Seq<ComboV>,
    taken: Seq<Seq<char>>,
) -> Seq<ClusterClassV> {
    let keys = clusters_used(reqs, periphs, chosen, reqs.len());
    let classes = Seq::new(
        keys.len(),
        |i: int| cluster_class(reqs, periphs, chosen, taken, keys[i]),
    );
    picked(classes, ranking::<Vec<(String, String)>>(member_lists(classes)))
}

fn contains_ids(a: &Vec<u64>, b: &Vec<u64>) -> (r: bool)
    ensures
        r == forall|i: int| 0 <= i < b@.len() ==> a@.contains(#[trigger] b@[i]),
{
    let mut i: usize = 0;
    while i < b.len()
        invariant
            i <= b@.len(),
            forall|j: int| 0 <= j < i ==> a@.contains(#[trigger] b@[j]),
        decreases b@.len() - i,
    {
        let x: u64 = b[i];
        let mut found = false;
        let mut k: usize = 0;
        while k < a.len() && !found
            invariant
                k <= a@.len(),
                found ==> a@.contains(x),
                !found ==> forall|j: int| 0 <= j < k ==> a@[j] != x,
            decreases a@.len() - k,
        {
            if a[k] == x {
                assert(a@[k as int] == x);
                found = true;
            }
            k += 1;
        }
        if !found {
            assert(!a@.contains(b@[i as int]));
            return false;
        }
        i += 1;
    }
    true
}

fn ids_agree(a: &Vec<u64>, b: &Vec<u64>) -> (r: bool)
    ensures
        r == same_ids(a@, b@),
{
    contains_ids(b, a) && contains_ids(a, b)
}

fn is_cluster_unit(p: &RPeriph) -> (r: bool)
    ensures
        r == is_unit(p.deep_view()),
{
    same(p.rebind.as_str(), "none") && p.pool.is_none()
}

/// The identities of the clusters in use.
pub open spec fn key_views(keys: Seq<Vec<u64>>) -> Seq<Seq<u64>> {
    Seq::new(keys.len(), |i: int| keys[i]@)
}

fn find_clusters(reqs: &Vec<RReq>, periphs: &Vec<RPeriph>, chosen: &Vec<Combo>) -> (r: Vec<
    Vec<u64>,
>)
    requires
        well_placed(reqs@, periphs@, chosen@),
    ensures
        key_views(r@) == clusters_used(
            reqs.deep_view(),
            periphs.deep_view(),
            chosen.deep_view(),
            reqs@.len(),
        ),
{
    let ghost rv = reqs.deep_view();
    let ghost pv = periphs.deep_view();
    let ghost cv = chosen.deep_view();
    let n: usize = reqs.len();
    let mut out: Vec<Vec<u64>> = Vec::new();
    let mut i: usize = 0;
    assert(key_views(out@) =~= Seq::empty());
    while i < n
        invariant
            n == reqs@.len(),
            well_placed(reqs@, periphs@, chosen@),
            rv == reqs.deep_view(),
            pv == periphs.deep_view(),
            cv == chosen.deep_view(),
            i <= n,
            key_views(out@) == clusters_used(rv, pv, cv, i as nat),
        decreases n - i,
    {
        let ghost before = key_views(out@);
        assert(rv[i as int] == reqs@[i as int].deep_view());
        assert(cv[i as int] == chosen@[i as int].deep_view());
        assert(chosen@[i as int].periph_idx < periphs@.len());
        let at: usize = chosen[i].periph_idx;
        assert(pv[at as int] == periphs@[at as int].deep_view());
        if is_swapping(&reqs[i]) && is_cluster_unit(&periphs[at]) {
            let ids = &periphs[at].provides_ids;
            let mut known = false;
            let mut k: usize = 0;
            while k < out.len() && !known
                invariant
                    k <= out@.len(),
                    before == key_views(out@),
                    known ==> has_cluster(before, ids@),
                    !known ==> forall|j: int| 0 <= j < k ==> !same_ids(#[trigger] before[j], ids@),
                decreases out@.len() - k,
            {
                assert(before[k as int] == out@[k as int]@);
                if ids_agree(&out[k], ids) {
                    known = true;
                }
                k += 1;
            }
            if !known {
                let copy = ids.clone();
                assert(copy@ =~= ids@);
                out.push(copy);
                assert(key_views(out@) =~= before.push(ids@));
            }
        }
        i += 1;
    }
    out
}

fn find_cluster_members(
    reqs: &Vec<RReq>,
    periphs: &Vec<RPeriph>,
    chosen: &Vec<Combo>,
    key: &Vec<u64>,
) -> (r: Vec<(String, String)>)
    requires
        well_placed(reqs@, periphs@, chosen@),
    ensures
        r.deep_view() == cluster_members(
            reqs.deep_view(),
            periphs.deep_view(),
            chosen.deep_view(),
            key@,
            reqs@.len(),
        ),
{
    let ghost rv = reqs.deep_view();
    let ghost pv = periphs.deep_view();
    let ghost cv = chosen.deep_view();
    let n: usize = reqs.len();
    let mut out: Vec<(String, String)> = Vec::new();
    let mut i: usize = 0;
    assert(out.deep_view() =~= Seq::empty());
    while i < n
        invariant
            n == reqs@.len(),
            well_placed(reqs@, periphs@, chosen@),
            rv == reqs.deep_view(),
            pv == periphs.deep_view(),
            cv == chosen.deep_view(),
            i <= n,
            out.deep_view() == cluster_members(rv, pv, cv, key@, i as nat),
        decreases n - i,
    {
        let ghost before = out.deep_view();
        assert(rv[i as int] == reqs@[i as int].deep_view());
        assert(cv[i as int] == chosen@[i as int].deep_view());
        assert(chosen@[i as int].periph_idx < periphs@.len());
        let at: usize = chosen[i].periph_idx;
        assert(pv[at as int] == periphs@[at as int].deep_view());
        if is_swapping(&reqs[i]) && is_cluster_unit(&periphs[at]) && ids_agree(
            key,
            &periphs[at].provides_ids,
        ) {
            out.push((reqs[i].name.clone(), periphs[at].name.clone()));
            assert(out.deep_view() =~= before.push((rv[i as int].name, pv[at as int].name)));
        }
        i += 1;
    }
    out
}

fn find_units(periphs: &Vec<RPeriph>, key: &Vec<u64>) -> (r: Vec<String>)
    ensures
        r.deep_view() == cluster_units(periphs.deep_view(), key@),
{
    let ghost pv = periphs.deep_view();
    let n: usize = periphs.len();
    let mut out: Vec<String> = Vec::new();
    let mut i: usize = 0;
    assert(out.deep_view() =~= Seq::empty());
    while i < n
        invariant
            n == periphs@.len(),
            pv == periphs.deep_view(),
            i <= n,
            out.deep_view() == cluster_units(pv.take(i as int), key@),
        decreases n - i,
    {
        let ghost before = out.deep_view();
        assert(pv.take(i + 1).drop_last() =~= pv.take(i as int));
        assert(pv[i as int] == periphs@[i as int].deep_view());
        if is_cluster_unit(&periphs[i]) && ids_agree(key, &periphs[i].provides_ids) {
            out.push(periphs[i].name.clone());
            assert(out.deep_view() =~= before.push(pv[i as int].name));
        }
        i += 1;
    }
    assert(pv.take(n as int) =~= pv);
    out
}

/// The texts that are not among the names.
pub fn keep_not_in(list: &Vec<String>, names: &Vec<String>) -> (r: Vec<String>)
    ensures
        r.deep_view() == only(list.deep_view(), not_in(names.deep_view())),
{
    let ghost lv = list.deep_view();
    let ghost test = not_in(names.deep_view());
    let n: usize = list.len();
    let mut out: Vec<String> = Vec::new();
    let mut i: usize = 0;
    assert(out.deep_view() =~= Seq::empty());
    while i < n
        invariant
            n == list@.len(),
            lv == list.deep_view(),
            test == not_in(names.deep_view()),
            i <= n,
            out.deep_view() == only(lv.take(i as int), test),
        decreases n - i,
    {
        let ghost before = out.deep_view();
        proof {
            only_one_more(lv, test, i as int);
        }
        if !holds(names, list[i].as_str()) {
            out.push(list[i].clone());
            assert(out.deep_view() =~= before.push(lv[i as int]));
        }
        i += 1;
    }
    assert(lv.take(n as int) =~= lv);
    out
}

/// The classes of the clusters in use.
pub fn find_cluster_classes(
    reqs: &Vec<RReq>,
    periphs: &Vec<RPeriph>,
    chosen: &Vec<Combo>,
    taken: &Vec<String>,
) -> (r: Vec<ClusterClass>)
    requires
        well_placed(reqs@, periphs@, chosen@),
    ensures
        r.deep_view() == cluster_classes_of(
            reqs.deep_view(),
            periphs.deep_view(),
            chosen.deep_view(),
            taken.deep_view(),
        ),
{
    let ghost rv = reqs.deep_view();
    let ghost pv = periphs.deep_view();
    let ghost cv = chosen.deep_view();
    let ghost tv = taken.deep_view();
    let keys = find_clusters(reqs, periphs, chosen);
    let ghost kv = key_views(keys@);
    let ghost classes_v = Seq::new(kv.len(), |i: int| cluster_class(rv, pv, cv, tv, kv[i]));
    let n: usize = keys.len();
    let mut classes: Vec<ClusterClass> = Vec::new();
    let mut lists: Vec<Vec<(String, String)>> = Vec::new();
    let mut i: usize = 0;
    while i < n
        invariant
            n == keys@.len(),
            kv == key_views(keys@),
            classes_v == Seq::new(kv.len(), |i: int| cluster_class(rv, pv, cv, tv, kv[i])),
            well_placed(reqs@, periphs@, chosen@),
            rv == reqs.deep_view(),
            pv == periphs.deep_view(),
            cv == chosen.deep_view(),
            tv == taken.deep_view(),
            i <= n,
            classes@.len() == i,
            lists@.len() == i,
            forall|j: int| 0 <= j < i ==> (#[trigger] classes@[j]).deep_view() == classes_v[j],
            forall|j: int|
                0 <= j < i ==> (#[trigger] lists@[j]).deep_view() == classes_v[j].members,
        decreases n - i,
    {
        assert(kv[i as int] == keys@[i as int]@);
        let members = in_order(&find_cluster_members(reqs, periphs, chosen, &keys[i]));
        let units = find_units(periphs, &keys[i]);
        let spares = in_order(&keep_not_in(&units, taken));
        lists.push(members.duplicate());
        classes.push(ClusterClass { units, members, spares });
        i += 1;
    }
    assert(classes.deep_view() =~= classes_v);
    assert(lists.deep_view() =~= member_lists(classes_v));
    let p = rank_order(&lists);
    let mut out: Vec<ClusterClass> = Vec::new();
    let mut k: usize = 0;
    while k < n
        invariant
            n == classes@.len(),
            n == p@.len(),
            classes.deep_view() == classes_v,
            forall|j: int| 0 <= j < p@.len() ==> (#[trigger] p@[j]) < n,
            k <= n,
            out@.len() == k,
            forall|j: int| 0 <= j < k ==> (#[trigger] out@[j]).deep_view() == classes_v[p@[j] as int],
        decreases n - k,
    {
        let at: usize = p[k];
        assert(classes_v[at as int] == classes@[at as int].deep_view());
        out.push(classes[at].duplicate());
        k += 1;
    }
    assert(out.deep_view() =~= picked(classes_v, as_ints(p@)));
    out
}

} // verus!
