//! Sums and lists of offenders over the statistics of nets.
use vstd::prelude::*;

use crate::score::model::{Extent, WorstEntry, WorstEntryV};
use crate::score::net_stats::{NetStats, NetStatsV};
use crate::select::{asks, Test};

verus! {

/// A number in the statistics of a net.
#[derive(Clone, Copy, Debug, PartialEq, Eq, Structural)]
pub enum Field {
    Vias,
    Segments,
    Reversals,
    RightAngles,
    Acute,
    Mergeable,
}

/// The number in the statistics of a net.
pub open spec fn field_of(s: NetStatsV, f: Field) -> usize {
    match f {
        Field::Vias => s.via_count,
        Field::Segments => s.segment_count,
        Field::Reversals => s.direction_reversals,
        Field::RightAngles => s.right_angle_corners,
        Field::Acute => s.acute_junctions,
        Field::Mergeable => s.mergeable_pairs,
    }
}

impl NetStats {
    /// The number in the statistics of a net.
    pub fn field(&self, f: Field) -> (r: usize)
        ensures
            r == field_of(self.deep_view(), f),
    {
        match f {
            Field::Vias => self.via_count,
            Field::Segments => self.segment_count,
            Field::Reversals => self.direction_reversals,
            Field::RightAngles => self.right_angle_corners,
            Field::Acute => self.acute_junctions,
            Field::Mergeable => self.mergeable_pairs,
        }
    }
}

/// The sum of a number over the nets that pass a test.
pub open spec fn sum_where(
    stats: Seq<NetStatsV>,
    test: spec_fn(NetStatsV) -> bool,
    f: Field,
) -> nat
    decreases stats.len(),
{
    if stats.len() == 0 {
        0
    } else {
        sum_where(stats.drop_last(), test, f) + if test(stats.last()) {
            field_of(stats.last(), f) as nat
        } else {
            0
        }
    }
}

/// Entries for the nets that pass a test and whose number is not zero.
pub open spec fn entries_where(
    stats: Seq<NetStatsV>,
    test: spec_fn(NetStatsV) -> bool,
    f: Field,
) -> Seq<WorstEntryV>
    decreases stats.len(),
{
    if stats.len() == 0 {
        Seq::empty()
    } else {
        let front = entries_where(stats.drop_last(), test, f);
        if test(stats.last()) && field_of(stats.last(), f) > 0 {
            front.push(
                WorstEntryV {
                    label: stats.last().name,
                    value: Extent::Count(field_of(stats.last(), f) as u64),
                },
            )
        } else {
            front
        }
    }
}

/// Every net.
pub struct Every;

impl Test<NetStats> for Every {
    open spec fn passes(&self, x: NetStatsV) -> bool {
        true
    }

    fn check(&self, x: &NetStats) -> (r: bool) {
        true
    }
}

/// The test that every net passes.
pub open spec fn every() -> spec_fn(NetStatsV) -> bool {
    |s: NetStatsV| true
}

/// The sum of a number over the nets that pass a test.
pub fn total_where<K: Test<NetStats>>(stats: &Vec<NetStats>, k: &K, f: Field) -> (r: u128)
    ensures
        r == sum_where(stats.deep_view(), asks::<NetStats, K>(*k), f),
{
    let ghost sv = stats.deep_view();
    let ghost test = asks::<NetStats, K>(*k);
    let n: usize = stats.len();
    let mut total: u128 = 0;
    let mut i: usize = 0;
    while i < n
        invariant
            n == stats@.len(),
            i <= n,
            sv == stats.deep_view(),
            test == asks::<NetStats, K>(*k),
            total == sum_where(sv.take(i as int), test, f),
            total <= i * 0x1_0000_0000_0000_0000,
        decreases n - i,
    {
        assert(sv.take(i + 1).drop_last() =~= sv.take(i as int));
        assert(sv[i as int] == stats@[i as int].deep_view());
        assert(i * 0x1_0000_0000_0000_0000 <= 0xffff_ffff_ffff_fffe * 0x1_0000_0000_0000_0000);
        if k.check(&stats[i]) {
            total = total + stats[i].field(f) as u128;
        }
        assert((i + 1) * 0x1_0000_0000_0000_0000 == i * 0x1_0000_0000_0000_0000
            + 0x1_0000_0000_0000_0000);
        i += 1;
    }
    assert(sv.take(n as int) =~= sv);
    total
}

/// Entries for the nets that pass a test and whose number is not zero.
pub fn list_where<K: Test<NetStats>>(stats: &Vec<NetStats>, k: &K, f: Field) -> (r: Vec<
    WorstEntry,
>)
    ensures
        r.deep_view() == entries_where(stats.deep_view(), asks::<NetStats, K>(*k), f),
{
    let ghost sv = stats.deep_view();
    let ghost test = asks::<NetStats, K>(*k);
    let n: usize = stats.len();
    let mut out: Vec<WorstEntry> = Vec::new();
    let mut i: usize = 0;
    assert(out.deep_view() =~= entries_where(sv.take(0), test, f));
    while i < n
        invariant
            n == stats@.len(),
            i <= n,
            sv == stats.deep_view(),
            test == asks::<NetStats, K>(*k),
            out.deep_view() == entries_where(sv.take(i as int), test, f),
        decreases n - i,
    {
        let ghost before = out.deep_view();
        assert(sv.take(i + 1).drop_last() =~= sv.take(i as int));
        assert(sv[i as int] == stats@[i as int].deep_view());
        if k.check(&stats[i]) && stats[i].field(f) > 0 {
            let value = Extent::Count(stats[i].field(f) as u64);
            out.push(WorstEntry { label: stats[i].name.clone(), value });
            assert(out.deep_view() =~= before.push(
                WorstEntryV { label: sv[i as int].name, value },
            ));
        }
        i += 1;
    }
    assert(sv.take(n as int) =~= sv);
    out
}

/// The sum of a number over all nets.
pub fn total(stats: &Vec<NetStats>, f: Field) -> (r: u128)
    ensures
        r == sum_where(stats.deep_view(), every(), f),
{
    let r = total_where(stats, &Every, f);
    assert(asks::<NetStats, Every>(Every) =~= every());
    r
}

/// Entries for all nets whose number is not zero.
pub fn list(stats: &Vec<NetStats>, f: Field) -> (r: Vec<WorstEntry>)
    ensures
        r.deep_view() == entries_where(stats.deep_view(), every(), f),
{
    let r = list_where(stats, &Every, f);
    assert(asks::<NetStats, Every>(Every) =~= every());
    r
}

} // verus!
