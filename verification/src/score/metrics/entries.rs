//! Entries for what is measured, and the names that stand on them.
use vstd::prelude::*;

use crate::number::{below, Real};
use crate::order::{as_ints, in_order, sorted};
use crate::score::board::{name_of_net, BoardModel, BoardModelV};
use crate::score::model::{Extent, WorstEntry, WorstEntryV};
use crate::steps::distinct;
use crate::text::holds;

verus! {

/// Entries for the values below a limit.
pub open spec fn entries_below(labels: Seq<Seq<char>>, values: Seq<Real>, limit: u64) -> Seq<
    WorstEntryV,
>
    decreases values.len(),
{
    if values.len() == 0 {
        Seq::empty()
    } else {
        let front = entries_below(labels, values.drop_last(), limit);
        if below(values.last(), Real { bits: limit }) {
            front.push(
                WorstEntryV {
                    label: labels[values.len() - 1],
                    value: Extent::Measured(values.last()),
                },
            )
        } else {
            front
        }
    }
}

/// Entries for the values above a limit.
pub open spec fn entries_above(labels: Seq<Seq<char>>, values: Seq<Real>, limit: u64) -> Seq<
    WorstEntryV,
>
    decreases values.len(),
{
    if values.len() == 0 {
        Seq::empty()
    } else {
        let front = entries_above(labels, values.drop_last(), limit);
        if below(Real { bits: limit }, values.last()) {
            front.push(
                WorstEntryV {
                    label: labels[values.len() - 1],
                    value: Extent::Measured(values.last()),
                },
            )
        } else {
            front
        }
    }
}

/// Entries for all values.
pub open spec fn entries_all(labels: Seq<Seq<char>>, values: Seq<Real>) -> Seq<WorstEntryV> {
    Seq::new(
        values.len(),
        |i: int| WorstEntryV { label: labels[i], value: Extent::Measured(values[i]) },
    )
}

/// Entries for the values below a limit.
pub fn list_below(labels: &Vec<String>, values: &Vec<Real>, limit: u64) -> (r: Vec<WorstEntry>)
    requires
        labels@.len() == values@.len(),
    ensures
        r.deep_view() == entries_below(labels.deep_view(), values@, limit),
{
    let ghost lv = labels.deep_view();
    let bound = Real { bits: limit };
    let n: usize = values.len();
    let mut out: Vec<WorstEntry> = Vec::new();
    let mut i: usize = 0;
    assert(out.deep_view() =~= entries_below(lv, values@.take(0), limit));
    while i < n
        invariant
            n == values@.len(),
            n == labels@.len(),
            i <= n,
            lv == labels.deep_view(),
            bound == (Real { bits: limit }),
            out.deep_view() == entries_below(lv, values@.take(i as int), limit),
        decreases n - i,
    {
        let ghost before = out.deep_view();
        assert(values@.take(i + 1).drop_last() =~= values@.take(i as int));
        assert(lv[i as int] == labels@[i as int]@);
        if values[i].less(&bound) {
            let value = Extent::Measured(values[i]);
            out.push(WorstEntry { label: labels[i].clone(), value });
            assert(out.deep_view() =~= before.push(WorstEntryV { label: lv[i as int], value }));
        }
        i += 1;
    }
    assert(values@.take(n as int) =~= values@);
    out
}

/// Entries for the values above a limit.
pub fn list_above(labels: &Vec<String>, values: &Vec<Real>, limit: u64) -> (r: Vec<WorstEntry>)
    requires
        labels@.len() == values@.len(),
    ensures
        r.deep_view() == entries_above(labels.deep_view(), values@, limit),
{
    let ghost lv = labels.deep_view();
    let bound = Real { bits: limit };
    let n: usize = values.len();
    let mut out: Vec<WorstEntry> = Vec::new();
    let mut i: usize = 0;
    assert(out.deep_view() =~= entries_above(lv, values@.take(0), limit));
    while i < n
        invariant
            n == values@.len(),
            n == labels@.len(),
            i <= n,
            lv == labels.deep_view(),
            bound == (Real { bits: limit }),
            out.deep_view() == entries_above(lv, values@.take(i as int), limit),
        decreases n - i,
    {
        let ghost before = out.deep_view();
        assert(values@.take(i + 1).drop_last() =~= values@.take(i as int));
        assert(lv[i as int] == labels@[i as int]@);
        if bound.less(&values[i]) {
            let value = Extent::Measured(values[i]);
            out.push(WorstEntry { label: labels[i].clone(), value });
            assert(out.deep_view() =~= before.push(WorstEntryV { label: lv[i as int], value }));
        }
        i += 1;
    }
    assert(values@.take(n as int) =~= values@);
    out
}

/// Entries for all values.
pub fn list_all(labels: &Vec<String>, values: &Vec<Real>) -> (r: Vec<WorstEntry>)
    requires
        labels@.len() == values@.len(),
    ensures
        r.deep_view() == entries_all(labels.deep_view(), values@),
{
    let ghost want = entries_all(labels.deep_view(), values@);
    let n: usize = values.len();
    let mut out: Vec<WorstEntry> = Vec::new();
    let mut i: usize = 0;
    while i < n
        invariant
            n == values@.len(),
            n == labels@.len(),
            i <= n,
            want == entries_all(labels.deep_view(), values@),
            out.deep_view() == want.take(i as int),
        decreases n - i,
    {
        let ghost before = out.deep_view();
        assert(labels.deep_view()[i as int] == labels@[i as int]@);
        out.push(WorstEntry { label: labels[i].clone(), value: Extent::Measured(values[i]) });
        assert(out.deep_view() =~= before.push(want[i as int]));
        assert(out.deep_view() =~= want.take(i + 1));
        i += 1;
    }
    assert(want.take(n as int) =~= want);
    out
}

/// The references of the footprints at the given places.
pub open spec fn references(b: BoardModelV, at: Seq<int>) -> Seq<Seq<char>> {
    Seq::new(at.len(), |i: int| b.footprints[at[i]].reference)
}

/// The references of the footprints at the given places.
pub fn label_footprints(board: &BoardModel, at: &Vec<usize>) -> (r: Vec<String>)
    requires
        forall|i: int| 0 <= i < at@.len() ==> (#[trigger] at@[i]) < board.footprints@.len(),
    ensures
        r.deep_view() == references(board.deep_view(), as_ints(at@)),
{
    let ghost bv = board.deep_view();
    let ghost want = references(bv, as_ints(at@));
    let n: usize = at.len();
    let mut out: Vec<String> = Vec::new();
    let mut i: usize = 0;
    while i < n
        invariant
            n == at@.len(),
            i <= n,
            bv == board.deep_view(),
            want == references(bv, as_ints(at@)),
            forall|j: int| 0 <= j < at@.len() ==> (#[trigger] at@[j]) < board.footprints@.len(),
            out.deep_view() == want.take(i as int),
        decreases n - i,
    {
        let ghost before = out.deep_view();
        let k: usize = at[i];
        assert(bv.footprints[k as int] == board.footprints@[k as int].deep_view());
        out.push(board.footprints[k].reference.clone());
        assert(out.deep_view() =~= before.push(want[i as int]));
        assert(out.deep_view() =~= want.take(i + 1));
        i += 1;
    }
    assert(want.take(n as int) =~= want);
    out
}

/// The names, each once, in order.
pub open spec fn names_once(names: Seq<Seq<char>>) -> Seq<Seq<char>> {
    sorted::<String>(distinct(names))
}

/// The names, each once, in order.
pub fn list_once(names: &Vec<String>) -> (r: Vec<String>)
    ensures
        r.deep_view() == names_once(names.deep_view()),
{
    let ghost all = names.deep_view();
    let n: usize = names.len();
    let mut out: Vec<String> = Vec::new();
    let mut i: usize = 0;
    assert(out.deep_view() =~= distinct(all.take(0)));
    while i < n
        invariant
            n == names@.len(),
            i <= n,
            all == names.deep_view(),
            out.deep_view() == distinct(all.take(i as int)),
        decreases n - i,
    {
        let ghost before = out.deep_view();
        assert(all.take(i + 1).drop_last() =~= all.take(i as int));
        assert(all[i as int] == names@[i as int]@);
        if !holds(&out, names[i].as_str()) {
            out.push(names[i].clone());
            assert(out.deep_view() =~= before.push(all[i as int]));
        }
        i += 1;
    }
    assert(all.take(n as int) =~= all);
    in_order(&out)
}

/// The names of the nets of the tracks at the given places.
pub open spec fn names_at(b: BoardModelV, at: Seq<int>) -> Seq<Seq<char>> {
    Seq::new(at.len(), |i: int| name_of_net(b.nets, b.tracks[at[i]].net))
}

/// The names of the nets of the tracks at the given places, each once, in order.
pub open spec fn track_names(b: BoardModelV, at: Seq<int>) -> Seq<Seq<char>> {
    sorted::<String>(distinct(names_at(b, at)))
}

/// The names of the nets of the tracks at the given places, each once, in order.
pub fn name_tracks(board: &BoardModel, at: &Vec<usize>) -> (r: Vec<String>)
    requires
        forall|i: int| 0 <= i < at@.len() ==> (#[trigger] at@[i]) < board.tracks@.len(),
    ensures
        r.deep_view() == track_names(board.deep_view(), as_ints(at@)),
{
    let ghost bv = board.deep_view();
    let ghost names = names_at(bv, as_ints(at@));
    let n: usize = at.len();
    let mut out: Vec<String> = Vec::new();
    let mut i: usize = 0;
    assert(out.deep_view() =~= distinct(names.take(0)));
    while i < n
        invariant
            n == at@.len(),
            i <= n,
            bv == board.deep_view(),
            names == names_at(bv, as_ints(at@)),
            forall|j: int| 0 <= j < at@.len() ==> (#[trigger] at@[j]) < board.tracks@.len(),
            out.deep_view() == distinct(names.take(i as int)),
        decreases n - i,
    {
        let ghost before = out.deep_view();
        assert(names.take(i + 1).drop_last() =~= names.take(i as int));
        let k: usize = at[i];
        assert(bv.tracks[k as int] == board.tracks@[k as int].deep_view());
        let name = board.net_name(board.tracks[k].net);
        assert(name@ == names[i as int]);
        if !holds(&out, name.as_str()) {
            out.push(name);
            assert(out.deep_view() =~= before.push(names[i as int]));
        }
        i += 1;
    }
    assert(names.take(n as int) =~= names);
    in_order(&out)
}

} // verus!
