//! The report on the routing quality of a board.
use vstd::prelude::*;

use crate::duplicate::Duplicate;
use crate::number::{place, Real};
use crate::order::{as_ints, picked, rank_order, ranking, ranking_is_stable, goes_before, Ranked};

verus! {

/// The version of the report's layout.
pub const SCHEMA_VERSION: u32 = 1;

/// How many offenders a metric lists.
pub const WORST_LISTED: usize = 5;

/// A measured amount.
#[derive(Clone, Copy, Debug, PartialEq, Eq, Structural)]
pub enum Amount {
    /// A number of things.
    Count(u128),
    /// The first number over the second.
    Ratio(u128, u128),
    /// A measured number.
    Measured(Real),
}

impl DeepView for Amount {
    type V = Amount;

    open spec fn deep_view(&self) -> Amount {
        *self
    }
}

impl Duplicate for Amount {
    fn duplicate(&self) -> (r: Self) {
        *self
    }
}

/// How far an offender of a metric is off.
#[derive(Clone, Copy, Debug, PartialEq, Eq, Structural)]
pub enum Extent {
    /// A number of things.
    Count(u64),
    /// A measured number.
    Measured(Real),
}

impl DeepView for Extent {
    type V = Extent;

    open spec fn deep_view(&self) -> Extent {
        *self
    }
}

/// Where the extent stands among the extents of its form.
pub open spec fn extent_place(a: Extent) -> int {
    match a {
        Extent::Count(n) => n as int,
        Extent::Measured(x) => place(x),
    }
}

impl Extent {
    fn rank(&self) -> (r: i128)
        ensures
            r == extent_place(*self),
            -0x1_0000_0000_0000_0000 < r < 0x1_0000_0000_0000_0000,
    {
        match self {
            Extent::Count(n) => *n as i128,
            Extent::Measured(x) => x.rank() as i128,
        }
    }
}

/// How an amount is mapped to a grade between 0 and 1. Parameters are in thousandths.
#[derive(Clone, Copy, Debug, PartialEq, Eq, Structural)]
pub enum Rule {
    /// Exponential decay: 1 at 0, about 0.37 at the parameter.
    Decay(u64),
    /// 1 inside the band, falling to 0 over the soft stretch on either side. Without an upper
    /// end the band is open above.
    Band(u64, Option<u64>, u64, u64),
    /// The amount as a share of the parameter, at most 1.
    Share(u64),
    /// The parameter as a share of the amount, at most 1.
    Inverse(u64),
    /// What the amount leaves of 1.
    Complement,
    /// The same grade for every amount.
    Fixed(u64),
}

/// The grade of a metric: the rule and the amount that it is applied to.
#[derive(Clone, Copy, Debug, PartialEq, Eq, Structural)]
pub struct Grade {
    pub basis: Amount,
    pub rule: Rule,
}

impl DeepView for Grade {
    type V = Grade;

    open spec fn deep_view(&self) -> Grade {
        *self
    }
}

/// An offender of a metric.
#[derive(Debug)]
pub struct WorstEntry {
    pub label: String,
    pub value: Extent,
}

/// The value of a `WorstEntry`.
#[verifier::ext_equal]
pub struct WorstEntryV {
    pub label: Seq<char>,
    pub value: Extent,
}

impl DeepView for WorstEntry {
    type V = WorstEntryV;

    open spec fn deep_view(&self) -> WorstEntryV {
        WorstEntryV { label: self.label@, value: self.value }
    }
}

impl Duplicate for WorstEntry {
    fn duplicate(&self) -> (r: Self) {
        WorstEntry { label: self.label.clone(), value: self.value }
    }
}

/// The result of one metric. Weights are in tenths.
#[derive(Debug)]
pub struct MetricResult {
    pub id: String,
    pub raw: Option<Amount>,
    pub unit: Option<String>,
    pub normalized: Option<Grade>,
    pub weight: u32,
    pub applicable: bool,
    pub note: Option<String>,
    pub worst: Vec<WorstEntry>,
}

/// The value of a `MetricResult`.
#[verifier::ext_equal]
pub struct MetricResultV {
    pub id: Seq<char>,
    pub raw: Option<Amount>,
    pub unit: Option<Seq<char>>,
    pub normalized: Option<Grade>,
    pub weight: u32,
    pub applicable: bool,
    pub note: Option<Seq<char>>,
    pub worst: Seq<WorstEntryV>,
}

impl DeepView for MetricResult {
    type V = MetricResultV;

    open spec fn deep_view(&self) -> MetricResultV {
        MetricResultV {
            id: self.id@,
            raw: self.raw,
            unit: self.unit.deep_view(),
            normalized: self.normalized,
            weight: self.weight,
            applicable: self.applicable,
            note: self.note.deep_view(),
            worst: self.worst.deep_view(),
        }
    }
}

/// A metric that was measured; its grade is the rule applied to the amount itself.
pub open spec fn scored(
    id: Seq<char>,
    raw: Amount,
    unit: Seq<char>,
    rule: Rule,
    weight: u32,
) -> MetricResultV {
    graded(id, raw, unit, Grade { basis: raw, rule }, weight)
}

/// A metric that was measured, with its grade.
pub open spec fn graded(
    id: Seq<char>,
    raw: Amount,
    unit: Seq<char>,
    grade: Grade,
    weight: u32,
) -> MetricResultV {
    MetricResultV {
        id,
        raw: Some(raw),
        unit: Some(unit),
        normalized: Some(grade),
        weight,
        applicable: true,
        note: None,
        worst: Seq::empty(),
    }
}

/// A metric that does not apply, and why.
pub open spec fn skipped(id: Seq<char>, weight: u32, note: Seq<char>) -> MetricResultV {
    MetricResultV {
        id,
        raw: None,
        unit: None,
        normalized: None,
        weight,
        applicable: false,
        note: Some(note),
        worst: Seq::empty(),
    }
}

/// The metric with a note.
pub open spec fn noted(m: MetricResultV, note: Seq<char>) -> MetricResultV {
    MetricResultV { note: Some(note), ..m }
}

/// What entries are ordered by: how bad they are, then their label.
pub open spec fn badness(entries: Seq<WorstEntryV>, higher_is_worse: bool) -> Seq<
    (i128, Seq<char>),
> {
    Seq::new(
        entries.len(),
        |i: int|
            (
                if higher_is_worse {
                    (-extent_place(entries[i].value)) as i128
                } else {
                    extent_place(entries[i].value) as i128
                },
                entries[i].label,
            ),
    )
}

/// The entries, worst first, those of equal badness by label.
pub open spec fn worst_first(entries: Seq<WorstEntryV>, higher_is_worse: bool) -> Seq<
    WorstEntryV,
> {
    picked(entries, ranking::<(i128, String)>(badness(entries, higher_is_worse)))
}

/// The number of entries that are listed out of `n`.
pub open spec fn listed(n: nat) -> int {
    if n < WORST_LISTED {
        n as int
    } else {
        WORST_LISTED as int
    }
}

/// The metric with the worst of the entries.
pub open spec fn with_offenders(
    m: MetricResultV,
    entries: Seq<WorstEntryV>,
    higher_is_worse: bool,
) -> MetricResultV {
    MetricResultV {
        worst: worst_first(entries, higher_is_worse).take(listed(entries.len())),
        ..m
    }
}

impl Ranked for i128 {
    open spec fn ranks_le(a: i128, b: i128) -> bool {
        a <= b
    }

    proof fn rank_total(a: i128, b: i128) {
    }

    proof fn rank_trans(a: i128, b: i128, c: i128) {
    }

    fn no_later(&self, other: &Self) -> (r: bool) {
        *self <= *other
    }
}

/// `a` is at least as bad as `b`.
pub open spec fn no_better(a: Extent, b: Extent, higher_is_worse: bool) -> bool {
    if higher_is_worse {
        extent_place(a) >= extent_place(b)
    } else {
        extent_place(a) <= extent_place(b)
    }
}

/// Entries are listed worst first, and no entry that was left out is worse than one that is
/// listed.
pub proof fn the_worst_are_listed(
    entries: Seq<WorstEntryV>,
    higher_is_worse: bool,
    i: int,
    j: int,
)
    requires
        0 <= i < j < entries.len(),
    ensures
        worst_first(entries, higher_is_worse).len() == entries.len(),
        no_better(
            worst_first(entries, higher_is_worse)[i].value,
            worst_first(entries, higher_is_worse)[j].value,
            higher_is_worse,
        ),
{
    let keys = badness(entries, higher_is_worse);
    ranking_is_stable::<(i128, String)>(keys);
    let p = ranking::<(i128, String)>(keys);
    assert(goes_before::<(i128, String)>(keys, p[i], p[j]));
    assert(0 <= p[i] < entries.len());
    assert(0 <= p[j] < entries.len());
    extent_fits(entries[p[i]].value);
    extent_fits(entries[p[j]].value);
}

proof fn extent_fits(a: Extent)
    ensures
        -0x1_0000_0000_0000_0000 < extent_place(a) < 0x1_0000_0000_0000_0000,
{
}

impl MetricResult {
    /// A metric that was measured; its grade is the rule applied to the amount itself.
    pub fn new(id: &str, raw: Amount, unit: &str, rule: Rule, weight: u32) -> (r: MetricResult)
        ensures
            r.deep_view() == scored(id@, raw, unit@, rule, weight),
    {
        MetricResult::with_grade(id, raw, unit, Grade { basis: raw, rule }, weight)
    }

    /// A metric that was measured, with its grade.
    pub fn with_grade(id: &str, raw: Amount, unit: &str, grade: Grade, weight: u32) -> (r:
        MetricResult)
        ensures
            r.deep_view() == graded(id@, raw, unit@, grade, weight),
    {
        let r = MetricResult {
            id: id.to_string(),
            raw: Some(raw),
            unit: Some(unit.to_string()),
            normalized: Some(grade),
            weight,
            applicable: true,
            note: None,
            worst: Vec::new(),
        };
        assert(r.deep_view() =~= graded(id@, raw, unit@, grade, weight));
        r
    }

    /// A metric that does not apply, and why.
    pub fn not_applicable(id: &str, weight: u32, note: &str) -> (r: MetricResult)
        ensures
            r.deep_view() == skipped(id@, weight, note@),
    {
        let r = MetricResult {
            id: id.to_string(),
            raw: None,
            unit: None,
            normalized: None,
            weight,
            applicable: false,
            note: Some(note.to_string()),
            worst: Vec::new(),
        };
        assert(r.deep_view() =~= skipped(id@, weight, note@));
        r
    }

    /// The metric with a note.
    pub fn with_note(self, note: &str) -> (r: MetricResult)
        ensures
            r.deep_view() == noted(self.deep_view(), note@),
    {
        MetricResult {
            id: self.id,
            raw: self.raw,
            unit: self.unit,
            normalized: self.normalized,
            weight: self.weight,
            applicable: self.applicable,
            note: Some(note.to_string()),
            worst: self.worst,
        }
    }

    /// The metric with the worst of the entries, worst first, those of equal badness by label.
    pub fn with_worst(self, entries: Vec<WorstEntry>, higher_is_worse: bool) -> (r: MetricResult)
        ensures
            r.deep_view() == with_offenders(
                self.deep_view(),
                entries.deep_view(),
                higher_is_worse,
            ),
    {
        let ghost ev = entries.deep_view();
        let n: usize = entries.len();
        let mut keys: Vec<(i128, String)> = Vec::new();
        let mut i: usize = 0;
        while i < n
            invariant
                n == entries@.len(),
                i <= n,
                ev == entries.deep_view(),
                keys@.len() == i,
                forall|j: int|
                    0 <= j < i ==> (#[trigger] keys.deep_view()[j]) == badness(
                        ev,
                        higher_is_worse,
                    )[j],
            decreases n - i,
        {
            let ghost before = keys.deep_view();
            let place: i128 = entries[i].value.rank();
            let key: i128 = if higher_is_worse {
                -place
            } else {
                place
            };
            assert(ev[i as int] == entries@[i as int].deep_view());
            keys.push((key, entries[i].label.clone()));
            assert(keys.deep_view() =~= before.push(badness(ev, higher_is_worse)[i as int]));
            i += 1;
        }
        assert(keys.deep_view() =~= badness(ev, higher_is_worse));
        let order = rank_order(&keys);
        let ghost all = worst_first(ev, higher_is_worse);
        let mut worst: Vec<WorstEntry> = Vec::new();
        let mut k: usize = 0;
        while k < n && k < WORST_LISTED
            invariant
                n == entries@.len(),
                order@.len() == n,
                k <= n,
                k <= WORST_LISTED,
                ev == entries.deep_view(),
                as_ints(order@) == ranking::<(i128, String)>(badness(ev, higher_is_worse)),
                forall|j: int| 0 <= j < order@.len() ==> (#[trigger] order@[j]) < n,
                all == worst_first(ev, higher_is_worse),
                worst.deep_view() == all.take(k as int),
            decreases n - k,
        {
            let ghost before = worst.deep_view();
            assert(as_ints(order@)[k as int] == order@[k as int]);
            worst.push(entries[order[k]].duplicate());
            assert(all[k as int] == ev[order@[k as int] as int]);
            assert(worst.deep_view() =~= before.push(all[k as int]));
            assert(worst.deep_view() =~= all.take(k + 1));
            k += 1;
        }
        MetricResult {
            id: self.id,
            raw: self.raw,
            unit: self.unit,
            normalized: self.normalized,
            weight: self.weight,
            applicable: self.applicable,
            note: self.note,
            worst,
        }
    }
}

/// The results of one family of metrics.
#[derive(Debug)]
pub struct CategoryResult {
    pub id: String,
    pub label: String,
    pub weight: Real,
    pub metrics: Vec<MetricResult>,
}

/// The value of a `CategoryResult`.
#[verifier::ext_equal]
pub struct CategoryResultV {
    pub id: Seq<char>,
    pub label: Seq<char>,
    pub weight: Real,
    pub metrics: Seq<MetricResultV>,
}

impl DeepView for CategoryResult {
    type V = CategoryResultV;

    open spec fn deep_view(&self) -> CategoryResultV {
        CategoryResultV {
            id: self.id@,
            label: self.label@,
            weight: self.weight,
            metrics: self.metrics.deep_view(),
        }
    }
}

/// The weight of the metrics that have a grade, in tenths.
pub open spec fn graded_weight(metrics: Seq<MetricResultV>) -> nat
    decreases metrics.len(),
{
    if metrics.len() == 0 {
        0
    } else {
        graded_weight(metrics.drop_last()) + if metrics.last().applicable
            && metrics.last().normalized is Some {
            metrics.last().weight as nat
        } else {
            0
        }
    }
}

impl CategoryResult {
    /// The results of a family of metrics.
    pub fn new(id: &str, label: &str, weight: Real, metrics: Vec<MetricResult>) -> (r:
        CategoryResult)
        ensures
            r.deep_view() == (CategoryResultV {
                id: id@,
                label: label@,
                weight,
                metrics: metrics.deep_view(),
            }),
    {
        CategoryResult { id: id.to_string(), label: label.to_string(), weight, metrics }
    }

    /// The weight of the metrics that have a grade, in tenths. The category has a score if and
    /// only if it is positive.
    pub fn graded_weight(&self) -> (r: u128)
        ensures
            r == graded_weight(self.metrics.deep_view()),
    {
        let ghost mv = self.metrics.deep_view();
        let n: usize = self.metrics.len();
        let mut total: u128 = 0;
        let mut i: usize = 0;
        while i < n
            invariant
                n == self.metrics@.len(),
                i <= n,
                mv == self.metrics.deep_view(),
                total == graded_weight(mv.take(i as int)),
                total <= i * 0x1_0000_0000,
            decreases n - i,
        {
            assert(mv.take(i + 1).drop_last() =~= mv.take(i as int));
            assert(mv[i as int] == self.metrics@[i as int].deep_view());
            let m = &self.metrics[i];
            assert(i * 0x1_0000_0000 <= 0xffff_ffff_ffff_ffff * 0x1_0000_0000);
            if m.applicable && m.normalized.is_some() {
                total = total + m.weight as u128;
            }
            assert((i + 1) * 0x1_0000_0000 == i * 0x1_0000_0000 + 0x1_0000_0000);
            i += 1;
        }
        assert(mv.take(n as int) =~= mv);
        total
    }
}

/// What made the report.
#[derive(Debug)]
pub struct Generator {
    pub tool: String,
    pub version: String,
}

/// What board was scored.
#[derive(Debug)]
pub struct BoardSummary {
    pub path: String,
    pub sha256: String,
    pub copper_layers: usize,
    pub nets: usize,
    pub components: usize,
}

/// What the score was made from.
#[derive(Debug)]
pub struct InputsSummary {
    pub netlist_available: bool,
    pub drc_ran: bool,
}

/// Whether every net is routed.
#[derive(Debug)]
pub struct ConnectivityGate {
    pub passed: bool,
    /// Nets whose pads are all joined by copper.
    pub connected_nets: usize,
    /// Nets with at least two pads.
    pub total_nets: usize,
    /// Unconnected items that the design rule check reported, where it ran.
    pub drc_unconnected_items: Option<usize>,
}

/// Whether the design rule check found no error.
#[derive(Debug)]
pub struct DrcGate {
    pub passed: bool,
    pub count: usize,
    /// The number of errors of each kind, by kind.
    pub by_kind: Vec<(String, usize)>,
}

/// What has to hold before a board gets a score.
#[derive(Debug)]
pub struct Gates {
    pub passed: bool,
    pub connectivity: ConnectivityGate,
    pub drc_errors: DrcGate,
}

} // verus!
