//! Metrics from the design rule check. Its errors are a gate, not a metric.
use vstd::prelude::*;

use crate::score::gates::{count_kinds, count_standing, kind_counts, standing_count};
use crate::score::metrics::context::{
    DrcReport, DrcReportV, ScoreContext, ScoreContextV, Violation, ViolationV,
};
use crate::score::model::{
    scored, skipped, with_offenders, Amount, CategoryResult, CategoryResultV, Extent, MetricResult,
    MetricResultV, Rule, WorstEntry, WorstEntryV,
};
use crate::select::{asks, count_places, places, Test};

verus! {

/// The family of metrics from the design rule check.
pub struct DrcPass;

/// Why the metrics do not apply.
pub open spec fn drc_not_run() -> Seq<char> {
    "DRC was not run (--skip-drc or kicad-cli unavailable)"@
}

/// Entries for the kinds, by count.
pub open spec fn kind_entries(kinds: Seq<(Seq<char>, usize)>) -> Seq<WorstEntryV> {
    Seq::new(
        kinds.len(),
        |i: int| WorstEntryV { label: kinds[i].0, value: Extent::Count(kinds[i].1 as u64) },
    )
}

/// How many findings were excluded.
pub open spec fn excluded_count(list: Seq<ViolationV>) -> nat {
    places(list, |v: ViolationV| v.excluded).len()
}

/// The metrics of a report.
pub open spec fn drc_metrics(d: DrcReportV) -> Seq<MetricResultV> {
    seq![
        with_offenders(
            scored(
                "drc_warning_count"@,
                Amount::Count(d.warning_count as u128),
                "count"@,
                Rule::Decay(10000),
                30,
            ),
            kind_entries(kind_counts(d.violations, "warning"@)),
            true,
        ),
        scored(
            "drc_exclusion_count"@,
            Amount::Count(
                (excluded_count(d.violations) + excluded_count(d.unconnected_items)) as u128,
            ),
            "count"@,
            Rule::Decay(5000),
            10,
        ),
        scored(
            "schematic_parity"@,
            Amount::Count(standing_count(d.schematic_parity) as u128),
            "count"@,
            Rule::Fixed(
                if standing_count(d.schematic_parity) == 0 {
                    1000
                } else {
                    0
                },
            ),
            20,
        ),
    ]
}

/// The results of the family.
pub open spec fn drc_results(c: ScoreContextV) -> CategoryResultV {
    CategoryResultV {
        id: "drc"@,
        label: "DRC hygiene"@,
        weight: c.weights.drc,
        metrics: match c.drc {
            Some(d) => drc_metrics(d),
            None => seq![
                skipped("drc_warning_count"@, 10, drc_not_run()),
                skipped("drc_exclusion_count"@, 10, drc_not_run()),
                skipped("schematic_parity"@, 10, drc_not_run()),
            ],
        },
    }
}

struct Excluded;

impl Test<Violation> for Excluded {
    closed spec fn passes(&self, x: ViolationV) -> bool {
        x.excluded
    }

    fn check(&self, x: &Violation) -> (r: bool) {
        x.excluded
    }
}

fn count_excluded(list: &Vec<Violation>) -> (r: usize)
    ensures
        r == excluded_count(list.deep_view()),
{
    let r = count_places(list, &Excluded);
    assert(asks::<Violation, Excluded>(Excluded) =~= |v: ViolationV| v.excluded);
    r
}

/// Entries for the kinds, by count.
pub fn list_kinds(kinds: &Vec<(String, usize)>) -> (r: Vec<WorstEntry>)
    ensures
        r.deep_view() == kind_entries(kinds.deep_view()),
{
    let ghost kv = kinds.deep_view();
    let n: usize = kinds.len();
    let mut out: Vec<WorstEntry> = Vec::new();
    let mut i: usize = 0;
    while i < n
        invariant
            n == kinds@.len(),
            i <= n,
            kv == kinds.deep_view(),
            out.deep_view() == kind_entries(kv).take(i as int),
        decreases n - i,
    {
        let ghost before = out.deep_view();
        assert(kv[i as int] == (kinds@[i as int].0@, kinds@[i as int].1));
        out.push(
            WorstEntry { label: kinds[i].0.clone(), value: Extent::Count(kinds[i].1 as u64) },
        );
        assert(out.deep_view() =~= before.push(kind_entries(kv)[i as int]));
        assert(out.deep_view() =~= kind_entries(kv).take(i + 1));
        i += 1;
    }
    assert(kind_entries(kv).take(n as int) =~= kind_entries(kv));
    out
}

fn measure(d: &DrcReport) -> (r: Vec<MetricResult>)
    ensures
        r.deep_view() == drc_metrics(d.deep_view()),
{
    let mut metrics: Vec<MetricResult> = Vec::new();
    let kinds = count_kinds(&d.violations, "warning");
    let worst = list_kinds(&kinds);
    metrics.push(
        MetricResult::new(
            "drc_warning_count",
            Amount::Count(d.warning_count as u128),
            "count",
            Rule::Decay(10000),
            30,
        ).with_worst(worst, true),
    );
    let excluded: u128 = count_excluded(&d.violations) as u128 + count_excluded(
        &d.unconnected_items,
    ) as u128;
    metrics.push(
        MetricResult::new(
            "drc_exclusion_count",
            Amount::Count(excluded),
            "count",
            Rule::Decay(5000),
            10,
        ),
    );
    let parity: usize = count_standing(&d.schematic_parity);
    let grade: u64 = if parity == 0 {
        1000
    } else {
        0
    };
    metrics.push(
        MetricResult::new(
            "schematic_parity",
            Amount::Count(parity as u128),
            "count",
            Rule::Fixed(grade),
            20,
        ),
    );
    assert(metrics.deep_view() =~= drc_metrics(d.deep_view()));
    metrics
}

impl DrcPass {
    /// The name of the family.
    pub fn id(&self) -> (r: &'static str)
        ensures
            r@ == "drc"@,
    {
        "drc"
    }

    /// The results of the family.
    pub fn run(&self, ctx: &ScoreContext) -> (r: CategoryResult)
        ensures
            r.deep_view() == drc_results(ctx.deep_view()),
    {
        let ghost cv = ctx.deep_view();
        let metrics = match &ctx.drc {
            Some(d) => measure(d),
            None => {
                let note = "DRC was not run (--skip-drc or kicad-cli unavailable)";
                let mut m: Vec<MetricResult> = Vec::new();
                m.push(MetricResult::not_applicable("drc_warning_count", 10, note));
                m.push(MetricResult::not_applicable("drc_exclusion_count", 10, note));
                m.push(MetricResult::not_applicable("schematic_parity", 10, note));
                m
            },
        };
        assert(metrics.deep_view() =~= drc_results(cv).metrics);
        CategoryResult::new("drc", "DRC hygiene", ctx.weights.drc, metrics)
    }
}

} // verus!
