//! What holds of the metrics as a whole: a metric that lacks its inputs says so and counts for
//! nothing, and without a netlist nothing is guessed about nets and parts.
use vstd::prelude::*;

use crate::score::metrics::aesthetics::{aesthetics_results, AestheticsReals};
use crate::score::metrics::context::ScoreContextV;
use crate::score::metrics::crosstalk::{crosstalk_results, CrosstalkReals};
use crate::score::metrics::dfm::{dfm_results, DfmReals};
use crate::score::metrics::drc::drc_results;
use crate::score::metrics::emi::{emi_results, EmiReals};
use crate::score::metrics::esd::{esd_results, EsdReals};
use crate::score::metrics::placement::{placement_results, PlacementReals};
use crate::score::metrics::power::{power_results, PowerReals};
use crate::score::metrics::routing::{routing_results, RoutingReals};
use crate::score::metrics::si::{si_results, SiReals};
use crate::score::metrics::thermal::{thermal_results, ThermalReals};
use crate::score::model::{graded_weight, MetricResultV};
use crate::steps::only;

verus! {

/// The metric either has an amount, a unit and a grade, or it has none of them, a note that says
/// why, and no offenders.
pub open spec fn is_whole(m: MetricResultV) -> bool {
    &&& m.applicable == (m.raw is Some)
    &&& m.applicable == (m.unit is Some)
    &&& m.applicable == (m.normalized is Some)
    &&& !m.applicable ==> m.note is Some && m.worst.len() == 0
}

/// All the metrics are whole.
pub open spec fn are_whole(metrics: Seq<MetricResultV>) -> bool {
    forall|i: int| 0 <= i < metrics.len() ==> is_whole(#[trigger] metrics[i])
}

/// The metric applies.
pub open spec fn applies() -> spec_fn(MetricResultV) -> bool {
    |m: MetricResultV| m.applicable
}

/// Metrics that do not apply count for nothing: a family weighs what those weigh that apply.
pub proof fn skipped_metrics_weigh_nothing(metrics: Seq<MetricResultV>)
    ensures
        graded_weight(metrics) == graded_weight(only(metrics, applies())),
    decreases metrics.len(),
{
    if metrics.len() > 0 {
        let front = metrics.drop_last();
        skipped_metrics_weigh_nothing(front);
        if metrics.last().applicable {
            let kept = only(front, applies());
            assert(kept.push(metrics.last()).drop_last() =~= kept);
        }
    }
}

/// Every metric of the families that measure the board alone is whole.
pub proof fn board_metrics_are_whole(
    c: ScoreContextV,
    routing: RoutingReals,
    thermal: ThermalReals,
    dfm: DfmReals,
    placement: PlacementReals,
    aesthetics: AestheticsReals,
)
    ensures
        are_whole(drc_results(c).metrics),
        are_whole(routing_results(c, routing).metrics),
        are_whole(thermal_results(c, thermal).metrics),
        are_whole(dfm_results(c, dfm).metrics),
        are_whole(placement_results(c, placement).metrics),
        are_whole(aesthetics_results(c, aesthetics).metrics),
{
}

proof fn signal_metrics_are_whole(c: ScoreContextV, m: SiReals)
    ensures
        are_whole(si_results(c, m).metrics),
{
}

proof fn crosstalk_metrics_are_whole(c: ScoreContextV, m: CrosstalkReals)
    ensures
        are_whole(crosstalk_results(c, m).metrics),
{
}

proof fn emission_metrics_are_whole(c: ScoreContextV, m: EmiReals)
    ensures
        are_whole(emi_results(c, m).metrics),
{
}

proof fn power_metrics_are_whole(c: ScoreContextV, m: PowerReals)
    ensures
        are_whole(power_results(c, m).metrics),
{
}

proof fn discharge_metrics_are_whole(c: ScoreContextV, m: EsdReals)
    ensures
        are_whole(esd_results(c, m).metrics),
{
}

/// Every metric of the families that need declarations is whole.
pub proof fn declared_metrics_are_whole(
    c: ScoreContextV,
    si: SiReals,
    crosstalk: CrosstalkReals,
    emi: EmiReals,
    power: PowerReals,
    esd: EsdReals,
)
    ensures
        are_whole(si_results(c, si).metrics),
        are_whole(crosstalk_results(c, crosstalk).metrics),
        are_whole(emi_results(c, emi).metrics),
        are_whole(power_results(c, power).metrics),
        are_whole(esd_results(c, esd).metrics),
{
    signal_metrics_are_whole(c, si);
    crosstalk_metrics_are_whole(c, crosstalk);
    emission_metrics_are_whole(c, emi);
    power_metrics_are_whole(c, power);
    discharge_metrics_are_whole(c, esd);
}

/// None of the metrics applies.
pub open spec fn none_applies(metrics: Seq<MetricResultV>) -> bool {
    forall|i: int| 0 <= i < metrics.len() ==> !(#[trigger] metrics[i]).applicable
}

/// Without a netlist nothing is guessed: no metric of signals, power or discharge applies.
pub proof fn nothing_is_guessed(c: ScoreContextV, si: SiReals, power: PowerReals, esd: EsdReals)
    requires
        c.net_classes is None,
    ensures
        none_applies(si_results(c, si).metrics),
        none_applies(power_results(c, power).metrics),
        none_applies(esd_results(c, esd).metrics),
{
}

} // verus!
