//! All the families of metrics together.
use vstd::prelude::*;

use crate::score::metrics::aesthetics::{
    aesthetics_fits, aesthetics_results, AestheticsPass, AestheticsReals,
};
use crate::score::metrics::context::{ScoreContext, ScoreContextV};
use crate::score::metrics::crosstalk::{
    crosstalk_fits, crosstalk_results, CrosstalkPass, CrosstalkReals,
};
use crate::score::metrics::dfm::{dfm_fits, dfm_results, DfmPass, DfmReals};
use crate::score::metrics::drc::{drc_results, DrcPass};
use crate::score::metrics::emi::{emi_fits, emi_results, EmiPass, EmiReals};
use crate::score::metrics::esd::{esd_fits, esd_results, EsdPass, EsdReals};
use crate::score::metrics::placement::{
    placement_fits, placement_results, PlacementPass, PlacementReals,
};
use crate::score::metrics::power::{power_fits, power_results, PowerPass, PowerReals};
use crate::score::metrics::routing::{compared, routing_results, RoutingPass, RoutingReals};
use crate::score::metrics::si::{si_fits, si_results, SiPass, SiReals};
use crate::score::metrics::thermal::{thermal_fits, thermal_results, ThermalPass, ThermalReals};
use crate::score::model::{CategoryResult, CategoryResultV};

verus! {

/// What is measured for each family. The family of the design rule check needs no measurement.
pub struct FamilyReals {
    pub routing: RoutingReals,
    pub si: SiReals,
    pub crosstalk: CrosstalkReals,
    pub emi: EmiReals,
    pub power: PowerReals,
    pub esd: EsdReals,
    pub thermal: ThermalReals,
    pub dfm: DfmReals,
    pub placement: PlacementReals,
    pub aesthetics: AestheticsReals,
}

/// What is measured fits the board, for each family.
pub open spec fn families_fit(c: ScoreContextV, m: FamilyReals) -> bool {
    &&& m.routing.detours@.len() == compared(c.net_stats).len()
    &&& si_fits(c, m.si)
    &&& crosstalk_fits(c, m.crosstalk)
    &&& emi_fits(c, m.emi)
    &&& power_fits(c, m.power)
    &&& esd_fits(c, m.esd)
    &&& thermal_fits(c, m.thermal)
    &&& dfm_fits(c, m.dfm)
    &&& placement_fits(c, m.placement)
    &&& aesthetics_fits(c, m.aesthetics)
}

/// The results of all families, in report order.
pub open spec fn family_results(c: ScoreContextV, m: FamilyReals) -> Seq<CategoryResultV> {
    seq![
        drc_results(c),
        routing_results(c, m.routing),
        si_results(c, m.si),
        crosstalk_results(c, m.crosstalk),
        emi_results(c, m.emi),
        power_results(c, m.power),
        esd_results(c, m.esd),
        thermal_results(c, m.thermal),
        dfm_results(c, m.dfm),
        placement_results(c, m.placement),
        aesthetics_results(c, m.aesthetics),
    ]
}

/// Runs all families, in report order.
pub fn run_families(ctx: &ScoreContext, reals: &FamilyReals) -> (r: Vec<CategoryResult>)
    requires
        families_fit(ctx.deep_view(), *reals),
    ensures
        r.deep_view() == family_results(ctx.deep_view(), *reals),
{
    let mut out: Vec<CategoryResult> = Vec::new();
    out.push(DrcPass.run(ctx));
    out.push(RoutingPass.run(ctx, &reals.routing));
    out.push(SiPass.run(ctx, &reals.si));
    out.push(CrosstalkPass.run(ctx, &reals.crosstalk));
    out.push(EmiPass.run(ctx, &reals.emi));
    out.push(PowerPass.run(ctx, &reals.power));
    out.push(EsdPass.run(ctx, &reals.esd));
    out.push(ThermalPass.run(ctx, &reals.thermal));
    out.push(DfmPass.run(ctx, &reals.dfm));
    out.push(PlacementPass.run(ctx, &reals.placement));
    out.push(AestheticsPass.run(ctx, &reals.aesthetics));
    assert(out.deep_view() =~= family_results(ctx.deep_view(), *reals));
    out
}

/// The families of a report, by their names, in order.
pub open spec fn family_names() -> Seq<Seq<char>> {
    seq![
        "drc"@,
        "routing_efficiency"@,
        "signal_integrity"@,
        "crosstalk"@,
        "emi"@,
        "power_integrity"@,
        "esd"@,
        "thermal"@,
        "dfm"@,
        "placement"@,
        "aesthetics"@,
    ]
}

/// Every report holds the same families in the same order, whatever the board and whatever is
/// known of it.
pub proof fn families_keep_report_order(c: ScoreContextV, m: FamilyReals)
    ensures
        family_results(c, m).map_values(|r: CategoryResultV| r.id) == family_names(),
{
    assert(family_results(c, m).map_values(|r: CategoryResultV| r.id) =~= family_names());
}

} // verus!
