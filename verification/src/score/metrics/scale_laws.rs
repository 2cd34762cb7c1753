//! The scale of every metric: under which name it is reported, in which unit, how it is graded, and
//! what it weighs in its family.
use vstd::prelude::*;

use crate::score::metrics::context::{ScoreContext, Weights};
use crate::score::metrics::aesthetics::{AestheticsPass, AestheticsReals};
use crate::score::metrics::crosstalk::{CrosstalkPass, CrosstalkReals};
use crate::score::metrics::dfm::{DfmPass, DfmReals};
use crate::score::metrics::drc::{DrcPass};
use crate::score::metrics::emi::{EmiPass, EmiReals};
use crate::score::metrics::esd::{EsdPass, EsdReals};
use crate::score::metrics::placement::{PlacementPass, PlacementReals};
use crate::score::metrics::power::{PowerPass, PowerReals};
use crate::score::metrics::routing::{RoutingPass, RoutingReals};
use crate::score::metrics::si::{SiPass, SiReals};
use crate::score::metrics::thermal::{ThermalPass, ThermalReals};
use crate::score::model::{CategoryResult, MetricResultV, Rule};

verus! {

/// The metric goes by the name and, where it applies, has the unit and the weight and is graded by
/// one of the rules.
pub open spec fn is_rated(
    m: MetricResultV,
    id: Seq<char>,
    unit: Seq<char>,
    rules: Seq<Rule>,
    weight: u32,
) -> bool {
    &&& m.id == id
    &&& m.applicable ==> {
        &&& m.unit == Some(unit)
        &&& m.weight == weight
        &&& m.raw is Some
        &&& m.normalized is Some
        &&& rules.contains(m.normalized->0.rule)
    }
}

/// The metric is rated, and by its own amount.
pub open spec fn is_graded(
    m: MetricResultV,
    id: Seq<char>,
    unit: Seq<char>,
    rules: Seq<Rule>,
    weight: u32,
) -> bool {
    is_rated(m, id, unit, rules, weight) && (m.applicable ==> Some(m.normalized->0.basis) == m.raw)
}

/// The pads that a window of a square centimetre may hold: forty for each copper layer, in
/// thousandths; a board without layers counts as having one.
pub open spec fn pads_per_window(layers: nat) -> u64 {
    (40000 * if layers == 0 {
        1
    } else {
        layers
    }) as u64
}

proof fn one_of(rules: Seq<Rule>, r: Rule, i: int)
    requires
        0 <= i < rules.len(),
        rules[i] == r,
    ensures
        rules.contains(r),
{
}

/// The scales of the metrics on the design rule check.
pub proof fn drc_scales(
    pass: DrcPass,
    ctx: ScoreContext,
    r: CategoryResult,
)
    requires
        DrcPass::run.ensures((&pass, &ctx), r),
    ensures
        r.id@ == "drc"@,
        r.weight == ctx.weights.drc,
        r.metrics@.len() == 3,
        ({
            let m = r.metrics.deep_view();
            &&& is_graded(m[0], "drc_warning_count"@, "count"@, seq![Rule::Decay(10000)], 30)
            &&& is_graded(m[1], "drc_exclusion_count"@, "count"@, seq![Rule::Decay(5000)], 10)
            &&& is_graded(
                m[2],
                "schematic_parity"@,
                "count"@,
                seq![Rule::Fixed(1000), Rule::Fixed(0)],
                20,
            )
        }),
{
    assert(r.metrics.deep_view().len() == r.metrics@.len());
    let m = r.metrics.deep_view();
    one_of(seq![Rule::Decay(10000)], Rule::Decay(10000), 0);
    one_of(seq![Rule::Decay(5000)], Rule::Decay(5000), 0);
    one_of(seq![Rule::Fixed(1000), Rule::Fixed(0)], Rule::Fixed(1000), 0);
    one_of(seq![Rule::Fixed(1000), Rule::Fixed(0)], Rule::Fixed(0), 1);
}

/// The scales of the metrics on routing efficiency.
pub proof fn routing_scales(
    pass: RoutingPass,
    ctx: ScoreContext,
    reals: RoutingReals,
    r: CategoryResult,
)
    requires
        RoutingPass::run.ensures((&pass, &ctx, &reals), r),
    ensures
        r.id@ == "routing_efficiency"@,
        r.weight == ctx.weights.routing_efficiency,
        r.metrics@.len() == 8,
        ({
            let m = r.metrics.deep_view();
            &&& is_graded(
                m[0],
                "detour_factor"@,
                "ratio"@,
                seq![Rule::Band(0, Some(1250), 0, 1250)],
                40,
            )
            &&& is_rated(
                m[1],
                "total_wire_length"@,
                "mm"@,
                seq![Rule::Band(0, Some(1250), 0, 1250)],
                20,
            )
            &&& is_graded(m[2], "via_count_per_net"@, "count"@, seq![Rule::Decay(2000)], 30)
            &&& is_graded(m[3], "unnecessary_layer_usage"@, "ratio"@, seq![Rule::Complement], 20)
            &&& is_graded(m[4], "segment_fragmentation"@, "ratio"@, seq![Rule::Complement], 10)
            &&& is_graded(m[5], "meander_score"@, "count"@, seq![Rule::Decay(3000)], 20)
            &&& is_graded(m[6], "stub_length"@, "mm"@, seq![Rule::Decay(2000)], 20)
            &&& is_graded(m[7], "routing_layer_balance"@, "gini"@, seq![Rule::Complement], 10)
        }),
{
    assert(r.metrics.deep_view().len() == r.metrics@.len());
    let m = r.metrics.deep_view();
    one_of(seq![Rule::Band(0, Some(1250), 0, 1250)], Rule::Band(0, Some(1250), 0, 1250), 0);
    one_of(seq![Rule::Band(0, Some(1250), 0, 1250)], Rule::Band(0, Some(1250), 0, 1250), 0);
    one_of(seq![Rule::Decay(2000)], Rule::Decay(2000), 0);
    one_of(seq![Rule::Complement], Rule::Complement, 0);
    one_of(seq![Rule::Complement], Rule::Complement, 0);
    one_of(seq![Rule::Decay(3000)], Rule::Decay(3000), 0);
    one_of(seq![Rule::Decay(2000)], Rule::Decay(2000), 0);
    one_of(seq![Rule::Complement], Rule::Complement, 0);
}

/// The scales of the metrics on signal integrity.
pub proof fn si_scales(
    pass: SiPass,
    ctx: ScoreContext,
    reals: SiReals,
    r: CategoryResult,
)
    requires
        SiPass::run.ensures((&pass, &ctx, &reals), r),
    ensures
        r.id@ == "signal_integrity"@,
        r.weight == ctx.weights.signal_integrity,
        r.metrics@.len() == 10,
        ({
            let m = r.metrics.deep_view();
            &&& is_graded(
                m[0],
                "impedance_compliance"@,
                "rel_err"@,
                seq![Rule::Band(0, Some(50), 0, 150)],
                40,
            )
            &&& is_graded(m[1], "diffpair_skew"@, "mm"@, seq![Rule::Decay(500)], 30)
            &&& is_graded(m[2], "diffpair_gap_consistency"@, "ratio"@, seq![Rule::Share(1000)], 20)
            &&& is_graded(m[3], "diffpair_decoupled_length"@, "mm"@, seq![Rule::Decay(2000)], 20)
            &&& is_graded(m[4], "stub_length_hs"@, "mm"@, seq![Rule::Decay(1000)], 30)
            &&& is_graded(m[5], "via_stub_proxy"@, "mm"@, seq![Rule::Decay(300)], 10)
            &&& is_graded(
                m[6],
                "reference_plane_continuity"@,
                "ratio"@,
                seq![Rule::Share(1000)],
                30,
            )
            &&& is_graded(
                m[7],
                "reference_change_stitching"@,
                "ratio"@,
                seq![Rule::Share(1000)],
                20,
            )
            &&& is_graded(m[8], "length_matching_groups"@, "mm"@, seq![Rule::Decay(2000)], 20)
            &&& is_graded(m[9], "corner_discipline_hs"@, "count"@, seq![Rule::Decay(5000)], 10)
        }),
{
    assert(r.metrics.deep_view().len() == r.metrics@.len());
    let m = r.metrics.deep_view();
    one_of(seq![Rule::Band(0, Some(50), 0, 150)], Rule::Band(0, Some(50), 0, 150), 0);
    one_of(seq![Rule::Decay(500)], Rule::Decay(500), 0);
    one_of(seq![Rule::Share(1000)], Rule::Share(1000), 0);
    one_of(seq![Rule::Decay(2000)], Rule::Decay(2000), 0);
    one_of(seq![Rule::Decay(1000)], Rule::Decay(1000), 0);
    one_of(seq![Rule::Decay(300)], Rule::Decay(300), 0);
    one_of(seq![Rule::Share(1000)], Rule::Share(1000), 0);
    one_of(seq![Rule::Share(1000)], Rule::Share(1000), 0);
    one_of(seq![Rule::Decay(2000)], Rule::Decay(2000), 0);
    one_of(seq![Rule::Decay(5000)], Rule::Decay(5000), 0);
}

/// The scales of the metrics on crosstalk.
pub proof fn crosstalk_scales(
    pass: CrosstalkPass,
    ctx: ScoreContext,
    reals: CrosstalkReals,
    r: CategoryResult,
)
    requires
        CrosstalkPass::run.ensures((&pass, &ctx, &reals), r),
    ensures
        r.id@ == "crosstalk"@,
        r.weight == ctx.weights.crosstalk,
        r.metrics@.len() == 5,
        ({
            let m = r.metrics.deep_view();
            &&& is_graded(
                m[0],
                "three_w_compliance"@,
                "ratio"@,
                seq![Rule::Share(1000), Rule::Fixed(1000)],
                30,
            )
            &&& is_graded(m[1], "parallel_coupling"@, "mm_per_mm2"@, seq![Rule::Decay(100000)], 40)
            &&& is_graded(m[2], "broadside_coupling"@, "mm_per_mm2"@, seq![Rule::Decay(200000)], 20)
            &&& is_graded(m[3], "sensitive_net_isolation"@, "x3w"@, seq![Rule::Share(1000)], 20)
                || is_graded(m[3], "sensitive_net_isolation"@, "ratio"@, seq![Rule::Fixed(1000)], 20)
            &&& is_graded(m[4], "crosstalk_hotspot_count"@, "count"@, seq![Rule::Decay(3000)], 20)
        }),
{
    assert(r.metrics.deep_view().len() == r.metrics@.len());
    let m = r.metrics.deep_view();
    one_of(seq![Rule::Share(1000), Rule::Fixed(1000)], Rule::Share(1000), 0);
    one_of(seq![Rule::Share(1000), Rule::Fixed(1000)], Rule::Fixed(1000), 1);
    one_of(seq![Rule::Decay(100000)], Rule::Decay(100000), 0);
    one_of(seq![Rule::Decay(200000)], Rule::Decay(200000), 0);
    one_of(seq![Rule::Share(1000)], Rule::Share(1000), 0);
    one_of(seq![Rule::Fixed(1000)], Rule::Fixed(1000), 0);
    one_of(seq![Rule::Decay(3000)], Rule::Decay(3000), 0);
}

/// The scales of the metrics on radiated noise.
pub proof fn emi_scales(
    pass: EmiPass,
    ctx: ScoreContext,
    reals: EmiReals,
    r: CategoryResult,
)
    requires
        EmiPass::run.ensures((&pass, &ctx, &reals), r),
    ensures
        r.id@ == "emi"@,
        r.weight == ctx.weights.emi,
        r.metrics@.len() == 7,
        ({
            let m = r.metrics.deep_view();
            &&& is_graded(m[0], "loop_area_proxy"@, "mm2"@, seq![Rule::Decay(20000)], 30)
            &&& is_graded(m[1], "edge_clearance"@, "mm"@, seq![Rule::Share(500)], 20)
            &&& is_graded(
                m[2],
                "edge_stitching_density"@,
                "mm"@,
                seq![Rule::Inverse(5000), Rule::Fixed(0)],
                10,
            )
            &&& is_graded(
                m[3],
                "stitching_via_density"@,
                "mm"@,
                seq![Rule::Decay(3000), Rule::Fixed(0)],
                10,
            )
            &&& is_graded(m[4], "plane_slot_crossings"@, "count"@, seq![Rule::Decay(1000)], 20)
            &&& is_graded(m[5], "outer_layer_hs_exposure"@, "ratio"@, seq![Rule::Complement], 10)
            &&& is_graded(
                m[6],
                "connector_shield_grounding"@,
                "ratio"@,
                seq![Rule::Share(1000)],
                10,
            )
        }),
{
    assert(r.metrics.deep_view().len() == r.metrics@.len());
    let m = r.metrics.deep_view();
    one_of(seq![Rule::Decay(20000)], Rule::Decay(20000), 0);
    one_of(seq![Rule::Share(500)], Rule::Share(500), 0);
    one_of(seq![Rule::Inverse(5000), Rule::Fixed(0)], Rule::Inverse(5000), 0);
    one_of(seq![Rule::Inverse(5000), Rule::Fixed(0)], Rule::Fixed(0), 1);
    one_of(seq![Rule::Decay(3000), Rule::Fixed(0)], Rule::Decay(3000), 0);
    one_of(seq![Rule::Decay(3000), Rule::Fixed(0)], Rule::Fixed(0), 1);
    one_of(seq![Rule::Decay(1000)], Rule::Decay(1000), 0);
    one_of(seq![Rule::Complement], Rule::Complement, 0);
    one_of(seq![Rule::Share(1000)], Rule::Share(1000), 0);
}

/// The scales of the metrics on power integrity.
pub proof fn power_scales(
    pass: PowerPass,
    ctx: ScoreContext,
    reals: PowerReals,
    r: CategoryResult,
)
    requires
        PowerPass::run.ensures((&pass, &ctx, &reals), r),
    ensures
        r.id@ == "power_integrity"@,
        r.weight == ctx.weights.power_integrity,
        r.metrics@.len() == 7,
        ({
            let m = r.metrics.deep_view();
            &&& is_graded(
                m[0],
                "trace_current_capacity"@,
                "width_ratio"@,
                seq![Rule::Band(1000, None, 700, 0)],
                40,
            )
            &&& is_graded(
                m[1],
                "current_budget_margin"@,
                "ratio"@,
                seq![Rule::Band(1200, None, 200, 0)],
                10,
            )
            &&& is_graded(
                m[2],
                "power_net_width_consistency"@,
                "ratio"@,
                seq![Rule::Share(1000)],
                10,
            )
            &&& is_graded(m[3], "decoupling_loop"@, "mm"@, seq![Rule::Decay(2000)], 20)
            &&& is_graded(m[4], "plane_coverage"@, "ratio"@, seq![Rule::Share(700)], 10)
            &&& is_graded(m[5], "power_via_count"@, "ratio"@, seq![Rule::Share(1000)], 10)
            &&& is_graded(m[6], "power_gnd_plane_pairing"@, "bool"@, seq![Rule::Share(1000)], 10)
        }),
{
    assert(r.metrics.deep_view().len() == r.metrics@.len());
    let m = r.metrics.deep_view();
    one_of(seq![Rule::Band(1000, None, 700, 0)], Rule::Band(1000, None, 700, 0), 0);
    one_of(seq![Rule::Band(1200, None, 200, 0)], Rule::Band(1200, None, 200, 0), 0);
    one_of(seq![Rule::Share(1000)], Rule::Share(1000), 0);
    one_of(seq![Rule::Decay(2000)], Rule::Decay(2000), 0);
    one_of(seq![Rule::Share(700)], Rule::Share(700), 0);
    one_of(seq![Rule::Share(1000)], Rule::Share(1000), 0);
    one_of(seq![Rule::Share(1000)], Rule::Share(1000), 0);
}

/// The scales of the metrics on protection against discharges.
pub proof fn esd_scales(
    pass: EsdPass,
    ctx: ScoreContext,
    reals: EsdReals,
    r: CategoryResult,
)
    requires
        EsdPass::run.ensures((&pass, &ctx, &reals), r),
    ensures
        r.id@ == "esd"@,
        r.weight == ctx.weights.esd,
        r.metrics@.len() == 5,
        ({
            let m = r.metrics.deep_view();
            &&& is_graded(m[0], "tvs_proximity"@, "mm"@, seq![Rule::Decay(5000)], 20)
            &&& is_graded(m[1], "protection_topology"@, "ratio"@, seq![Rule::Share(1000)], 20)
            &&& is_graded(m[2], "esd_return_path"@, "ratio"@, seq![Rule::Share(1000)], 20)
            &&& is_graded(
                m[3],
                "unprotected_connector_lines"@,
                "ratio"@,
                seq![Rule::Share(1000)],
                10,
            )
            &&& is_graded(m[4], "guard_structures"@, "ratio"@, seq![Rule::Share(1000)], 10)
        }),
{
    assert(r.metrics.deep_view().len() == r.metrics@.len());
    let m = r.metrics.deep_view();
    one_of(seq![Rule::Decay(5000)], Rule::Decay(5000), 0);
    one_of(seq![Rule::Share(1000)], Rule::Share(1000), 0);
    one_of(seq![Rule::Share(1000)], Rule::Share(1000), 0);
    one_of(seq![Rule::Share(1000)], Rule::Share(1000), 0);
    one_of(seq![Rule::Share(1000)], Rule::Share(1000), 0);
}

/// The scales of the metrics on heat.
pub proof fn thermal_scales(
    pass: ThermalPass,
    ctx: ScoreContext,
    reals: ThermalReals,
    r: CategoryResult,
)
    requires
        ThermalPass::run.ensures((&pass, &ctx, &reals), r),
    ensures
        r.id@ == "thermal"@,
        r.weight == ctx.weights.thermal,
        r.metrics@.len() == 2,
        ({
            let m = r.metrics.deep_view();
            &&& is_graded(m[0], "thermal_via_fill"@, "ratio"@, seq![Rule::Share(1000)], 20)
            &&& is_graded(
                m[1],
                "heat_spreading_layers"@,
                "ratio"@,
                seq![Rule::Share(1000), Rule::Fixed(0)],
                10,
            )
        }),
{
    assert(r.metrics.deep_view().len() == r.metrics@.len());
    let m = r.metrics.deep_view();
    one_of(seq![Rule::Share(1000)], Rule::Share(1000), 0);
    one_of(seq![Rule::Share(1000), Rule::Fixed(0)], Rule::Share(1000), 0);
    one_of(seq![Rule::Share(1000), Rule::Fixed(0)], Rule::Fixed(0), 1);
}

/// The scales of the metrics on manufacturability.
pub proof fn dfm_scales(
    pass: DfmPass,
    ctx: ScoreContext,
    reals: DfmReals,
    r: CategoryResult,
)
    requires
        DfmPass::run.ensures((&pass, &ctx, &reals), r),
    ensures
        r.id@ == "dfm"@,
        r.weight == ctx.weights.dfm,
        r.metrics@.len() == 6,
        ({
            let m = r.metrics.deep_view();
            &&& is_graded(m[0], "annular_ring_margin"@, "mm"@, seq![Rule::Share(125)], 20)
            &&& is_graded(m[1], "drill_margin"@, "mm"@, seq![Rule::Share(200)], 10)
            &&& is_graded(
                m[2],
                "via_aspect_ratio"@,
                "ratio"@,
                seq![Rule::Band(0, Some(10000), 0, 4000)],
                10,
            )
            &&& is_graded(m[3], "via_in_pad"@, "count"@, seq![Rule::Decay(2000)], 10)
            &&& is_graded(m[4], "min_track_width_margin"@, "mm"@, seq![Rule::Share(150)], 10)
            &&& is_graded(m[5], "acid_traps"@, "count"@, seq![Rule::Decay(5000)], 10)
        }),
{
    assert(r.metrics.deep_view().len() == r.metrics@.len());
    let m = r.metrics.deep_view();
    one_of(seq![Rule::Share(125)], Rule::Share(125), 0);
    one_of(seq![Rule::Share(200)], Rule::Share(200), 0);
    one_of(seq![Rule::Band(0, Some(10000), 0, 4000)], Rule::Band(0, Some(10000), 0, 4000), 0);
    one_of(seq![Rule::Decay(2000)], Rule::Decay(2000), 0);
    one_of(seq![Rule::Share(150)], Rule::Share(150), 0);
    one_of(seq![Rule::Decay(5000)], Rule::Decay(5000), 0);
}

/// The scales of the metrics on placement.
pub proof fn placement_scales(
    pass: PlacementPass,
    ctx: ScoreContext,
    reals: PlacementReals,
    r: CategoryResult,
)
    requires
        PlacementPass::run.ensures((&pass, &ctx, &reals), r),
    ensures
        r.id@ == "placement"@,
        r.weight == ctx.weights.placement,
        r.metrics@.len() == 4,
        ({
            let m = r.metrics.deep_view();
            &&& is_graded(m[0], "airwire_crossings"@, "count_per_net"@, seq![Rule::Decay(1000)], 20)
            &&& is_graded(m[1], "connector_edge_placement"@, "mm"@, seq![Rule::Decay(3000)], 10)
            &&& is_graded(
                m[2],
                "component_density"@,
                "ratio"@,
                seq![Rule::Band(50, Some(600), 50, 300)],
                10,
            )
            &&& is_graded(
                m[3],
                "pin_density_hotspots"@,
                "pads_per_cm2_window"@,
                seq![
                    Rule::Band(
                        0,
                        Some(pads_per_window(ctx.deep_view().board.copper_layers.len())),
                        0,
                        pads_per_window(ctx.deep_view().board.copper_layers.len()),
                    ),
                ],
                10,
            )
        }),
{
    assert(r.metrics.deep_view().len() == r.metrics@.len());
    let m = r.metrics.deep_view();
    one_of(seq![Rule::Decay(1000)], Rule::Decay(1000), 0);
    one_of(seq![Rule::Decay(3000)], Rule::Decay(3000), 0);
    one_of(seq![Rule::Band(50, Some(600), 50, 300)], Rule::Band(50, Some(600), 50, 300), 0);
    let limit = pads_per_window(ctx.deep_view().board.copper_layers.len());
    one_of(seq![Rule::Band(0, Some(limit), 0, limit)], Rule::Band(0, Some(limit), 0, limit), 0);
}

/// The scales of the metrics on looks.
pub proof fn aesthetics_scales(
    pass: AestheticsPass,
    ctx: ScoreContext,
    reals: AestheticsReals,
    r: CategoryResult,
)
    requires
        AestheticsPass::run.ensures((&pass, &ctx, &reals), r),
    ensures
        r.id@ == "aesthetics"@,
        r.weight == ctx.weights.aesthetics,
        r.metrics@.len() == 4,
        ({
            let m = r.metrics.deep_view();
            &&& is_graded(m[0], "angle_discipline"@, "ratio"@, seq![Rule::Share(1000)], 20)
            &&& is_graded(m[1], "width_consistency"@, "ratio"@, seq![Rule::Share(1000)], 10)
            &&& is_graded(m[2], "grid_adherence"@, "ratio"@, seq![Rule::Share(1000)], 5)
            &&& is_graded(m[3], "orphan_copper"@, "count"@, seq![Rule::Decay(2000)], 10)
        }),
{
    assert(r.metrics.deep_view().len() == r.metrics@.len());
    let m = r.metrics.deep_view();
    one_of(seq![Rule::Share(1000)], Rule::Share(1000), 0);
    one_of(seq![Rule::Share(1000)], Rule::Share(1000), 0);
    one_of(seq![Rule::Share(1000)], Rule::Share(1000), 0);
    one_of(seq![Rule::Decay(2000)], Rule::Decay(2000), 0);
}

/// Without other weights, signal integrity and routing weigh most, with 20 of 100 each; crosstalk
/// weighs 12, the design rule check, radiated noise and power 10 each, protection against discharges
/// and manufacturability 5 each, heat 4, placement and looks 2 each.
pub proof fn usual_weights_are_shares_of_a_hundred(w: Weights)
    requires
        Weights::default.ensures((), w),
    ensures
        w.routing_efficiency.bits == 0x4034_0000_0000_0000,
        w.signal_integrity == w.routing_efficiency,
        w.crosstalk.bits == 0x4028_0000_0000_0000,
        w.drc.bits == 0x4024_0000_0000_0000,
        w.emi == w.drc,
        w.power_integrity == w.drc,
        w.esd.bits == 0x4014_0000_0000_0000,
        w.dfm == w.esd,
        w.thermal.bits == 0x4010_0000_0000_0000,
        w.placement.bits == 0x4000_0000_0000_0000,
        w.aesthetics == w.placement,
{
}

} // verus!
