//! What the metrics on the board alone count, and when they apply.
use vstd::prelude::*;

use crate::number::{below, finite, least, no_number, place, zero, Real, INFINITE};
use crate::score::airwires::{all_wires, net_pads, Airwire};
use crate::score::board::{BoardModelV, TrackV, ViaV};
use crate::score::gates::is_routable;
use crate::score::metrics::aesthetics::{
    even_nets, nets_with_widths, orphan_tracks, orphan_vias, width_count, AestheticsPass,
    AestheticsReals,
};
use crate::score::metrics::context::{ScoreContext, ViolationV};
use crate::score::metrics::dfm::{
    any_smd, drilled_vias, drills_at, has_smd, is_drilled, is_small, sits_in_pad, vias_in_pads,
    widths_of, DfmPass, DfmReals,
};
use crate::score::metrics::drc::DrcPass;
use crate::score::metrics::esd_select::{pad_at, PadAt};
use crate::score::metrics::placement::{
    cross_at, crossings_from, crossings_of, PlacementPass, PlacementReals,
};
use crate::score::metrics::routing::{compared, spread_out, zone_free, RoutingPass, RoutingReals};
use crate::score::metrics::tally::{every, field_of, sum_where, Field};
use crate::score::metrics::thermal::{exposed_of, spreads, ThermalPass, ThermalReals};
use crate::score::model::{Amount, CategoryResult, Rule};
use crate::score::net_stats::{has_detour, NetStatsV};
use crate::select::{places, places_are_exact};
use crate::sorted_map::map_find;

verus! {

/// The amounts of the items, added up.
pub open spec fn total<A>(items: Seq<A>, amount: spec_fn(A) -> nat) -> nat
    decreases items.len(),
{
    if items.len() == 0 {
        0
    } else {
        total(items.drop_last(), amount) + amount(items.last())
    }
}

/// How many items pass the test.
pub open spec fn count<A>(items: Seq<A>, test: spec_fn(A) -> bool) -> nat {
    places(items, test).len()
}

/// Some item passes the test exactly where one is counted.
pub proof fn some_count<A>(items: Seq<A>, test: spec_fn(A) -> bool)
    ensures
        count(items, test) > 0 <==> exists|i: int| 0 <= i < items.len() && test(#[trigger] items[i]),
{
    places_are_exact(items, test);
    let p = places(items, test);
    if p.len() > 0 {
        assert(p.contains(p[0]));
        assert(test(items[p[0]]));
    }
    if exists|i: int| 0 <= i < items.len() && test(#[trigger] items[i]) {
        let i = choose|i: int| 0 <= i < items.len() && test(#[trigger] items[i]);
        assert(p.contains(i));
    }
}

/// The design rule check counts its warnings, everything that was excluded, and where the board and
/// the schematic differ, which costs the whole grade; none of this where the check did not run.
pub proof fn drc_counts(pass: DrcPass, ctx: ScoreContext, r: CategoryResult)
    requires
        DrcPass::run.ensures((&pass, &ctx), r),
    ensures
        ({
            let m = r.metrics.deep_view();
            match ctx.deep_view().drc {
                Some(d) => {
                    let parity = count(d.schematic_parity, |v: ViolationV| !v.excluded);
                    &&& m[0].raw == Some(Amount::Count(d.warning_count as u128))
                    &&& m[1].raw == Some(
                        Amount::Count(
                            (count(d.violations, |v: ViolationV| v.excluded) + count(
                                d.unconnected_items,
                                |v: ViolationV| v.excluded,
                            )) as u128,
                        ),
                    )
                    &&& m[2].raw == Some(Amount::Count(parity as u128))
                    &&& m[2].normalized->0.rule == if parity == 0 {
                        Rule::Fixed(1000)
                    } else {
                        Rule::Fixed(0)
                    }
                    &&& m[0].applicable && m[1].applicable && m[2].applicable
                },
                None => !m[0].applicable && !m[1].applicable && !m[2].applicable,
            }
        }),
{
}

proof fn sums_agree(stats: Seq<NetStatsV>, test: spec_fn(NetStatsV) -> bool, f: Field)
    ensures
        sum_where(stats, test, f) == total(
            stats,
            |s: NetStatsV|
                if test(s) {
                    field_of(s, f) as nat
                } else {
                    0
                },
        ),
    decreases stats.len(),
{
    if stats.len() > 0 {
        sums_agree(stats.drop_last(), test, f);
    }
}

proof fn totals_agree<A>(items: Seq<A>, f: spec_fn(A) -> nat, g: spec_fn(A) -> nat)
    requires
        forall|x: A| #[trigger] f(x) == g(x),
    ensures
        total(items, f) == total(items, g),
    decreases items.len(),
{
    if items.len() > 0 {
        totals_agree(items.drop_last(), f, g);
        assert(f(items.last()) == g(items.last()));
    }
}

/// The metrics on routing count over the nets: vias on nets of two pads or more without a zone, nets
/// of two pads or more on more than two layers, tracks that could be one, and turns back.
pub proof fn routing_counts(pass: RoutingPass, ctx: ScoreContext, reals: RoutingReals, r: CategoryResult)
    requires
        RoutingPass::run.ensures((&pass, &ctx, &reals), r),
    ensures
        ({
            let m = r.metrics.deep_view();
            let stats = ctx.deep_view().net_stats;
            let nets = count(stats, |s: NetStatsV| s.pad_count >= 2);
            let bare = count(stats, |s: NetStatsV| s.pad_count >= 2 && !s.has_zone);
            let segments = total(stats, |s: NetStatsV| s.segment_count as nat);
            &&& m[0].applicable <==> exists|i: int|
                0 <= i < stats.len() && (#[trigger] stats[i]).connected && stats[i].pad_count >= 2
                    && below(Real { bits: 0x3e11_2e0b_e826_d695 }, stats[i].mst_length)
            &&& m[2].applicable <==> bare > 0
            &&& m[2].applicable ==> m[2].raw == Some(
                Amount::Ratio(
                    total(
                        stats,
                        |s: NetStatsV|
                            if s.pad_count >= 2 && !s.has_zone {
                                s.via_count as nat
                            } else {
                                0
                            },
                    ) as u128,
                    bare as u128,
                ),
            )
            &&& m[3].applicable <==> nets > 0
            &&& m[3].applicable ==> m[3].raw == Some(
                Amount::Ratio(
                    count(
                        stats,
                        |s: NetStatsV| s.pad_count >= 2 && s.layers_used.len() > 2,
                    ) as u128,
                    nets as u128,
                ),
            )
            &&& m[4].applicable <==> segments > 0
            &&& m[4].applicable ==> m[4].raw == Some(
                Amount::Ratio(
                    total(stats, |s: NetStatsV| s.mergeable_pairs as nat) as u128,
                    segments as u128,
                ),
            )
            &&& m[5].applicable <==> segments > 0 && nets > 0
            &&& m[5].applicable ==> m[5].raw == Some(
                Amount::Ratio(
                    total(stats, |s: NetStatsV| s.direction_reversals as nat) as u128,
                    nets as u128,
                ),
            )
            &&& m[6].raw == Some(Amount::Measured(reals.stub_total))
            &&& m[7].applicable <==> ctx.deep_view().board.copper_layers.len() >= 2 && count(
                reals.layer_lengths@,
                |x: Real| below(zero(), x),
            ) >= 2
        }),
{
    let stats = ctx.deep_view().net_stats;
    some_count(stats, |s: NetStatsV| has_detour(s));
    let a = |s: NetStatsV| s.pad_count >= 2;
    assert(a =~= |s: NetStatsV| is_routable(s));
    let b = |s: NetStatsV| s.pad_count >= 2 && !s.has_zone;
    assert(b =~= zone_free());
    let c = |s: NetStatsV| s.pad_count >= 2 && s.layers_used.len() > 2;
    assert(c =~= spread_out());
    sums_agree(stats, zone_free(), Field::Vias);
    sums_agree(stats, every(), Field::Segments);
    sums_agree(stats, every(), Field::Mergeable);
    sums_agree(stats, every(), Field::Reversals);
    totals_agree(
        stats,
        |s: NetStatsV|
            if zone_free()(s) {
                field_of(s, Field::Vias) as nat
            } else {
                0
            },
        |s: NetStatsV|
            if s.pad_count >= 2 && !s.has_zone {
                s.via_count as nat
            } else {
                0
            },
    );
    totals_agree(
        stats,
        |s: NetStatsV|
            if every()(s) {
                field_of(s, Field::Segments) as nat
            } else {
                0
            },
        |s: NetStatsV| s.segment_count as nat,
    );
    totals_agree(
        stats,
        |s: NetStatsV|
            if every()(s) {
                field_of(s, Field::Mergeable) as nat
            } else {
                0
            },
        |s: NetStatsV| s.mergeable_pairs as nat,
    );
    totals_agree(
        stats,
        |s: NetStatsV|
            if every()(s) {
                field_of(s, Field::Reversals) as nat
            } else {
                0
            },
        |s: NetStatsV| s.direction_reversals as nat,
    );
    let p = compared(stats);
    let q = |s: NetStatsV| has_detour(s);
    assert(p == places(stats, q));
    if p.len() > 0 {
        let i = choose|i: int| 0 <= i < stats.len() && q(#[trigger] stats[i]);
        assert(stats[i].connected);
    }
    if exists|i: int|
        0 <= i < stats.len() && (#[trigger] stats[i]).connected && stats[i].pad_count >= 2 && below(
            Real { bits: 0x3e11_2e0b_e826_d695 },
            stats[i].mst_length,
        ) {
        let i = choose|i: int|
            0 <= i < stats.len() && (#[trigger] stats[i]).connected && stats[i].pad_count >= 2
                && below(Real { bits: 0x3e11_2e0b_e826_d695 }, stats[i].mst_length);
        assert(q(stats[i]));
    }
}

/// The value is among the values and none of them is below it.
pub open spec fn is_least(x: Real, values: Seq<Real>) -> bool {
    values.contains(x) && forall|i: int| 0 <= i < values.len() ==> !below(#[trigger] values[i], x)
}

proof fn least_is_least(values: Seq<Real>)
    requires
        values.len() > 0,
        forall|i: int| 0 <= i < values.len() ==> finite(#[trigger] values[i]),
    ensures
        is_least(least(Real { bits: INFINITE }, values), values),
    decreases values.len(),
{
    let front = values.drop_last();
    let start = Real { bits: INFINITE };
    let last = values.last();
    assert(values[values.len() - 1] == last);
    assert(finite(last));
    let r = least(start, values);
    assert(values.contains(last));
    if front.len() > 0 {
        assert forall|i: int| 0 <= i < front.len() implies finite(#[trigger] front[i]) by {
            assert(front[i] == values[i]);
        }
        least_is_least(front);
        let f = least(start, front);
        let k = choose|k: int| 0 <= k < front.len() && front[k] == f;
        assert(values[k] == f);
        assert(finite(front[k]));
        assert forall|i: int| 0 <= i < values.len() implies !below(#[trigger] values[i], r) by {
            if i < front.len() {
                assert(front[i] == values[i]);
                assert(!below(front[i], f));
            }
        }
    } else {
        assert(front =~= Seq::empty());
        assert(least(start, front) == start);
        assert(below(last, start));
        assert(r == last);
        assert forall|i: int| 0 <= i < values.len() implies !below(#[trigger] values[i], r) by {
            assert(i == 0);
        }
    }
}

proof fn vias_in_pads_counted(b: BoardModelV, areas: Seq<Real>, inside: Seq<Seq<bool>>, n: int)
    requires
        0 <= n <= inside.len(),
    ensures
        vias_in_pads(b, areas, inside, n) == count(
            inside.take(n),
            |row: Seq<bool>|
                exists|k: int|
                    0 <= k < net_pads(b, None).len() && pad_at(
                        b,
                        #[trigger] net_pads(b, None)[k],
                    ).kind == "smd"@ && below(areas[k], Real { bits: 0x4010_0000_0000_0000 })
                        && row[k],
        ),
    decreases n,
{
    let test = |row: Seq<bool>|
        exists|k: int|
            0 <= k < net_pads(b, None).len() && pad_at(b, #[trigger] net_pads(b, None)[k]).kind
                == "smd"@ && below(areas[k], Real { bits: 0x4010_0000_0000_0000 }) && row[k];
    if n > 0 {
        vias_in_pads_counted(b, areas, inside, n - 1);
        assert(inside.take(n).drop_last() =~= inside.take(n - 1));
        assert(inside.take(n).last() == inside[n - 1]);
        let pads = net_pads(b, None);
        let row = inside[n - 1];
        if test(row) {
            let k = choose|k: int|
                0 <= k < pads.len() && pad_at(b, #[trigger] pads[k]).kind == "smd"@ && below(
                    areas[k],
                    Real { bits: 0x4010_0000_0000_0000 },
                ) && row[k];
            assert(is_small(b, pads[k], areas[k]));
        }
        if sits_in_pad(b, pads, areas, row) {
            let k = choose|k: int|
                0 <= k < pads.len() && is_small(
                    b,
                    #[trigger] pads[k],
                    areas[k],
                ) && row[k];
            assert(pad_at(b, pads[k]).kind == "smd"@);
        }
    }
}

/// The metrics on manufacturability: the narrowest track, the smallest drill among the vias that
/// have a drill and a size, the vias inside surface-mount pads of less than four square millimetres,
/// and sharp junctions.
pub proof fn dfm_counts(pass: DfmPass, ctx: ScoreContext, reals: DfmReals, r: CategoryResult)
    requires
        DfmPass::run.ensures((&pass, &ctx, &reals), r),
        reals.inside@.len() == ctx.deep_view().board.vias.len(),
        forall|i: int|
            0 <= i < ctx.deep_view().board.tracks.len() ==> finite(
                (#[trigger] ctx.deep_view().board.tracks[i]).width,
            ),
        forall|i: int|
            0 <= i < ctx.deep_view().board.vias.len() ==> finite(
                (#[trigger] ctx.deep_view().board.vias[i]).drill,
            ),
    ensures
        ({
            let m = r.metrics.deep_view();
            let b = ctx.deep_view().board;
            let drills = drills_at(
                b,
                places(b.vias, |v: ViaV| below(zero(), v.drill) && below(zero(), v.size)),
            );
            let smd = exists|f: int, k: int|
                0 <= f < b.footprints.len() && 0 <= k < b.footprints[f].pads.len() && (
                #[trigger] b.footprints[f].pads[k]).kind == "smd"@;
            &&& b.vias.len() == 0 ==> !m[0].applicable && !m[1].applicable && !m[2].applicable
            &&& m[1].applicable && drills.len() > 0 ==> m[1].raw is Some && m[1].raw->0 is Measured
                && is_least(m[1].raw->0->Measured_0, drills)
            &&& m[3].applicable <==> smd && b.vias.len() > 0
            &&& m[3].applicable ==> m[3].raw == Some(
                Amount::Count(
                    count(
                        reals.inside.deep_view(),
                        |row: Seq<bool>|
                            exists|k: int|
                                0 <= k < net_pads(b, None).len() && pad_at(
                                    b,
                                    #[trigger] net_pads(b, None)[k],
                                ).kind == "smd"@ && below(
                                    reals.areas@[k],
                                    Real { bits: 0x4010_0000_0000_0000 },
                                ) && row[k],
                    ) as u128,
                ),
            )
            &&& m[4].applicable <==> b.tracks.len() > 0
            &&& m[4].applicable ==> m[4].raw is Some && m[4].raw->0 is Measured && is_least(
                m[4].raw->0->Measured_0,
                widths_of(b.tracks),
            )
            &&& m[5].raw == Some(
                Amount::Count(
                    total(
                        ctx.deep_view().net_stats,
                        |s: NetStatsV| s.acute_junctions as nat,
                    ) as u128,
                ),
            )
        }),
{
    let b = ctx.deep_view().board;
    let stats = ctx.deep_view().net_stats;
    let f = |v: ViaV| below(zero(), v.drill) && below(zero(), v.size);
    assert(f =~= |v: ViaV| is_drilled(v));
    let at = drilled_vias(b);
    places_are_exact(b.vias, f);
    let drills = drills_at(b, at);
    assert forall|i: int| 0 <= i < drills.len() implies finite(#[trigger] drills[i]) by {
        assert(at.contains(at[i]));
        assert(finite(b.vias[at[i]].drill));
    }
    if drills.len() > 0 {
        least_is_least(drills);
    }
    let widths = widths_of(b.tracks);
    assert forall|i: int| 0 <= i < widths.len() implies finite(#[trigger] widths[i]) by {
        assert(finite(b.tracks[i].width));
    }
    if widths.len() > 0 {
        least_is_least(widths);
    }
    let inside = reals.inside.deep_view();
    assert(inside.len() == reals.inside@.len());
    vias_in_pads_counted(b, reals.areas@, inside, b.vias.len() as int);
    assert(inside.take(b.vias.len() as int) =~= inside);
    sums_agree(stats, every(), Field::Acute);
    totals_agree(
        stats,
        |s: NetStatsV|
            if every()(s) {
                field_of(s, Field::Acute) as nat
            } else {
                0
            },
        |s: NetStatsV| s.acute_junctions as nat,
    );
    if any_smd(b) {
        let x = choose|x: int| 0 <= x < b.footprints.len() && has_smd((#[trigger] b.footprints[x]).pads);
        let pads = b.footprints[x].pads;
        let k = choose|k: int| 0 <= k < pads.len() && (#[trigger] pads[k]).kind == "smd"@;
        assert(b.footprints[x].pads[k].kind == "smd"@);
    }
    if exists|x: int, k: int|
        0 <= x < b.footprints.len() && 0 <= k < b.footprints[x].pads.len() && (
        #[trigger] b.footprints[x].pads[k]).kind == "smd"@ {
        let (x, k) = choose|x: int, k: int|
            0 <= x < b.footprints.len() && 0 <= k < b.footprints[x].pads.len() && (
            #[trigger] b.footprints[x].pads[k]).kind == "smd"@;
        assert(has_smd(b.footprints[x].pads));
    }
}

/// The net has no number or no name.
pub open spec fn is_nobody(b: BoardModelV, net: i64) -> bool {
    net == 0 || map_find(b.nets, net) is None || map_find(b.nets, net)->0.len() == 0
}

proof fn orphans_counted(b: BoardModelV, n: int)
    requires
        0 <= n <= b.tracks.len(),
    ensures
        orphan_tracks(b, n) == count(b.tracks.take(n), |t: TrackV| is_nobody(b, t.net)),
    decreases n,
{
    if n > 0 {
        orphans_counted(b, n - 1);
        assert(b.tracks.take(n).drop_last() =~= b.tracks.take(n - 1));
    }
}

proof fn orphan_vias_counted(b: BoardModelV, n: int)
    requires
        0 <= n <= b.vias.len(),
    ensures
        orphan_vias(b, n) == count(b.vias.take(n), |t: ViaV| is_nobody(b, t.net)),
    decreases n,
{
    if n > 0 {
        orphan_vias_counted(b, n - 1);
        assert(b.vias.take(n).drop_last() =~= b.vias.take(n - 1));
    }
}

proof fn widths_counted(b: BoardModelV, widths: Seq<u64>, stats: Seq<NetStatsV>)
    ensures
        nets_with_widths(b, widths, stats) == count(
            stats,
            |s: NetStatsV| width_count(b, widths, s.net) > 0,
        ),
        even_nets(b, widths, stats) == count(
            stats,
            |s: NetStatsV| 0 < width_count(b, widths, s.net) <= 2,
        ),
    decreases stats.len(),
{
    if stats.len() > 0 {
        widths_counted(b, widths, stats.drop_last());
    }
}

/// The metrics on looks: of the nets with tracks, those whose tracks have one or two widths; and
/// the tracks and vias that belong to no net.
pub proof fn aesthetics_counts(
    pass: AestheticsPass,
    ctx: ScoreContext,
    reals: AestheticsReals,
    r: CategoryResult,
)
    requires
        AestheticsPass::run.ensures((&pass, &ctx, &reals), r),
    ensures
        ({
            let m = r.metrics.deep_view();
            let b = ctx.deep_view().board;
            let stats = ctx.deep_view().net_stats;
            &&& b.tracks.len() == 0 ==> !m[0].applicable && !m[1].applicable && !m[2].applicable
                && !m[3].applicable
            &&& m[1].applicable ==> m[1].raw == Some(
                Amount::Ratio(
                    count(
                        stats,
                        |s: NetStatsV| 0 < width_count(b, reals.widths@, s.net) <= 2,
                    ) as u128,
                    count(stats, |s: NetStatsV| width_count(b, reals.widths@, s.net) > 0) as u128,
                ),
            )
            &&& b.tracks.len() > 0 ==> m[0].applicable && m[2].applicable && m[3].applicable
            &&& b.tracks.len() > 0 ==> m[3].raw == Some(
                Amount::Count(
                    (count(b.tracks, |t: TrackV| is_nobody(b, t.net)) + count(
                        b.vias,
                        |t: ViaV| is_nobody(b, t.net),
                    )) as u128,
                ),
            )
        }),
{
    let b = ctx.deep_view().board;
    orphans_counted(b, b.tracks.len() as int);
    assert(b.tracks.take(b.tracks.len() as int) =~= b.tracks);
    orphan_vias_counted(b, b.vias.len() as int);
    assert(b.vias.take(b.vias.len() as int) =~= b.vias);
    widths_counted(b, reals.widths@, ctx.deep_view().net_stats);
}

proof fn no_crossing_in_row(wires: Seq<Airwire>, crosses: Seq<Seq<bool>>, i: int, j: int)
    requires
        0 <= j,
    ensures
        crossings_of(wires, crosses, i, j) == 0 <==> forall|k: int|
            j <= k < wires.len() ==> !(wires[i].net != (#[trigger] wires[k]).net && crosses[i][k]),
    decreases wires.len() - j,
{
    if j < wires.len() {
        no_crossing_in_row(wires, crosses, i, j + 1);
        assert(cross_at(wires, crosses, i, j) == (wires[i].net != wires[j].net && crosses[i][j]));
    }
}

proof fn no_crossing(wires: Seq<Airwire>, crosses: Seq<Seq<bool>>, i: int)
    requires
        0 <= i,
    ensures
        crossings_from(wires, crosses, i) == 0 <==> forall|x: int, k: int|
            i <= x < k < wires.len() ==> !((#[trigger] wires[x]).net != (#[trigger] wires[k]).net
                && crosses[x][k]),
    decreases wires.len() - i,
{
    if i < wires.len() {
        no_crossing(wires, crosses, i + 1);
        no_crossing_in_row(wires, crosses, i, i + 1);
        if crossings_from(wires, crosses, i) == 0 {
            assert forall|x: int, k: int| i <= x < k < wires.len() implies !((
            #[trigger] wires[x]).net != (#[trigger] wires[k]).net && crosses[x][k]) by {
                if x == i {
                    assert(!(wires[i].net != wires[k].net && crosses[i][k]));
                }
            }
        }
    }
}

/// The airwires are free of crossings exactly where no two of different nets cross, and crossings
/// are counted by net of two pads or more.
pub proof fn airwires_of_one_net_never_cross(
    pass: PlacementPass,
    ctx: ScoreContext,
    reals: PlacementReals,
    r: CategoryResult,
)
    requires
        PlacementPass::run.ensures((&pass, &ctx, &reals), r),
        crossings_from(
            all_wires(ctx.deep_view().board, reals.distances.deep_view()),
            reals.crosses.deep_view(),
            0,
        ) <= u128::MAX,
    ensures
        ({
            let m = r.metrics.deep_view();
            let wires = all_wires(ctx.deep_view().board, reals.distances.deep_view());
            let crosses = reals.crosses.deep_view();
            let nets = count(ctx.deep_view().net_stats, |s: NetStatsV| s.pad_count >= 2);
            &&& m[0].applicable <==> wires.len() > 0 && nets > 0
            &&& m[0].applicable ==> m[0].raw is Some && m[0].raw->0 is Ratio
                && m[0].raw->0->Ratio_1 == nets as u128
            &&& m[0].applicable ==> (m[0].raw->0->Ratio_0 == 0 <==> forall|x: int, k: int|
                0 <= x < k < wires.len() ==> !((#[trigger] wires[x]).net != (
                #[trigger] wires[k]).net && crosses[x][k]))
            &&& m[3].applicable <==> reals.windows@.len() > 0
        }),
{
    let wires = all_wires(ctx.deep_view().board, reals.distances.deep_view());
    no_crossing(wires, reals.crosses.deep_view(), 0);
    let a = |s: NetStatsV| s.pad_count >= 2;
    assert(a =~= |s: NetStatsV| is_routable(s));
}

proof fn exposed_are_large(b: BoardModelV, pads: Seq<PadAt>, areas: Seq<Real>, n: int)
    requires
        0 <= n <= pads.len(),
    ensures
        exposed_of(b, pads, areas, n).len() > 0 <==> exists|k: int|
            0 <= k < n && pad_at(b, #[trigger] pads[k]).kind == "smd"@ && !no_number(areas[k])
                && place(areas[k]) >= 0x4010_0000_0000_0000,
        forall|x: int|
            0 <= x < exposed_of(b, pads, areas, n).len() ==> pad_at(
                b,
                #[trigger] exposed_of(b, pads, areas, n)[x],
            ).kind == "smd"@,
    decreases n,
{
    if n > 0 {
        exposed_are_large(b, pads, areas, n - 1);
    }
}

/// The metrics on heat apply where a surface-mount pad has four square millimetres or more; heat
/// spreads only on boards of more than two layers.
pub proof fn heat_needs_exposed_pads(
    pass: ThermalPass,
    ctx: ScoreContext,
    reals: ThermalReals,
    r: CategoryResult,
)
    requires
        ThermalPass::run.ensures((&pass, &ctx, &reals), r),
        reals.areas@.len() == net_pads(ctx.deep_view().board, None).len(),
    ensures
        ({
            let m = r.metrics.deep_view();
            let b = ctx.deep_view().board;
            let pads = net_pads(b, None);
            &&& m[0].applicable <==> exists|k: int|
                0 <= k < pads.len() && pad_at(b, #[trigger] pads[k]).kind == "smd"@ && !no_number(
                    reals.areas@[k],
                ) && place(reals.areas@[k]) >= 0x4010_0000_0000_0000
            &&& m[1].applicable ==> m[0].applicable && b.copper_layers.len() > 2
            &&& m[0].applicable ==> m[0].raw == Some(Amount::Measured(reals.mean_fill))
        }),
{
    let b = ctx.deep_view().board;
    exposed_are_large(b, net_pads(b, None), reals.areas@, reals.areas@.len() as int);
}

} // verus!
