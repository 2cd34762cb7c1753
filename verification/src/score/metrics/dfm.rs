//! Metrics of manufacturability that the parsed board can tell.
use vstd::prelude::*;

use crate::number::{below, finite, least, least_of, zero, Real, INFINITE};
use crate::order::as_ints;
use crate::score::airwires::{find_net_pads, net_pads};
use crate::score::board::{BoardModel, BoardModelV, Pad, PadV, TrackV, Via, ViaV};
use crate::score::metrics::context::{ScoreContext, ScoreContextV};
use crate::score::metrics::esd_select::{on_board, pad_at, PadAt};
use crate::score::metrics::tally::{entries_where, every, list, sum_where, total, Field};
use crate::score::metrics::thermal::EXPOSED_AREA;
use crate::score::model::{
    scored, skipped, with_offenders, Amount, CategoryResult, CategoryResultV, MetricResult,
    MetricResultV, Rule,
};
use crate::select::{asks, find_places, places, Test};
use crate::text::same;

verus! {

/// The family of metrics of manufacturability.
pub struct DfmPass;

/// What is measured for the family.
pub struct DfmReals {
    /// For each via with a size and a drill, half the difference of the two.
    pub rings: Vec<Real>,
    /// The thickness of the board over the smallest drill, where the stackup gives a thickness.
    pub aspect: Option<Real>,
    /// For each pad its area.
    pub areas: Vec<Real>,
    /// For each via and each pad, whether the via lies in the pad.
    pub inside: Vec<Vec<bool>>,
}

/// The via has a size and a drill.
pub open spec fn is_drilled(v: ViaV) -> bool {
    below(zero(), v.drill) && below(zero(), v.size)
}

/// The vias with a size and a drill.
pub open spec fn drilled_vias(b: BoardModelV) -> Seq<int> {
    places(b.vias, |v: ViaV| is_drilled(v))
}

struct Drilled;

impl Test<Via> for Drilled {
    closed spec fn passes(&self, x: ViaV) -> bool {
        is_drilled(x)
    }

    fn check(&self, x: &Via) -> (r: bool) {
        Real::zero().less(&x.drill) && Real::zero().less(&x.size)
    }
}

/// The vias with a size and a drill.
pub fn find_drilled_vias(board: &BoardModel) -> (r: Vec<usize>)
    ensures
        as_ints(r@) == drilled_vias(board.deep_view()),
        forall|i: int| 0 <= i < r@.len() ==> (#[trigger] r@[i]) < board.vias@.len(),
{
    let test = Drilled;
    let r = find_places(&board.vias, &test);
    assert(asks::<Via, Drilled>(test) =~= |v: ViaV| is_drilled(v));
    r
}

/// The drills of the vias at the given places.
pub open spec fn drills_at(b: BoardModelV, at: Seq<int>) -> Seq<Real> {
    Seq::new(at.len(), |i: int| b.vias[at[i]].drill)
}

/// The smallest drill.
pub open spec fn smallest_drill(b: BoardModelV) -> Real {
    least(Real { bits: INFINITE }, drills_at(b, drilled_vias(b)))
}

/// The smallest drill of the vias that have a size and a drill.
pub fn find_smallest_drill(board: &BoardModel) -> (r: Real)
    ensures
        r == smallest_drill(board.deep_view()),
{
    let ghost bv = board.deep_view();
    let at = find_drilled_vias(board);
    let ghost want = drills_at(bv, as_ints(at@));
    let n: usize = at.len();
    let mut drills: Vec<Real> = Vec::new();
    let mut i: usize = 0;
    while i < n
        invariant
            n == at@.len(),
            i <= n,
            bv == board.deep_view(),
            want == drills_at(bv, as_ints(at@)),
            forall|j: int| 0 <= j < at@.len() ==> (#[trigger] at@[j]) < board.vias@.len(),
            drills@ == want.take(i as int),
        decreases n - i,
    {
        let k: usize = at[i];
        assert(bv.vias[k as int] == board.vias@[k as int].deep_view());
        drills.push(board.vias[k].drill);
        assert(drills@ =~= want.take(i + 1));
        i += 1;
    }
    assert(want.take(n as int) =~= want);
    least_of(Real { bits: INFINITE }, &drills)
}

/// The metrics of vias.
pub open spec fn via_metrics(b: BoardModelV, rings: Seq<Real>, aspect: Option<Real>) -> Seq<
    MetricResultV,
> {
    let ring = least(Real { bits: INFINITE }, rings);
    if b.vias.len() == 0 {
        seq![
            skipped("annular_ring_margin"@, 10, "no vias on the board"@),
            skipped("drill_margin"@, 10, "no vias on the board"@),
            skipped("via_aspect_ratio"@, 10, "no vias on the board"@),
        ]
    } else {
        seq![
            if finite(ring) {
                scored(
                    "annular_ring_margin"@,
                    Amount::Measured(ring),
                    "mm"@,
                    Rule::Share(125),
                    20,
                )
            } else {
                skipped("annular_ring_margin"@, 10, "vias carry no size/drill data"@)
            },
            if finite(ring) {
                scored(
                    "drill_margin"@,
                    Amount::Measured(smallest_drill(b)),
                    "mm"@,
                    Rule::Share(200),
                    10,
                )
            } else {
                skipped("drill_margin"@, 10, "vias carry no size/drill data"@)
            },
            match aspect {
                Some(a) => if finite(smallest_drill(b)) {
                    scored(
                        "via_aspect_ratio"@,
                        Amount::Measured(a),
                        "ratio"@,
                        Rule::Band(0, Some(10000), 0, 4000),
                        10,
                    )
                } else {
                    skipped("via_aspect_ratio"@, 10, "board thickness unknown (no stackup)"@)
                },
                None => skipped(
                    "via_aspect_ratio"@,
                    10,
                    "board thickness unknown (no stackup)"@,
                ),
            },
        ]
    }
}

/// Some pad is mounted on the surface.
pub open spec fn has_smd(pads: Seq<PadV>) -> bool {
    exists|i: int| 0 <= i < pads.len() && (#[trigger] pads[i]).kind == "smd"@
}

/// Some footprint has a pad that is mounted on the surface.
pub open spec fn any_smd(b: BoardModelV) -> bool {
    exists|f: int| 0 <= f < b.footprints.len() && has_smd((#[trigger] b.footprints[f]).pads)
}

fn check_smd(pads: &Vec<Pad>) -> (r: bool)
    ensures
        r == has_smd(pads.deep_view()),
{
    let ghost pv = pads.deep_view();
    let n: usize = pads.len();
    let mut i: usize = 0;
    while i < n
        invariant
            n == pads@.len(),
            i <= n,
            pv == pads.deep_view(),
            forall|j: int| 0 <= j < i ==> (#[trigger] pv[j]).kind != "smd"@,
        decreases n - i,
    {
        assert(pv[i as int] == pads@[i as int].deep_view());
        if same(pads[i].kind.as_str(), "smd") {
            return true;
        }
        i += 1;
    }
    false
}

fn check_any_smd(board: &BoardModel) -> (r: bool)
    ensures
        r == any_smd(board.deep_view()),
{
    let ghost bv = board.deep_view();
    let n: usize = board.footprints.len();
    let mut i: usize = 0;
    while i < n
        invariant
            n == board.footprints@.len(),
            i <= n,
            bv == board.deep_view(),
            forall|j: int| 0 <= j < i ==> !has_smd((#[trigger] bv.footprints[j]).pads),
        decreases n - i,
    {
        assert(bv.footprints[i as int] == board.footprints@[i as int].deep_view());
        if check_smd(&board.footprints[i].pads) {
            return true;
        }
        i += 1;
    }
    false
}

/// The pad is mounted on the surface, and smaller than one in which vias are meant to carry heat.
pub open spec fn is_small(b: BoardModelV, p: PadAt, area: Real) -> bool {
    pad_at(b, p).kind == "smd"@ && below(area, Real { bits: EXPOSED_AREA })
}

/// A via lies in some small pad.
pub open spec fn sits_in_pad(b: BoardModelV, pads: Seq<PadAt>, areas: Seq<Real>, inside: Seq<bool>) -> bool {
    exists|k: int|
        0 <= k < pads.len() && is_small(b, #[trigger] pads[k], areas[k]) && inside[k]
}

/// How many of the first `n` vias lie in small pads.
pub open spec fn vias_in_pads(
    b: BoardModelV,
    areas: Seq<Real>,
    inside: Seq<Seq<bool>>,
    n: int,
) -> nat
    decreases n,
{
    if n <= 0 {
        0
    } else {
        vias_in_pads(b, areas, inside, n - 1) + if sits_in_pad(
            b,
            net_pads(b, None),
            areas,
            inside[n - 1],
        ) {
            1nat
        } else {
            0nat
        }
    }
}

fn check_sits(board: &BoardModel, pads: &Vec<PadAt>, areas: &Vec<Real>, inside: &Vec<bool>) -> (r: bool)
    requires
        forall|i: int| 0 <= i < pads@.len() ==> on_board(board.deep_view(), #[trigger] pads@[i]),
        areas@.len() == pads@.len(),
        inside@.len() == pads@.len(),
    ensures
        r == sits_in_pad(board.deep_view(), pads@, areas@, inside@),
{
    let ghost bv = board.deep_view();
    let limit = Real { bits: EXPOSED_AREA };
    let n: usize = pads.len();
    let mut i: usize = 0;
    while i < n
        invariant
            n == pads@.len(),
            n == areas@.len(),
            n == inside@.len(),
            i <= n,
            bv == board.deep_view(),
            limit == (Real { bits: EXPOSED_AREA }),
            forall|j: int| 0 <= j < pads@.len() ==> on_board(bv, #[trigger] pads@[j]),
            forall|j: int|
                0 <= j < i ==> !(is_small(bv, #[trigger] pads@[j], areas@[j]) && inside@[j]),
        decreases n - i,
    {
        let p = pads[i];
        assert(on_board(bv, pads@[i as int]));
        assert(bv.footprints[p.footprint as int]
            == board.footprints@[p.footprint as int].deep_view());
        assert(pad_at(bv, p) == board.footprints@[p.footprint as int].pads@[p.pad as int].deep_view());
        if inside[i] && same(board.footprints[p.footprint].pads[p.pad].kind.as_str(), "smd")
            && areas[i].less(&limit) {
            assert(is_small(bv, pads@[i as int], areas@[i as int]));
            return true;
        }
        i += 1;
    }
    false
}

/// How many vias lie in small surface-mount pads.
pub fn count_in_pads(board: &BoardModel, areas: &Vec<Real>, inside: &Vec<Vec<bool>>) -> (r: usize)
    requires
        areas@.len() == net_pads(board.deep_view(), None).len(),
        inside@.len() == board.vias@.len(),
        forall|i: int|
            0 <= i < inside@.len() ==> (#[trigger] inside@[i])@.len() == areas@.len(),
    ensures
        r == vias_in_pads(
            board.deep_view(),
            areas@,
            inside.deep_view(),
            board.vias@.len() as int,
        ),
{
    let ghost bv = board.deep_view();
    let ghost iv = inside.deep_view();
    let pads = find_net_pads(board, None);
    let n: usize = board.vias.len();
    let mut count: usize = 0;
    let mut i: usize = 0;
    while i < n
        invariant
            n == board.vias@.len(),
            n == inside@.len(),
            i <= n,
            count <= i,
            bv == board.deep_view(),
            iv == inside.deep_view(),
            pads@ == net_pads(bv, None),
            areas@.len() == pads@.len(),
            forall|j: int| 0 <= j < pads@.len() ==> on_board(bv, #[trigger] pads@[j]),
            forall|j: int|
                0 <= j < inside@.len() ==> (#[trigger] inside@[j])@.len() == areas@.len(),
            count == vias_in_pads(bv, areas@, iv, i as int),
        decreases n - i,
    {
        assert(iv[i as int] =~= inside@[i as int]@);
        if check_sits(board, &pads, areas, &inside[i]) {
            count += 1;
        }
        i += 1;
    }
    count
}

/// Vias inside of surface-mount pads. Those in large pads are meant to be there.
pub open spec fn via_in_pad_metric(b: BoardModelV, areas: Seq<Real>, inside: Seq<Seq<bool>>) -> MetricResultV {
    if !any_smd(b) || b.vias.len() == 0 {
        skipped("via_in_pad"@, 10, "no SMD pads or no vias"@)
    } else {
        scored(
            "via_in_pad"@,
            Amount::Count(vias_in_pads(b, areas, inside, b.vias.len() as int) as u128),
            "count"@,
            Rule::Decay(2000),
            10,
        )
    }
}

/// The widths of tracks.
pub open spec fn widths_of(tracks: Seq<TrackV>) -> Seq<Real> {
    Seq::new(tracks.len(), |i: int| tracks[i].width)
}

/// How wide the narrowest track is.
pub open spec fn min_width_metric(b: BoardModelV) -> MetricResultV {
    if b.tracks.len() == 0 {
        skipped("min_track_width_margin"@, 10, "no routed tracks"@)
    } else {
        scored(
            "min_track_width_margin"@,
            Amount::Measured(least(Real { bits: INFINITE }, widths_of(b.tracks))),
            "mm"@,
            Rule::Share(150),
            10,
        )
    }
}

/// Acute junctions of copper.
pub open spec fn acid_metric(c: ScoreContextV) -> MetricResultV {
    with_offenders(
        scored(
            "acid_traps"@,
            Amount::Count(sum_where(c.net_stats, every(), Field::Acute) as u128),
            "count"@,
            Rule::Decay(5000),
            10,
        ),
        entries_where(c.net_stats, every(), Field::Acute),
        true,
    )
}

/// The metrics of the family.
pub open spec fn dfm_metrics(c: ScoreContextV, m: DfmReals) -> Seq<MetricResultV> {
    via_metrics(c.board, m.rings@, m.aspect) + seq![
        via_in_pad_metric(c.board, m.areas@, m.inside.deep_view()),
        min_width_metric(c.board),
        acid_metric(c),
    ]
}

/// The results of the family.
pub open spec fn dfm_results(c: ScoreContextV, m: DfmReals) -> CategoryResultV {
    CategoryResultV {
        id: "dfm"@,
        label: "Manufacturability"@,
        weight: c.weights.dfm,
        metrics: dfm_metrics(c, m),
    }
}

/// There is one measurement for each thing that is measured.
pub open spec fn dfm_fits(c: ScoreContextV, m: DfmReals) -> bool {
    &&& m.rings@.len() == drilled_vias(c.board).len()
    &&& m.areas@.len() == net_pads(c.board, None).len()
    &&& m.inside@.len() == c.board.vias.len()
    &&& forall|i: int|
        0 <= i < m.inside@.len() ==> (#[trigger] m.inside@[i])@.len() == m.areas@.len()
}

fn judge_vias(board: &BoardModel, m: &DfmReals) -> (r: Vec<MetricResult>)
    ensures
        r.deep_view() == via_metrics(board.deep_view(), m.rings@, m.aspect),
{
    let ghost bv = board.deep_view();
    assert(bv.vias.len() == board.vias@.len());
    let mut out: Vec<MetricResult> = Vec::new();
    if board.vias.len() == 0 {
        let note = "no vias on the board";
        out.push(MetricResult::not_applicable("annular_ring_margin", 10, note));
        out.push(MetricResult::not_applicable("drill_margin", 10, note));
        out.push(MetricResult::not_applicable("via_aspect_ratio", 10, note));
    } else {
        let ring = least_of(Real { bits: INFINITE }, &m.rings);
        let drill = find_smallest_drill(board);
        if ring.is_finite() {
            out.push(
                MetricResult::new(
                    "annular_ring_margin",
                    Amount::Measured(ring),
                    "mm",
                    Rule::Share(125),
                    20,
                ),
            );
            out.push(
                MetricResult::new(
                    "drill_margin",
                    Amount::Measured(drill),
                    "mm",
                    Rule::Share(200),
                    10,
                ),
            );
        } else {
            let note = "vias carry no size/drill data";
            out.push(MetricResult::not_applicable("annular_ring_margin", 10, note));
            out.push(MetricResult::not_applicable("drill_margin", 10, note));
        }
        let note = "board thickness unknown (no stackup)";
        match m.aspect {
            Some(a) => {
                if drill.is_finite() {
                    out.push(
                        MetricResult::new(
                            "via_aspect_ratio",
                            Amount::Measured(a),
                            "ratio",
                            Rule::Band(0, Some(10000), 0, 4000),
                            10,
                        ),
                    );
                } else {
                    out.push(MetricResult::not_applicable("via_aspect_ratio", 10, note));
                }
            },
            None => {
                out.push(MetricResult::not_applicable("via_aspect_ratio", 10, note));
            },
        }
    }
    assert(out.deep_view() =~= via_metrics(bv, m.rings@, m.aspect));
    out
}

fn judge_width(board: &BoardModel) -> (r: MetricResult)
    ensures
        r.deep_view() == min_width_metric(board.deep_view()),
{
    let id = "min_track_width_margin";
    let ghost tv = board.deep_view().tracks;
    let n: usize = board.tracks.len();
    assert(tv.len() == n);
    if n == 0 {
        return MetricResult::not_applicable(id, 10, "no routed tracks");
    }
    let mut widths: Vec<Real> = Vec::new();
    let mut i: usize = 0;
    while i < n
        invariant
            n == board.tracks@.len(),
            i <= n,
            tv == board.deep_view().tracks,
            tv.len() == n,
            widths@ == widths_of(tv).take(i as int),
        decreases n - i,
    {
        assert(tv[i as int] == board.tracks@[i as int].deep_view());
        widths.push(board.tracks[i].width);
        assert(widths@ =~= widths_of(tv).take(i + 1));
        i += 1;
    }
    assert(widths_of(tv).take(n as int) =~= widths_of(tv));
    MetricResult::new(
        id,
        Amount::Measured(least_of(Real { bits: INFINITE }, &widths)),
        "mm",
        Rule::Share(150),
        10,
    )
}

impl DfmPass {
    /// The name of the family.
    pub fn id(&self) -> (r: &'static str)
        ensures
            r@ == "dfm"@,
    {
        "dfm"
    }

    /// The results of the family.
    pub fn run(&self, ctx: &ScoreContext, reals: &DfmReals) -> (r: CategoryResult)
        requires
            dfm_fits(ctx.deep_view(), *reals),
        ensures
            r.deep_view() == dfm_results(ctx.deep_view(), *reals),
    {
        let ghost cv = ctx.deep_view();
        let board = &ctx.board;
        let mut m = judge_vias(board, reals);
        let ghost base = m.deep_view();
        assert(cv.board.vias.len() == board.vias@.len());
        if !check_any_smd(board) || board.vias.len() == 0 {
            m.push(MetricResult::not_applicable("via_in_pad", 10, "no SMD pads or no vias"));
        } else {
            let count: usize = count_in_pads(board, &reals.areas, &reals.inside);
            m.push(
                MetricResult::new(
                    "via_in_pad",
                    Amount::Count(count as u128),
                    "count",
                    Rule::Decay(2000),
                    10,
                ),
            );
        }
        m.push(judge_width(board));
        let acute: u128 = total(&ctx.net_stats, Field::Acute);
        let worst = list(&ctx.net_stats, Field::Acute);
        m.push(
            MetricResult::new(
                "acid_traps",
                Amount::Count(acute),
                "count",
                Rule::Decay(5000),
                10,
            ).with_worst(worst, true),
        );
        assert(m.deep_view() =~= dfm_metrics(cv, *reals));
        CategoryResult::new("dfm", "Manufacturability", ctx.weights.dfm, m)
    }
}

} // verus!
