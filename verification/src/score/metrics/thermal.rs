//! Metrics of heat, from the vias in large surface-mount pads.
use vstd::prelude::*;

use crate::number::{no_number, place, Real};
use crate::score::airwires::{find_net_pads, net_pads};
use crate::score::board::{BoardModel, BoardModelV};
use crate::score::metrics::context::{ScoreContext, ScoreContextV};
use crate::score::metrics::esd_select::{on_board, pad_at, PadAt};
use crate::score::model::{
    noted, scored, skipped, with_offenders, Amount, CategoryResult, CategoryResultV, Extent,
    MetricResult, MetricResultV, Rule, WorstEntry, WorstEntryV,
};
use crate::score::net_graph::{spans, via_spans_layer};
use crate::score::stackup::{plane_layers, planes_of};
use crate::text::same;

verus! {

/// The family of metrics of heat.
pub struct ThermalPass;

/// What is measured for the family.
pub struct ThermalReals {
    /// For each pad its area.
    pub areas: Vec<Real>,
    /// For each exposed pad and each via, whether the via lies in the pad.
    pub inside: Vec<Vec<bool>>,
    /// For each exposed pad, how many vias its area asks for.
    pub shares: Vec<u64>,
    pub mean_fill: Real,
}

/// How large an exposed pad is at least: four square millimetres.
pub const EXPOSED_AREA: u64 = 0x4010_0000_0000_0000;

/// The pad is exposed: mounted on the surface, and large.
pub open spec fn is_exposed(b: BoardModelV, p: PadAt, area: Real) -> bool {
    pad_at(b, p).kind == "smd"@ && !no_number(area) && place(area) >= EXPOSED_AREA
}

/// The exposed ones of the first `n` pads.
pub open spec fn exposed_of(b: BoardModelV, pads: Seq<PadAt>, areas: Seq<Real>, n: int) -> Seq<
    PadAt,
>
    decreases n,
{
    if n <= 0 {
        Seq::empty()
    } else {
        let front = exposed_of(b, pads, areas, n - 1);
        if is_exposed(b, pads[n - 1], areas[n - 1]) {
            front.push(pads[n - 1])
        } else {
            front
        }
    }
}

/// The exposed pads of the board.
pub open spec fn exposed_pads(b: BoardModelV, areas: Seq<Real>) -> Seq<PadAt> {
    exposed_of(b, net_pads(b, None), areas, areas.len() as int)
}

/// Via `k` lies in the pad and is on its net.
pub open spec fn fills(b: BoardModelV, p: PadAt, inside: Seq<bool>, k: int) -> bool {
    pad_at(b, p).net == Some(b.vias[k].net) && inside[k]
}

/// How many of the first `n` vias lie in the pad.
pub open spec fn filled(b: BoardModelV, p: PadAt, inside: Seq<bool>, n: int) -> nat
    decreases n,
{
    if n <= 0 {
        0
    } else {
        filled(b, p, inside, n - 1) + if fills(b, p, inside, n - 1) {
            1nat
        } else {
            0nat
        }
    }
}

/// How many vias a pad is to have: as many as its area asks for, and at least one.
pub open spec fn wanted(share: u64) -> u64 {
    if share == 0 {
        1
    } else {
        share
    }
}

/// Entries for those of the first `n` exposed pads that have too few vias.
pub open spec fn fill_entries(
    b: BoardModelV,
    pads: Seq<PadAt>,
    inside: Seq<Seq<bool>>,
    shares: Seq<u64>,
    n: int,
) -> Seq<WorstEntryV>
    decreases n,
{
    if n <= 0 {
        Seq::empty()
    } else {
        let front = fill_entries(b, pads, inside, shares, n - 1);
        let count = filled(b, pads[n - 1], inside[n - 1], b.vias.len() as int);
        if count < wanted(shares[n - 1]) {
            front.push(
                WorstEntryV {
                    label: b.footprints[pads[n - 1].footprint as int].reference,
                    value: Extent::Count(count as u64),
                },
            )
        } else {
            front
        }
    }
}

/// The via spans one of the planes.
pub open spec fn spreads(b: BoardModelV, planes: Seq<Seq<char>>, k: int) -> bool {
    exists|p: int| 0 <= p < planes.len() && spans(b.vias[k].layers, #[trigger] planes[p], b.copper_layers)
}

/// How many of the first `n` vias lie in the pad and span one of the planes.
pub open spec fn spreading(
    b: BoardModelV,
    planes: Seq<Seq<char>>,
    p: PadAt,
    inside: Seq<bool>,
    n: int,
) -> nat
    decreases n,
{
    if n <= 0 {
        0
    } else {
        spreading(b, planes, p, inside, n - 1) + if fills(b, p, inside, n - 1) && spreads(
            b,
            planes,
            n - 1,
        ) {
            1nat
        } else {
            0nat
        }
    }
}

/// How many vias lie in the first `n` exposed pads.
pub open spec fn filled_total(b: BoardModelV, pads: Seq<PadAt>, inside: Seq<Seq<bool>>, n: int) -> nat
    decreases n,
{
    if n <= 0 {
        0
    } else {
        filled_total(b, pads, inside, n - 1) + filled(
            b,
            pads[n - 1],
            inside[n - 1],
            b.vias.len() as int,
        )
    }
}

/// How many of them span one of the planes.
pub open spec fn spreading_total(
    b: BoardModelV,
    planes: Seq<Seq<char>>,
    pads: Seq<PadAt>,
    inside: Seq<Seq<bool>>,
    n: int,
) -> nat
    decreases n,
{
    if n <= 0 {
        0
    } else {
        spreading_total(b, planes, pads, inside, n - 1) + spreading(
            b,
            planes,
            pads[n - 1],
            inside[n - 1],
            b.vias.len() as int,
        )
    }
}

/// Whether the vias in exposed pads reach planes.
pub open spec fn spreading_metric(
    b: BoardModelV,
    planes: Seq<Seq<char>>,
    pads: Seq<PadAt>,
    inside: Seq<Seq<bool>>,
) -> MetricResultV {
    let n = pads.len() as int;
    if b.copper_layers.len() <= 2 {
        skipped("heat_spreading_layers"@, 10, "two-layer board"@)
    } else if planes.len() == 0 {
        skipped("heat_spreading_layers"@, 10, "no reference planes to spread into"@)
    } else if filled_total(b, pads, inside, n) == 0 {
        noted(
            scored("heat_spreading_layers"@, Amount::Count(0), "ratio"@, Rule::Fixed(0), 10),
            "no thermal vias under exposed pads"@,
        )
    } else {
        scored(
            "heat_spreading_layers"@,
            Amount::Ratio(
                spreading_total(b, planes, pads, inside, n) as u128,
                filled_total(b, pads, inside, n) as u128,
            ),
            "ratio"@,
            Rule::Share(1000),
            10,
        )
    }
}

/// The metrics of the family.
pub open spec fn thermal_metrics(c: ScoreContextV, m: ThermalReals) -> Seq<MetricResultV> {
    let b = c.board;
    let pads = exposed_pads(b, m.areas@);
    let note = "no exposed/thermal pads (large SMD pads) found"@;
    if pads.len() == 0 {
        seq![
            skipped("thermal_via_fill"@, 10, note),
            skipped("heat_spreading_layers"@, 10, note),
        ]
    } else {
        seq![
            with_offenders(
                scored(
                    "thermal_via_fill"@,
                    Amount::Measured(m.mean_fill),
                    "ratio"@,
                    Rule::Share(1000),
                    20,
                ),
                fill_entries(b, pads, m.inside.deep_view(), m.shares@, pads.len() as int),
                false,
            ),
            spreading_metric(b, planes_of(b, c.net_classes), pads, m.inside.deep_view()),
        ]
    }
}

/// The results of the family.
pub open spec fn thermal_results(c: ScoreContextV, m: ThermalReals) -> CategoryResultV {
    CategoryResultV {
        id: "thermal"@,
        label: "Thermal"@,
        weight: c.weights.thermal,
        metrics: thermal_metrics(c, m),
    }
}

/// There is one measurement for each thing that is measured.
pub open spec fn thermal_fits(c: ScoreContextV, m: ThermalReals) -> bool {
    &&& m.areas@.len() == net_pads(c.board, None).len()
    &&& m.inside@.len() == exposed_pads(c.board, m.areas@).len()
    &&& m.shares@.len() == exposed_pads(c.board, m.areas@).len()
    &&& forall|i: int|
        0 <= i < m.inside@.len() ==> (#[trigger] m.inside@[i])@.len() == c.board.vias.len()
}

/// The exposed pads of the board, from the areas of all pads.
pub fn find_exposed_pads(board: &BoardModel, areas: &Vec<Real>) -> (r: Vec<PadAt>)
    requires
        areas@.len() == net_pads(board.deep_view(), None).len(),
    ensures
        r@ == exposed_pads(board.deep_view(), areas@),
        forall|i: int| 0 <= i < r@.len() ==> on_board(board.deep_view(), #[trigger] r@[i]),
{
    let ghost bv = board.deep_view();
    let pads = find_net_pads(board, None);
    let n: usize = pads.len();
    let mut out: Vec<PadAt> = Vec::new();
    let mut i: usize = 0;
    while i < n
        invariant
            n == pads@.len(),
            n == areas@.len(),
            i <= n,
            bv == board.deep_view(),
            forall|j: int| 0 <= j < pads@.len() ==> on_board(bv, #[trigger] pads@[j]),
            out@ == exposed_of(bv, pads@, areas@, i as int),
            forall|j: int| 0 <= j < out@.len() ==> on_board(bv, #[trigger] out@[j]),
        decreases n - i,
    {
        let p = pads[i];
        assert(on_board(bv, pads@[i as int]));
        assert(bv.footprints[p.footprint as int]
            == board.footprints@[p.footprint as int].deep_view());
        assert(pad_at(bv, p) == board.footprints@[p.footprint as int].pads@[p.pad as int].deep_view());
        let area = areas[i];
        if same(board.footprints[p.footprint].pads[p.pad].kind.as_str(), "smd")
            && !area.is_missing() && area.rank() >= EXPOSED_AREA as i64 {
            out.push(p);
        }
        i += 1;
    }
    out
}

fn check_fills(board: &BoardModel, p: PadAt, inside: &Vec<bool>, k: usize) -> (r: bool)
    requires
        on_board(board.deep_view(), p),
        k < board.vias@.len(),
        inside@.len() == board.vias@.len(),
    ensures
        r == fills(board.deep_view(), p, inside@, k as int),
{
    let ghost bv = board.deep_view();
    assert(bv.footprints[p.footprint as int] == board.footprints@[p.footprint as int].deep_view());
    assert(pad_at(bv, p) == board.footprints@[p.footprint as int].pads@[p.pad as int].deep_view());
    assert(bv.vias[k as int] == board.vias@[k as int].deep_view());
    let on: bool = match board.footprints[p.footprint].pads[p.pad].net {
        Some(net) => net == board.vias[k].net,
        None => false,
    };
    on && inside[k]
}

/// How many vias lie in the pad and are on its net.
pub fn count_filled(board: &BoardModel, p: PadAt, inside: &Vec<bool>) -> (r: usize)
    requires
        on_board(board.deep_view(), p),
        inside@.len() == board.vias@.len(),
    ensures
        r == filled(board.deep_view(), p, inside@, board.vias@.len() as int),
{
    let ghost bv = board.deep_view();
    let n: usize = board.vias.len();
    let mut count: usize = 0;
    let mut k: usize = 0;
    while k < n
        invariant
            n == board.vias@.len(),
            n == inside@.len(),
            k <= n,
            bv == board.deep_view(),
            on_board(bv, p),
            count == filled(bv, p, inside@, k as int),
            count <= k,
        decreases n - k,
    {
        if check_fills(board, p, inside, k) {
            count += 1;
        }
        k += 1;
    }
    count
}

fn check_spreads(board: &BoardModel, planes: &Vec<String>, k: usize) -> (r: bool)
    requires
        k < board.vias@.len(),
    ensures
        r == spreads(board.deep_view(), planes.deep_view(), k as int),
{
    let ghost bv = board.deep_view();
    let ghost pv = planes.deep_view();
    let n: usize = planes.len();
    let mut i: usize = 0;
    assert(bv.vias[k as int] == board.vias@[k as int].deep_view());
    while i < n
        invariant
            n == planes@.len(),
            i <= n,
            k < board.vias@.len(),
            bv == board.deep_view(),
            pv == planes.deep_view(),
            bv.vias[k as int] == board.vias@[k as int].deep_view(),
            forall|j: int|
                0 <= j < i ==> !spans(bv.vias[k as int].layers, #[trigger] pv[j], bv.copper_layers),
        decreases n - i,
    {
        assert(pv[i as int] == planes@[i as int]@);
        if via_spans_layer(&board.vias[k], planes[i].as_str(), &board.copper_layers) {
            assert(spans(bv.vias[k as int].layers, pv[i as int], bv.copper_layers));
            return true;
        }
        i += 1;
    }
    false
}

fn count_spreading(board: &BoardModel, planes: &Vec<String>, p: PadAt, inside: &Vec<bool>) -> (r:
    usize)
    requires
        on_board(board.deep_view(), p),
        inside@.len() == board.vias@.len(),
    ensures
        r == spreading(
            board.deep_view(),
            planes.deep_view(),
            p,
            inside@,
            board.vias@.len() as int,
        ),
{
    let ghost bv = board.deep_view();
    let ghost pv = planes.deep_view();
    let n: usize = board.vias.len();
    let mut count: usize = 0;
    let mut k: usize = 0;
    while k < n
        invariant
            n == board.vias@.len(),
            n == inside@.len(),
            k <= n,
            bv == board.deep_view(),
            pv == planes.deep_view(),
            on_board(bv, p),
            count == spreading(bv, pv, p, inside@, k as int),
            count <= k,
        decreases n - k,
    {
        if check_fills(board, p, inside, k) && check_spreads(board, planes, k) {
            count += 1;
        }
        k += 1;
    }
    count
}

fn judge_spreading(
    board: &BoardModel,
    planes: &Vec<String>,
    pads: &Vec<PadAt>,
    m: &ThermalReals,
) -> (r: MetricResult)
    requires
        m.inside@.len() == pads@.len(),
        forall|i: int| 0 <= i < pads@.len() ==> on_board(board.deep_view(), #[trigger] pads@[i]),
        forall|i: int|
            0 <= i < m.inside@.len() ==> (#[trigger] m.inside@[i])@.len() == board.vias@.len(),
    ensures
        r.deep_view() == spreading_metric(
            board.deep_view(),
            planes.deep_view(),
            pads@,
            m.inside.deep_view(),
        ),
{
    let id = "heat_spreading_layers";
    let ghost bv = board.deep_view();
    let ghost pv = planes.deep_view();
    let ghost iv = m.inside.deep_view();
    assert(bv.copper_layers.len() == board.copper_layers@.len());
    assert(pv.len() == planes@.len());
    if board.copper_layers.len() <= 2 {
        return MetricResult::not_applicable(id, 10, "two-layer board");
    }
    if planes.len() == 0 {
        return MetricResult::not_applicable(id, 10, "no reference planes to spread into");
    }
    let n: usize = pads.len();
    let mut total: u128 = 0;
    let mut good: u128 = 0;
    let mut i: usize = 0;
    while i < n
        invariant
            n == pads@.len(),
            n == m.inside@.len(),
            i <= n,
            bv == board.deep_view(),
            pv == planes.deep_view(),
            iv == m.inside.deep_view(),
            forall|j: int| 0 <= j < pads@.len() ==> on_board(bv, #[trigger] pads@[j]),
            forall|j: int|
                0 <= j < m.inside@.len() ==> (#[trigger] m.inside@[j])@.len() == board.vias@.len(),
            total == filled_total(bv, pads@, iv, i as int),
            good == spreading_total(bv, pv, pads@, iv, i as int),
            total <= i * 0x1_0000_0000_0000_0000,
            good <= i * 0x1_0000_0000_0000_0000,
        decreases n - i,
    {
        assert(on_board(bv, pads@[i as int]));
        assert(iv[i as int] =~= m.inside@[i as int]@);
        assert(m.inside@[i as int]@.len() == board.vias@.len());
        assert(bv.vias.len() == board.vias@.len());
        let own: usize = count_filled(board, pads[i], &m.inside[i]);
        let reached: usize = count_spreading(board, planes, pads[i], &m.inside[i]);
        assert(i * 0x1_0000_0000_0000_0000 <= 0xffff_ffff_ffff_fffe * 0x1_0000_0000_0000_0000);
        total = total + own as u128;
        good = good + reached as u128;
        i += 1;
    }
    if total == 0 {
        MetricResult::new(id, Amount::Count(0), "ratio", Rule::Fixed(0), 10).with_note(
            "no thermal vias under exposed pads",
        )
    } else {
        MetricResult::new(id, Amount::Ratio(good, total), "ratio", Rule::Share(1000), 10)
    }
}

fn judge_fill(board: &BoardModel, pads: &Vec<PadAt>, m: &ThermalReals) -> (r: MetricResult)
    requires
        m.inside@.len() == pads@.len(),
        m.shares@.len() == pads@.len(),
        forall|i: int| 0 <= i < pads@.len() ==> on_board(board.deep_view(), #[trigger] pads@[i]),
        forall|i: int|
            0 <= i < m.inside@.len() ==> (#[trigger] m.inside@[i])@.len() == board.vias@.len(),
    ensures
        r.deep_view() == with_offenders(
            scored(
                "thermal_via_fill"@,
                Amount::Measured(m.mean_fill),
                "ratio"@,
                Rule::Share(1000),
                20,
            ),
            fill_entries(
                board.deep_view(),
                pads@,
                m.inside.deep_view(),
                m.shares@,
                pads@.len() as int,
            ),
            false,
        ),
{
    let ghost bv = board.deep_view();
    let ghost iv = m.inside.deep_view();
    let n: usize = pads.len();
    let mut worst: Vec<WorstEntry> = Vec::new();
    let mut i: usize = 0;
    assert(worst.deep_view() =~= fill_entries(bv, pads@, iv, m.shares@, 0));
    while i < n
        invariant
            n == pads@.len(),
            n == m.inside@.len(),
            n == m.shares@.len(),
            i <= n,
            bv == board.deep_view(),
            iv == m.inside.deep_view(),
            forall|j: int| 0 <= j < pads@.len() ==> on_board(bv, #[trigger] pads@[j]),
            forall|j: int|
                0 <= j < m.inside@.len() ==> (#[trigger] m.inside@[j])@.len() == board.vias@.len(),
            worst.deep_view() == fill_entries(bv, pads@, iv, m.shares@, i as int),
        decreases n - i,
    {
        let ghost before = worst.deep_view();
        let p = pads[i];
        assert(on_board(bv, pads@[i as int]));
        assert(iv[i as int] =~= m.inside@[i as int]@);
        assert(m.inside@[i as int]@.len() == board.vias@.len());
        assert(bv.vias.len() == board.vias@.len());
        assert(bv.footprints[p.footprint as int]
            == board.footprints@[p.footprint as int].deep_view());
        let count: usize = count_filled(board, p, &m.inside[i]);
        let target: u64 = if m.shares[i] == 0 {
            1
        } else {
            m.shares[i]
        };
        if (count as u64) < target {
            let value = Extent::Count(count as u64);
            worst.push(
                WorstEntry { label: board.footprints[p.footprint].reference.clone(), value },
            );
            assert(worst.deep_view() =~= before.push(
                WorstEntryV { label: bv.footprints[p.footprint as int].reference, value },
            ));
        }
        i += 1;
    }
    MetricResult::new(
        "thermal_via_fill",
        Amount::Measured(m.mean_fill),
        "ratio",
        Rule::Share(1000),
        20,
    ).with_worst(worst, false)
}

impl ThermalPass {
    /// The name of the family.
    pub fn id(&self) -> (r: &'static str)
        ensures
            r@ == "thermal"@,
    {
        "thermal"
    }

    /// The results of the family.
    pub fn run(&self, ctx: &ScoreContext, reals: &ThermalReals) -> (r: CategoryResult)
        requires
            thermal_fits(ctx.deep_view(), *reals),
        ensures
            r.deep_view() == thermal_results(ctx.deep_view(), *reals),
    {
        let ghost cv = ctx.deep_view();
        let board = &ctx.board;
        assert(cv.board.vias.len() == board.vias@.len());
        let pads = find_exposed_pads(board, &reals.areas);
        let mut m: Vec<MetricResult> = Vec::new();
        if pads.len() == 0 {
            let note = "no exposed/thermal pads (large SMD pads) found";
            m.push(MetricResult::not_applicable("thermal_via_fill", 10, note));
            m.push(MetricResult::not_applicable("heat_spreading_layers", 10, note));
        } else {
            let planes = plane_layers(board, &ctx.net_classes);
            m.push(judge_fill(board, &pads, reals));
            m.push(judge_spreading(board, &planes, &pads, reals));
        }
        assert(m.deep_view() =~= thermal_metrics(cv, *reals));
        CategoryResult::new("thermal", "Thermal", ctx.weights.thermal, m)
    }
}

} // verus!
