//! Metrics of placement, which tell how hard a board is to route.
use vstd::prelude::*;

use crate::number::Real;
use crate::order::as_ints;
use crate::score::airwires::{airwire_edges, all_wires, distances_fit, net_pads, Airwire};
use crate::score::board::{BoardModel, BoardModelV, Point};
use crate::score::gates::{count_routable, routable_count};
use crate::score::metrics::context::{find_footprints, footprints_that, ScoreContext, ScoreContextV};
use crate::score::metrics::entries::{entries_above, label_footprints, list_above, references};
use crate::score::metrics::si::ONE;
use crate::score::model::{
    scored, skipped, with_offenders, Amount, CategoryResult, CategoryResultV, MetricResult,
    MetricResultV, Rule,
};
use crate::score::net_stats::{NetStats, NetStatsV};
use crate::score::outline::{circles_fit, has_box};
use crate::score::roles::Role;

verus! {

/// The family of metrics of placement.
pub struct PlacementPass;

/// What is measured for the family.
pub struct PlacementReals {
    /// For each net the distances between its pads.
    pub distances: Vec<Vec<Vec<Real>>>,
    /// For each two airwires, whether they cross.
    pub crosses: Vec<Vec<bool>>,
    /// For each connector, how far it is from the outline.
    pub connector_distances: Vec<Real>,
    pub mean_connector_distance: Real,
    /// The points on the circles of the outline.
    pub on_circles: Vec<Point>,
    /// The area of the components over that of the board.
    pub density: Real,
    /// For each pad the window that it lies in.
    pub windows: Vec<(i64, i64)>,
}

/// Wires `i` and `j` are of different nets and cross.
pub open spec fn cross_at(wires: Seq<Airwire>, crosses: Seq<Seq<bool>>, i: int, j: int) -> bool {
    wires[i].net != wires[j].net && crosses[i][j]
}

/// How many of the wires from `j` on cross wire `i`.
pub open spec fn crossings_of(wires: Seq<Airwire>, crosses: Seq<Seq<bool>>, i: int, j: int) -> nat
    decreases wires.len() - j,
{
    if j >= wires.len() {
        0
    } else {
        crossings_of(wires, crosses, i, j + 1) + if cross_at(wires, crosses, i, j) {
            1nat
        } else {
            0nat
        }
    }
}

/// How many crossings there are between wires from `i` on, each pair once.
pub open spec fn crossings_from(wires: Seq<Airwire>, crosses: Seq<Seq<bool>>, i: int) -> nat
    decreases wires.len() - i,
{
    if i >= wires.len() {
        0
    } else {
        crossings_from(wires, crosses, i + 1) + crossings_of(wires, crosses, i, i + 1)
    }
}

/// How often airwires cross.
pub open spec fn crossing_metric(
    wires: Seq<Airwire>,
    stats: Seq<NetStatsV>,
    crosses: Seq<Seq<bool>>,
) -> MetricResultV {
    if wires.len() == 0 || routable_count(stats) == 0 {
        skipped("airwire_crossings"@, 20, "no multi-pad nets placed"@)
    } else {
        scored(
            "airwire_crossings"@,
            Amount::Ratio(
                crossings_from(wires, crosses, 0) as u128,
                routable_count(stats) as u128,
            ),
            "count_per_net"@,
            Rule::Decay(1000),
            20,
        )
    }
}

/// How near connectors are to the edge of the board.
pub open spec fn connector_metric(
    b: BoardModelV,
    roles: Option<Seq<(Seq<char>, Role)>>,
    distances: Seq<Real>,
    mean: Real,
) -> MetricResultV {
    match roles {
        Some(roles) => {
            let at = footprints_that(b, roles, Role::Connector);
            if b.outline.len() == 0 {
                skipped("connector_edge_placement"@, 10, "no board outline (Edge.Cuts) found"@)
            } else if at.len() == 0 {
                skipped(
                    "connector_edge_placement"@,
                    10,
                    "no connectors declared (type=\"connector\")"@,
                )
            } else {
                with_offenders(
                    scored(
                        "connector_edge_placement"@,
                        Amount::Measured(mean),
                        "mm"@,
                        Rule::Decay(3000),
                        10,
                    ),
                    entries_above(references(b, at), distances, ONE),
                    true,
                )
            }
        },
        None => skipped(
            "connector_edge_placement"@,
            10,
            "netlist unavailable: declarative roles required"@,
        ),
    }
}

/// How much of the board components cover.
pub open spec fn density_metric(b: BoardModelV, on_circles: Seq<Point>, density: Real) -> MetricResultV {
    if has_box(b.outline, on_circles) && b.footprints.len() > 0 {
        scored(
            "component_density"@,
            Amount::Measured(density),
            "ratio"@,
            Rule::Band(50, Some(600), 50, 300),
            10,
        )
    } else {
        skipped("component_density"@, 10, "needs an outline and placed footprints"@)
    }
}

/// How many of the first `n` windows are the given one.
pub open spec fn crowd(windows: Seq<(i64, i64)>, w: (i64, i64), n: int) -> nat
    decreases n,
{
    if n <= 0 {
        0
    } else {
        crowd(windows, w, n - 1) + if windows[n - 1] == w {
            1nat
        } else {
            0nat
        }
    }
}

/// The largest number of pads in one window, over the windows of the first `n` pads.
pub open spec fn busiest(windows: Seq<(i64, i64)>, n: int) -> nat
    decreases n,
{
    if n <= 0 {
        0
    } else {
        let front = busiest(windows, n - 1);
        let own = crowd(windows, windows[n - 1], windows.len() as int);
        if own > front {
            own
        } else {
            front
        }
    }
}

/// No window holds more pads than the busiest one.
pub proof fn busiest_is_most(windows: Seq<(i64, i64)>, n: int, i: int)
    requires
        0 <= i < n <= windows.len(),
    ensures
        crowd(windows, windows[i], windows.len() as int) <= busiest(windows, n),
    decreases n,
{
    if i < n - 1 {
        busiest_is_most(windows, n - 1, i);
    }
}

/// How many pads a window can hold: forty for each copper layer.
pub open spec fn window_limit(layers: nat) -> nat {
    40000 * if layers == 0 {
        1
    } else {
        layers
    }
}

/// How crowded the busiest window is.
pub open spec fn hotspot_metric(b: BoardModelV, windows: Seq<(i64, i64)>) -> MetricResultV {
    if windows.len() == 0 {
        skipped("pin_density_hotspots"@, 10, "no pads placed"@)
    } else {
        let limit = window_limit(b.copper_layers.len()) as u64;
        scored(
            "pin_density_hotspots"@,
            Amount::Count(busiest(windows, windows.len() as int) as u128),
            "pads_per_cm2_window"@,
            Rule::Band(0, Some(limit), 0, limit),
            10,
        )
    }
}

/// The metrics of the family.
pub open spec fn placement_metrics(c: ScoreContextV, m: PlacementReals) -> Seq<MetricResultV> {
    let b = c.board;
    seq![
        crossing_metric(
            all_wires(b, m.distances.deep_view()),
            c.net_stats,
            m.crosses.deep_view(),
        ),
        connector_metric(b, c.roles, m.connector_distances@, m.mean_connector_distance),
        density_metric(b, m.on_circles@, m.density),
        hotspot_metric(b, m.windows@),
    ]
}

/// The results of the family.
pub open spec fn placement_results(c: ScoreContextV, m: PlacementReals) -> CategoryResultV {
    CategoryResultV {
        id: "placement"@,
        label: "Placement"@,
        weight: c.weights.placement,
        metrics: placement_metrics(c, m),
    }
}

/// A square table of the given size.
pub open spec fn is_square(t: Seq<Seq<bool>>, n: nat) -> bool {
    t.len() == n && forall|i: int| 0 <= i < n ==> (#[trigger] t[i]).len() == n
}

/// There is one measurement for each thing that is measured, and the limits can be stated.
pub open spec fn placement_fits(c: ScoreContextV, m: PlacementReals) -> bool {
    &&& circles_fit(c.board.outline, m.on_circles@)
    &&& distances_fit(c.board, m.distances.deep_view())
    &&& is_square(m.crosses.deep_view(), all_wires(c.board, m.distances.deep_view()).len())
    &&& m.windows@.len() == net_pads(c.board, None).len()
    &&& window_limit(c.board.copper_layers.len()) <= u64::MAX
    &&& (c.roles matches Some(roles) ==> m.connector_distances@.len() == footprints_that(
        c.board,
        roles,
        Role::Connector,
    ).len())
}

fn count_crossings(wires: &Vec<Airwire>, crosses: &Vec<Vec<bool>>) -> (r: u128)
    requires
        is_square(crosses.deep_view(), wires@.len()),
    ensures
        r == crossings_from(wires@, crosses.deep_view(), 0),
{
    let ghost cv = crosses.deep_view();
    let n: usize = wires.len();
    let mut total: u128 = 0;
    let mut i: usize = n;
    while i > 0
        invariant
            n == wires@.len(),
            i <= n,
            cv == crosses.deep_view(),
            is_square(cv, n as nat),
            total == crossings_from(wires@, cv, i as int),
            total <= (n - i) * 0x1_0000_0000_0000_0000,
        decreases i,
    {
        let k: usize = i - 1;
        let mut own: usize = 0;
        let mut j: usize = n;
        assert(cv[k as int] =~= crosses@[k as int]@);
        assert(cv[k as int].len() == n);
        while j > i
            invariant
                n == wires@.len(),
                k < i,
                i <= j,
                j <= n,
                k < crosses@.len(),
                cv == crosses.deep_view(),
                cv[k as int] == crosses@[k as int]@,
                cv[k as int].len() == n,
                own == crossings_of(wires@, cv, k as int, j as int),
                own <= n - j,
            decreases j,
        {
            let x: usize = j - 1;
            if wires[k].net != wires[x].net && crosses[k][x] {
                own += 1;
            }
            j = x;
        }
        total = total + own as u128;
        i = k;
    }
    total
}

fn judge_crossings(wires: &Vec<Airwire>, stats: &Vec<NetStats>, m: &PlacementReals) -> (r:
    MetricResult)
    requires
        is_square(m.crosses.deep_view(), wires@.len()),
    ensures
        r.deep_view() == crossing_metric(wires@, stats.deep_view(), m.crosses.deep_view()),
{
    let id = "airwire_crossings";
    let nets: usize = count_routable(stats);
    if wires.len() == 0 || nets == 0 {
        MetricResult::not_applicable(id, 20, "no multi-pad nets placed")
    } else {
        let count: u128 = count_crossings(wires, &m.crosses);
        MetricResult::new(
            id,
            Amount::Ratio(count, nets as u128),
            "count_per_net",
            Rule::Decay(1000),
            20,
        )
    }
}

fn judge_connectors(board: &BoardModel, roles: &Option<Vec<(String, Role)>>, m: &PlacementReals) -> (r:
    MetricResult)
    requires
        roles.deep_view() matches Some(rv) ==> m.connector_distances@.len() == footprints_that(
            board.deep_view(),
            rv,
            Role::Connector,
        ).len(),
    ensures
        r.deep_view() == connector_metric(
            board.deep_view(),
            roles.deep_view(),
            m.connector_distances@,
            m.mean_connector_distance,
        ),
{
    let id = "connector_edge_placement";
    match roles {
        Some(roles) => {
            assert(board.deep_view().outline.len() == board.outline@.len());
            let at = find_footprints(board, roles, Role::Connector);
            assert(as_ints(at@).len() == at@.len());
            if board.outline.len() == 0 {
                MetricResult::not_applicable(id, 10, "no board outline (Edge.Cuts) found")
            } else if at.len() == 0 {
                MetricResult::not_applicable(
                    id,
                    10,
                    "no connectors declared (type=\"connector\")",
                )
            } else {
                let labels = label_footprints(board, &at);
                assert(labels.deep_view().len() == labels@.len());
                let worst = list_above(&labels, &m.connector_distances, ONE);
                MetricResult::new(
                    id,
                    Amount::Measured(m.mean_connector_distance),
                    "mm",
                    Rule::Decay(3000),
                    10,
                ).with_worst(worst, true)
            }
        },
        None => MetricResult::not_applicable(
            id,
            10,
            "netlist unavailable: declarative roles required",
        ),
    }
}

fn count_crowd(windows: &Vec<(i64, i64)>, w: (i64, i64)) -> (r: usize)
    ensures
        r == crowd(windows@, w, windows@.len() as int),
{
    let n: usize = windows.len();
    let mut count: usize = 0;
    let mut i: usize = 0;
    while i < n
        invariant
            n == windows@.len(),
            i <= n,
            count == crowd(windows@, w, i as int),
            count <= i,
        decreases n - i,
    {
        if windows[i].0 == w.0 && windows[i].1 == w.1 {
            count += 1;
        }
        i += 1;
    }
    count
}

fn judge_windows(board: &BoardModel, m: &PlacementReals) -> (r: MetricResult)
    requires
        window_limit(board.deep_view().copper_layers.len()) <= u64::MAX,
    ensures
        r.deep_view() == hotspot_metric(board.deep_view(), m.windows@),
{
    let id = "pin_density_hotspots";
    let n: usize = m.windows.len();
    if n == 0 {
        return MetricResult::not_applicable(id, 10, "no pads placed");
    }
    let mut most: usize = 0;
    let mut i: usize = 0;
    while i < n
        invariant
            n == m.windows@.len(),
            i <= n,
            most == busiest(m.windows@, i as int),
        decreases n - i,
    {
        let own: usize = count_crowd(&m.windows, m.windows[i]);
        if own > most {
            most = own;
        }
        i += 1;
    }
    assert(board.deep_view().copper_layers.len() == board.copper_layers@.len());
    let layers: u64 = board.copper_layers.len() as u64;
    let limit: u64 = if layers == 0 {
        40000
    } else {
        40000 * layers
    };
    MetricResult::new(
        id,
        Amount::Count(most as u128),
        "pads_per_cm2_window",
        Rule::Band(0, Some(limit), 0, limit),
        10,
    )
}

impl PlacementPass {
    /// The name of the family.
    pub fn id(&self) -> (r: &'static str)
        ensures
            r@ == "placement"@,
    {
        "placement"
    }

    /// The results of the family.
    pub fn run(&self, ctx: &ScoreContext, reals: &PlacementReals) -> (r: CategoryResult)
        requires
            placement_fits(ctx.deep_view(), *reals),
        ensures
            r.deep_view() == placement_results(ctx.deep_view(), *reals),
    {
        let ghost cv = ctx.deep_view();
        let board = &ctx.board;
        let wires = airwire_edges(board, &reals.distances);
        let mut m: Vec<MetricResult> = Vec::new();
        m.push(judge_crossings(&wires, &ctx.net_stats, reals));
        m.push(judge_connectors(board, &ctx.roles, reals));
        assert(cv.board.footprints.len() == board.footprints@.len());
        if board.outline_bbox(&reals.on_circles).is_some() && board.footprints.len() > 0 {
            m.push(
                MetricResult::new(
                    "component_density",
                    Amount::Measured(reals.density),
                    "ratio",
                    Rule::Band(50, Some(600), 50, 300),
                    10,
                ),
            );
        } else {
            m.push(
                MetricResult::not_applicable(
                    "component_density",
                    10,
                    "needs an outline and placed footprints",
                ),
            );
        }
        m.push(judge_windows(board, reals));
        assert(m.deep_view() =~= placement_metrics(cv, *reals));
        CategoryResult::new("placement", "Placement", ctx.weights.placement, m)
    }
}

} // verus!
