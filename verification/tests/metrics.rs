use pcb_kit::netlist::fixed::Fixed;
use pcb_kit::netlist::schematic::{Attribute, Instance, InstanceRef, Net, Physical, Schematic, Unit};
use pcb_kit::number::Real;
use pcb_kit::score::board::BoardModel;
use pcb_kit::score::classify::{classify_nets, SignalClass};
use pcb_kit::score::metrics::aesthetics::{AestheticsPass, AestheticsReals};
use pcb_kit::score::metrics::context::{DrcReport, ScoreContext, Violation, Weights};
use pcb_kit::score::metrics::crosstalk::{CrosstalkPass, CrosstalkReals};
use pcb_kit::score::metrics::crosstalk_select::{
    find_adjacent_pairs, find_broadside_pairs, find_coupled_pairs, Run,
};
use pcb_kit::score::metrics::dfm::{DfmPass, DfmReals};
use pcb_kit::score::metrics::drc::DrcPass;
use pcb_kit::score::metrics::emi::{EmiPass, EmiReals};
use pcb_kit::score::metrics::emi_select::count_gaps;
use pcb_kit::score::metrics::esd::{EsdPass, EsdReals};
use pcb_kit::score::metrics::families::FamilyReals;
use pcb_kit::score::metrics::placement::{PlacementPass, PlacementReals};
use pcb_kit::score::metrics::power::{via_target, PowerPass, PowerReals};
use pcb_kit::score::metrics::routing::{comparable_nets, RoutingPass, RoutingReals};
use pcb_kit::score::metrics::si::{SiPass, SiReals};
use pcb_kit::score::metrics::thermal::{ThermalPass, ThermalReals};
use pcb_kit::score::model::{Amount, CategoryResult, Extent, Gates, MetricResult, Rule, WorstEntry};
use pcb_kit::score::net_stats::{compute_net_stats, NetFacts};
use pcb_kit::score::report::assemble_report;
use pcb_kit::score::roles::{component_roles, Role};
use pcb_kit::score::sexpr::Sexpr;
use pcb_kit::score::sexpr_text::{read_tree, split_pieces, Piece};
use pcb_kit::score::spatial::{CellRange, SegmentIndex};
use pcb_kit::score::stackup::{nearest_plane, plane_layers};

fn num(x: f64) -> Real {
    Real::from_bits(x.to_bits())
}

fn number(r: Real) -> f64 {
    f64::from_bits(r.bits)
}

fn read(source: &str) -> Sexpr {
    let pieces = split_pieces(source).expect("every text ends");
    let numbers: Vec<Option<Real>> = pieces
        .iter()
        .map(|p| match p {
            Piece::Word(w) | Piece::Quoted(w) => w.parse::<f64>().ok().map(num),
            Piece::Open | Piece::Close => None,
        })
        .collect();
    match read_tree(&pieces, &numbers) {
        Ok(tree) => tree,
        Err(e) => panic!("{e}"),
    }
}

fn parse(source: &str) -> BoardModel {
    match BoardModel::parse(&read(source)) {
        Ok(b) => b,
        Err(e) => panic!("{e}"),
    }
}

fn text(s: &str) -> Attribute {
    Attribute::from_text(s.to_string())
}

fn physical(n: i128, unit: Unit, shown: &str) -> Attribute {
    let mut a = text(shown);
    a.physical = Some(Physical {
        nominal: Fixed::new(n, 0).expect("in range"),
        real: Some(num(n as f64)),
        unit,
        text: shown.to_string(),
    });
    a
}

fn peer(id: u64) -> Attribute {
    let mut a = text("");
    a.text = None;
    a.whole = Some(id);
    a
}

fn net(kind: &str, id: u64, name: &str, props: Vec<(&str, Attribute)>) -> Net {
    Net {
        id,
        name: name.to_string(),
        kind: kind.to_string(),
        ports: Vec::new(),
        properties: props.into_iter().map(|(k, v)| (k.to_string(), v)).collect(),
    }
}

fn component(refdes: &str, kind: &str) -> Instance {
    Instance {
        at: InstanceRef { module: "test.zen".to_string(), path: vec![refdes.to_string()] },
        component: true,
        reference_designator: Some(refdes.to_string()),
        attributes: vec![("type".to_string(), text(kind))],
    }
}

fn sheet(nets: Vec<Net>, instances: Vec<Instance>) -> Schematic {
    Schematic { nets, instances }
}

fn context(source: &str, netlist: &Schematic) -> ScoreContext {
    let board = parse(source);
    let facts: Vec<NetFacts> = board
        .used_net_ids()
        .iter()
        .map(|_| NetFacts {
            touching: Vec::new(),
            near: Vec::new(),
            at: Vec::new(),
            joints: Vec::new(),
            routed_length: num(0.0),
            mst_length: num(0.0),
            stub_length: num(0.0),
        })
        .collect();
    let net_stats = compute_net_stats(&board, &facts);
    ScoreContext {
        board,
        net_stats,
        drc: None,
        net_classes: Some(classify_nets(netlist)),
        roles: Some(component_roles(netlist)),
        weights: Weights::default(),
    }
}

fn metric<'a>(category: &'a CategoryResult, id: &str) -> &'a MetricResult {
    category.metrics.iter().find(|m| m.id == id).unwrap_or_else(|| panic!("metric {id} missing"))
}

fn amount(a: Amount) -> f64 {
    match a {
        Amount::Count(n) => n as f64,
        Amount::Ratio(a, b) => a as f64 / b as f64,
        Amount::Measured(r) => number(r),
    }
}

fn raw(m: &MetricResult) -> f64 {
    amount(m.raw.expect("a raw value"))
}

fn grade(m: &MetricResult) -> f64 {
    let g = m.normalized.expect("a grade");
    let x = amount(g.basis);
    let k = |n: u64| n as f64 / 1000.0;
    match g.rule {
        Rule::Decay(tau) => if x <= 0.0 { 1.0 } else { (-x / k(tau)).exp() },
        Rule::Band(lo, hi, soft_lo, soft_hi) => {
            let hi = hi.map_or(f64::INFINITY, k);
            if x >= k(lo) && x <= hi {
                1.0
            } else if x < k(lo) {
                if soft_lo == 0 { 0.0 } else { ((x - (k(lo) - k(soft_lo))) / k(soft_lo)).clamp(0.0, 1.0) }
            } else if soft_hi == 0 {
                0.0
            } else {
                (((hi + k(soft_hi)) - x) / k(soft_hi)).clamp(0.0, 1.0)
            }
        }
        Rule::Share(n) => (x / k(n)).clamp(0.0, 1.0),
        Rule::Inverse(n) => (k(n) / x).clamp(0.0, 1.0),
        Rule::Complement => (1.0 - x).clamp(0.0, 1.0),
        Rule::Fixed(n) => k(n),
    }
}

fn coupled_board(sep_mm: f64) -> String {
    format!(
        r#"(kicad_pcb
  (layers (0 "F.Cu" signal) (1 "In1.Cu" signal) (2 "In2.Cu" signal) (3 "B.Cu" signal))
  (net 0 "")
  (net 1 "CLK_OUT")
  (net 2 "VSENSE")
  (footprint "lib:A" (layer "F.Cu") (at 0 0)
    (pad "1" smd rect (at 0 0) (size 0.4 0.4) (layers "F.Cu") (net 1 "CLK_OUT"))
    (pad "2" smd rect (at 0 {sep_mm}) (size 0.4 0.4) (layers "F.Cu") (net 2 "VSENSE")))
  (footprint "lib:B" (layer "F.Cu") (at 10 0)
    (pad "1" smd rect (at 0 0) (size 0.4 0.4) (layers "F.Cu") (net 1 "CLK_OUT"))
    (pad "2" smd rect (at 0 {sep_mm}) (size 0.4 0.4) (layers "F.Cu") (net 2 "VSENSE")))
  (segment (start 0 0) (end 10 0) (width 0.2) (layer "F.Cu") (net 1))
  (segment (start 0 {sep_mm}) (end 10 {sep_mm}) (width 0.2) (layer "F.Cu") (net 2))
)"#
    )
}

fn classified_nets() -> Schematic {
    sheet(
        vec![
            net("Net", 1, "CLK_OUT", vec![("signal", text("clock"))]),
            net("Net", 2, "VSENSE", vec![("signal", text("analog"))]),
        ],
        Vec::new(),
    )
}

/// What two parallel tracks of 10 mm, 0.2 mm wide, come to at a separation.
fn coupling(ctx: &ScoreContext, sep: f64) -> CrosstalkReals {
    let row = |y: f64| CellRange { x0: 0, x1: 5, y0: (y / 2.0).floor() as i64, y1: (y / 2.0).floor() as i64 };
    let cells = vec![row(0.0), row(sep)];
    let around: Vec<CellRange> = cells
        .iter()
        .map(|c| CellRange { x0: c.x0 - 1, x1: c.x1 + 1, y0: c.y0 - 1, y1: c.y1 + 1 })
        .collect();
    let classes = ctx.net_classes.as_ref().expect("a netlist");
    let pairs = find_coupled_pairs(&ctx.board, classes, &cells, &around);
    let width = 0.2;
    let run = Run {
        separation: num(sep),
        reach: num(4.0 * 0.5),
        spacing: num(3.0 * width),
        exposure: num(10.0 / (sep * sep)),
        margin: num(sep / (3.0 * width)),
    };
    let couples = sep < number(run.reach);
    let exposures = if couples && !pairs.is_empty() { vec![num(10.0 / (sep * sep))] } else { Vec::new() };
    let adjacent = if couples { 20.0 } else { 0.0 };
    CrosstalkReals {
        adjacent_length: num(adjacent),
        spaced_ratio: num(if sep >= 3.0 * width { 1.0 } else { 0.0 }),
        cells,
        around,
        runs: pairs.iter().map(|_| Some(run)).collect(),
        exposures,
        broadside_total: num(0.0),
    }
}

#[test]
fn crosstalk_close_pair_scores_worse_than_spaced_pair() {
    let close_ctx = context(&coupled_board(0.4), &classified_nets());
    let spaced_ctx = context(&coupled_board(2.5), &classified_nets());
    let close = CrosstalkPass.run(&close_ctx, &coupling(&close_ctx, 0.4));
    let spaced = CrosstalkPass.run(&spaced_ctx, &coupling(&spaced_ctx, 2.5));

    let close_coupling = metric(&close, "parallel_coupling");
    let spaced_coupling = metric(&spaced, "parallel_coupling");
    assert!(close_coupling.applicable && spaced_coupling.applicable);
    assert!(raw(close_coupling) > 60.0);
    assert!(raw(spaced_coupling) < 1.0);
    assert!(grade(close_coupling) < grade(spaced_coupling));

    let close_3w = metric(&close, "three_w_compliance");
    assert!(raw(close_3w) < 0.01);
    let spaced_3w = metric(&spaced, "three_w_compliance");
    assert!(raw(spaced_3w) > 0.99);

    let isolation = metric(&close, "sensitive_net_isolation");
    assert!(isolation.applicable);
    assert!(raw(isolation) < 1.0);
    assert_eq!(isolation.worst[0].label, "VSENSE");
}

#[test]
fn crosstalk_na_without_declarations() {
    let undeclared =
        sheet(vec![net("Net", 1, "CLK_OUT", Vec::new()), net("Net", 2, "VSENSE", Vec::new())], Vec::new());
    let ctx = context(&coupled_board(0.4), &undeclared);
    let report = CrosstalkPass.run(&ctx, &coupling(&ctx, 0.4));
    assert!(!metric(&report, "parallel_coupling").applicable);
    assert!(metric(&report, "three_w_compliance").applicable);
}

fn impedance_board(width: f64, stackup: bool) -> String {
    let layers = if stackup {
        r#"(setup
    (stackup
      (layer "F.Cu" (type "copper") (thickness 0.035))
      (layer "dielectric 1" (type "prepreg") (thickness 0.2) (epsilon_r 4.2))
      (layer "In1.Cu" (type "copper") (thickness 0.035))
      (layer "dielectric 2" (type "core") (thickness 1.0) (epsilon_r 4.2))
      (layer "In2.Cu" (type "copper") (thickness 0.035))
      (layer "dielectric 3" (type "prepreg") (thickness 0.2) (epsilon_r 4.2))
      (layer "B.Cu" (type "copper") (thickness 0.035))))"#
    } else {
        ""
    };
    format!(
        r#"(kicad_pcb
  (layers (0 "F.Cu" signal) (1 "In1.Cu" signal) (2 "In2.Cu" signal) (3 "B.Cu" signal))
  {layers}
  (net 0 "")
  (net 1 "USB_DM")
  (net 2 "GNDNET")
  (footprint "lib:A" (layer "F.Cu") (at 0 0)
    (pad "1" smd rect (at 0 0) (size 0.4 0.4) (layers "F.Cu") (net 1 "USB_DM")))
  (footprint "lib:B" (layer "F.Cu") (at 10 0)
    (pad "1" smd rect (at 0 0) (size 0.4 0.4) (layers "F.Cu") (net 1 "USB_DM")))
  (segment (start 0 0) (end 10 0) (width {width}) (layer "F.Cu") (net 1))
  (zone (net 2) (net_name "GNDNET") (layer "In1.Cu")
    (filled_polygon (layer "In1.Cu") (pts (xy -5 -5) (xy 15 -5) (xy 15 5) (xy -5 5))))
)"#
    )
}

fn impedance_nets() -> Schematic {
    sheet(
        vec![
            net("Net", 1, "USB_DM", vec![("impedance", physical(50, Unit::Ohms, "50Ohm"))]),
            net("Ground", 2, "GNDNET", Vec::new()),
        ],
        Vec::new(),
    )
}

fn si_reals(error: f64) -> SiReals {
    SiReals {
        target_errors: vec![Some(Extent::Measured(num(error)))],
        mean_error: num(error),
        skews: Vec::new(),
        gap_ratio: None,
        decoupled_total: num(0.0),
        stub_total: num(0.0),
        thickness_known: true,
        mean_barrel_stub: num(0.0),
        uncovered: vec![None],
        coverage: Some(num(1.0)),
        stitch_distances: Vec::new(),
        group_skews: Vec::new(),
    }
}

#[test]
fn impedance_compliance_prefers_correct_width() {
    // Surface microstrip over 0.2 mm of a dielectric of 4.2, 35 um copper.
    let impedance = |w: f64| 87.0 / (4.2f64 + 1.41).sqrt() * (5.98 * 0.2 / (0.8 * w + 0.035)).ln();
    let off = |w: f64| (impedance(w).max(0.0) - 50.0).abs() / 50.0;
    let good = SiPass.run(&context(&impedance_board(0.35, true), &impedance_nets()), &si_reals(off(0.35)));
    let bad = SiPass.run(&context(&impedance_board(2.0, true), &impedance_nets()), &si_reals(off(2.0)));

    let good_metric = metric(&good, "impedance_compliance");
    let bad_metric = metric(&bad, "impedance_compliance");
    assert!(good_metric.applicable && bad_metric.applicable);
    assert!(raw(good_metric) < raw(bad_metric));
    assert!(grade(good_metric) > grade(bad_metric));

    let continuity = metric(&good, "reference_plane_continuity");
    assert!(continuity.applicable);
    assert!(raw(continuity) > 0.99);
}

#[test]
fn impedance_na_without_stackup() {
    let report = SiPass.run(&context(&impedance_board(0.35, false), &impedance_nets()), &si_reals(0.0));
    assert!(!metric(&report, "impedance_compliance").applicable);
}

fn diffpair_board(more_n: f64) -> String {
    let n_end = 10.0 + more_n;
    format!(
        r#"(kicad_pcb
  (layers (0 "F.Cu" signal) (2 "B.Cu" signal))
  (net 0 "")
  (net 1 "PAIR_P")
  (net 2 "PAIR_N")
  (footprint "lib:A" (layer "F.Cu") (at 0 0)
    (pad "1" smd rect (at 0 0) (size 0.3 0.3) (layers "F.Cu") (net 1 "PAIR_P"))
    (pad "2" smd rect (at 0 0.3) (size 0.3 0.3) (layers "F.Cu") (net 2 "PAIR_N")))
  (footprint "lib:B" (layer "F.Cu") (at 10 0)
    (pad "1" smd rect (at 0 0) (size 0.3 0.3) (layers "F.Cu") (net 1 "PAIR_P"))
    (pad "2" smd rect (at {n_end} 0.3) (size 0.3 0.3) (layers "F.Cu") (net 2 "PAIR_N")))
  (segment (start 0 0) (end 10 0) (width 0.2) (layer "F.Cu") (net 1))
  (segment (start 0 0.3) (end {n_end} 0.3) (width 0.2) (layer "F.Cu") (net 2))
)"#
    )
}

fn diffpair_nets() -> Schematic {
    let side = |other: u64, role: &str| {
        vec![
            ("differential_impedance", physical(90, Unit::Ohms, "90Ohm")),
            ("diff_pair_peer", peer(other)),
            ("diff_pair_role", text(role)),
        ]
    };
    sheet(vec![net("Net", 1, "PAIR_P", side(2, "p")), net("Net", 2, "PAIR_N", side(1, "n"))], Vec::new())
}

#[test]
fn diffpair_skew_is_measured() {
    let measured = |skew: f64| SiReals {
        target_errors: vec![None, None],
        skews: vec![Some(Extent::Measured(num(skew)))],
        uncovered: vec![None, None],
        coverage: None,
        ..si_reals(0.0)
    };
    let matched = SiPass.run(&context(&diffpair_board(0.0), &diffpair_nets()), &measured(0.0));
    let skewed = SiPass.run(&context(&diffpair_board(1.0), &diffpair_nets()), &measured(1.0));

    let matched_skew = metric(&matched, "diffpair_skew");
    let skewed_skew = metric(&skewed, "diffpair_skew");
    assert!(raw(matched_skew) < 0.01);
    assert!((raw(skewed_skew) - 1.0).abs() < 0.01);
    assert!(grade(matched_skew) > grade(skewed_skew));
    assert_eq!(skewed_skew.worst[0].label, "PAIR_P/PAIR_N");
}

fn esd_board(tvs_x: f64) -> String {
    format!(
        r#"(kicad_pcb
  (layers (0 "F.Cu" signal) (2 "B.Cu" signal))
  (net 0 "")
  (net 1 "USB_DP")
  (net 2 "GNDX")
  (footprint "lib:J" (layer "F.Cu") (at 1 10)
    (property "Reference" "J1" (at 0 0) (layer "F.SilkS"))
    (pad "1" smd rect (at 0 0) (size 0.6 0.6) (layers "F.Cu") (net 1 "USB_DP"))
    (pad "2" smd rect (at 0 2) (size 0.6 0.6) (layers "F.Cu") (net 2 "GNDX")))
  (footprint "lib:TVS" (layer "F.Cu") (at {tvs_x} 10)
    (property "Reference" "D1" (at 0 0) (layer "F.SilkS"))
    (pad "1" smd rect (at 0 0) (size 0.5 0.5) (layers "F.Cu") (net 1 "USB_DP"))
    (pad "2" smd rect (at 0 1) (size 0.5 0.5) (layers "F.Cu") (net 2 "GNDX")))
  (footprint "lib:IC" (layer "F.Cu") (at 30 10)
    (property "Reference" "U1" (at 0 0) (layer "F.SilkS"))
    (pad "1" smd rect (at 0 0) (size 0.5 0.5) (layers "F.Cu") (net 1 "USB_DP")))
  (via (at {tvs_x} 11) (size 0.6) (drill 0.3) (layers "F.Cu" "B.Cu") (net 2))
  (segment (start 1 10) (end 30 10) (width 0.2) (layer "F.Cu") (net 1))
  (gr_rect (start 0 0) (end 40 20) (layer "Edge.Cuts"))
)"#
    )
}

fn esd_netlist(declared: bool) -> Schematic {
    let parts = if declared {
        vec![component("J1", "connector"), component("D1", "tvs"), component("U1", "other")]
    } else {
        Vec::new()
    };
    sheet(vec![net("Net", 1, "USB_DP", Vec::new()), net("Ground", 2, "GNDX", Vec::new())], parts)
}

fn esd_reals(tvs_x: f64) -> EsdReals {
    EsdReals {
        tvs_distances: vec![num(tvs_x - 1.0)],
        mean_tvs_distance: num(tvs_x - 1.0),
        other_distances: vec![vec![num(29.0)]],
        in_fill: vec![false],
        via_distances: vec![num(0.0)],
        rings: vec![vec![false; 8]],
    }
}

#[test]
fn esd_metrics_reward_tvs_near_connector() {
    let near = EsdPass.run(&context(&esd_board(3.0), &esd_netlist(true)), &esd_reals(3.0));
    let far = EsdPass.run(&context(&esd_board(35.0), &esd_netlist(true)), &esd_reals(35.0));

    let near_prox = metric(&near, "tvs_proximity");
    let far_prox = metric(&far, "tvs_proximity");
    assert!(near_prox.applicable && far_prox.applicable);
    assert!(raw(near_prox) < raw(far_prox));
    assert!(grade(near_prox) > grade(far_prox));

    let near_topo = metric(&near, "protection_topology");
    let far_topo = metric(&far, "protection_topology");
    assert_eq!(raw(near_topo), 1.0);
    assert_eq!(raw(far_topo), 0.0);

    let ret = metric(&near, "esd_return_path");
    assert_eq!(raw(ret), 1.0);
}

#[test]
fn esd_na_without_declared_tvs() {
    let nothing = EsdReals {
        tvs_distances: Vec::new(),
        mean_tvs_distance: num(0.0),
        other_distances: Vec::new(),
        in_fill: Vec::new(),
        via_distances: Vec::new(),
        rings: Vec::new(),
    };
    let report = EsdPass.run(&context(&esd_board(3.0), &esd_netlist(false)), &nothing);
    assert!(!metric(&report, "tvs_proximity").applicable);
}

fn power_board(width: f64) -> String {
    format!(
        r#"(kicad_pcb
  (layers (0 "F.Cu" signal) (2 "B.Cu" signal))
  (net 0 "")
  (net 1 "V5")
  (net 2 "GNDX")
  (footprint "lib:A" (layer "F.Cu") (at 0 0)
    (pad "1" smd rect (at 0 0) (size 1 1) (layers "F.Cu") (net 1 "V5")))
  (footprint "lib:B" (layer "F.Cu") (at 20 0)
    (pad "1" smd rect (at 0 0) (size 1 1) (layers "F.Cu") (net 1 "V5")))
  (segment (start 0 0) (end 20 0) (width {width}) (layer "F.Cu") (net 1))
)"#
    )
}

fn power_netlist(declared: bool) -> Schematic {
    let props = if declared {
        vec![
            ("current_sink_total", physical(2, Unit::Amperes, "2A")),
            ("current_source_total", physical(3, Unit::Amperes, "3A")),
        ]
    } else {
        Vec::new()
    };
    sheet(vec![net("Power", 1, "V5", props), net("Ground", 2, "GNDX", Vec::new())], Vec::new())
}

fn power_reals(ratio: Vec<Real>, margins: Vec<Real>) -> PowerReals {
    PowerReals {
        width_ratios: ratio,
        margins,
        width_spreads: vec![num(1.0)],
        mean_width_spread: num(1.0),
        loops: Vec::new(),
        mean_loop: num(0.0),
        on_circles: Vec::new(),
        coverage: num(0.0),
        via_shares: Vec::new(),
        mean_via_ratio: num(0.0),
    }
}

#[test]
fn trace_current_capacity_flags_narrow_power_trace() {
    // The width that 2 A ask for on 35 um of outer copper, 10 degrees over ambient.
    let area_mil2 = (2.0f64 / (0.048 * 10.0f64.powf(0.44))).powf(1.0 / 0.725);
    let required = area_mil2 * 0.0254 * 0.0254 / 0.035;
    let ratio = |w: f64| vec![num(w / required)];
    let narrow = PowerPass.run(
        &context(&power_board(0.2), &power_netlist(true)),
        &power_reals(ratio(0.2), vec![num(3.0 / 2.0)]),
    );
    let wide = PowerPass.run(
        &context(&power_board(3.0), &power_netlist(true)),
        &power_reals(ratio(3.0), vec![num(3.0 / 2.0)]),
    );

    let narrow_cap = metric(&narrow, "trace_current_capacity");
    let wide_cap = metric(&wide, "trace_current_capacity");
    assert!(narrow_cap.applicable && wide_cap.applicable);
    assert!(raw(narrow_cap) < 1.0, "narrow trace under-sized");
    assert!(raw(wide_cap) > raw(narrow_cap));
    assert!(grade(wide_cap) > grade(narrow_cap));

    let margin = metric(&narrow, "current_budget_margin");
    assert!((raw(margin) - 1.5).abs() < 1e-6);
}

#[test]
fn power_metrics_na_without_current_declarations() {
    let report = PowerPass.run(
        &context(&power_board(0.2), &power_netlist(false)),
        &power_reals(Vec::new(), Vec::new()),
    );
    assert!(!metric(&report, "trace_current_capacity").applicable);
}

fn emi_board(y: f64) -> String {
    format!(
        r#"(kicad_pcb
  (layers (0 "F.Cu" signal) (1 "In1.Cu" signal) (2 "In2.Cu" signal) (3 "B.Cu" signal))
  (setup
    (stackup
      (layer "F.Cu" (type "copper") (thickness 0.035))
      (layer "dielectric 1" (type "prepreg") (thickness 0.2) (epsilon_r 4.2))
      (layer "In1.Cu" (type "copper") (thickness 0.035))
      (layer "dielectric 2" (type "core") (thickness 1.0) (epsilon_r 4.2))
      (layer "In2.Cu" (type "copper") (thickness 0.035))
      (layer "dielectric 3" (type "prepreg") (thickness 0.2) (epsilon_r 4.2))
      (layer "B.Cu" (type "copper") (thickness 0.035))))
  (net 0 "")
  (net 1 "CLK1")
  (net 2 "GNDX")
  (footprint "lib:A" (layer "F.Cu") (at 5 {y})
    (pad "1" smd rect (at 0 0) (size 0.4 0.4) (layers "F.Cu") (net 1 "CLK1")))
  (footprint "lib:B" (layer "F.Cu") (at 25 {y})
    (pad "1" smd rect (at 0 0) (size 0.4 0.4) (layers "F.Cu") (net 1 "CLK1")))
  (segment (start 5 {y}) (end 25 {y}) (width 0.2) (layer "F.Cu") (net 1))
  (zone (net 2) (net_name "GNDX") (layer "In1.Cu")
    (filled_polygon (layer "In1.Cu") (pts (xy 0 0) (xy 30 0) (xy 30 20) (xy 0 20))))
  (via (at 5 {y}) (size 0.6) (drill 0.3) (layers "F.Cu" "B.Cu") (net 2))
  (via (at 25 {y}) (size 0.6) (drill 0.3) (layers "F.Cu" "B.Cu") (net 2))
  (gr_rect (start 0 0) (end 30 20) (layer "Edge.Cuts"))
)"#
    )
}

fn emi_netlist() -> Schematic {
    sheet(
        vec![
            net("Net", 1, "CLK1", vec![("signal", text("clock"))]),
            net("Ground", 2, "GNDX", Vec::new()),
        ],
        Vec::new(),
    )
}

fn emi_reals(y: f64) -> EmiReals {
    let edge = y.min(20.0 - y).min(5.0);
    let near_edge: usize = if edge < 1.5 { 2 } else { 0 };
    EmiReals {
        loop_areas: vec![num(20.0 * 0.2)],
        loop_total: num(20.0 * 0.2),
        edge_distances: vec![(num(edge - 0.1), num(edge - 0.1))],
        via_edge_distances: vec![num(edge), num(edge)],
        edge_gaps: vec![num(20.0); near_edge],
        via_distances: vec![num(10.0)],
        mean_via_distance: num(10.0),
        covered: vec![vec![true; 21]],
        fast_length: num(20.0),
        outer_ratio: num(1.0),
        connector_vias: Vec::new(),
    }
}

#[test]
fn emi_edge_clearance_prefers_centered_routing() {
    let centered = EmiPass.run(&context(&emi_board(10.0), &emi_netlist()), &emi_reals(10.0));
    let edge = EmiPass.run(&context(&emi_board(0.3), &emi_netlist()), &emi_reals(0.3));

    let centered_clearance = metric(&centered, "edge_clearance");
    let edge_clearance = metric(&edge, "edge_clearance");
    assert!(grade(centered_clearance) > grade(edge_clearance));

    let loop_area = metric(&centered, "loop_area_proxy");
    assert!(loop_area.applicable);
    assert!((raw(loop_area) - 4.0).abs() < 0.5);

    let stitching = metric(&centered, "stitching_via_density");
    assert!(stitching.applicable);
    assert!(raw(stitching) < 11.0);
}

#[test]
fn the_worst_entries_are_listed() {
    let entry = |label: &str, value: u64| WorstEntry { label: label.to_string(), value: Extent::Count(value) };
    let m = MetricResult::new("m", Amount::Count(21), "count", Rule::Decay(5000), 10).with_worst(
        vec![entry("f", 1), entry("e", 2), entry("d", 3), entry("c", 4), entry("b", 5), entry("a", 5)],
        true,
    );
    let labels: Vec<&str> = m.worst.iter().map(|w| w.label.as_str()).collect();
    assert_eq!(labels, vec!["a", "b", "c", "d", "e"]);
    let low = MetricResult::new("m", Amount::Count(1), "count", Rule::Complement, 10)
        .with_worst(vec![entry("x", 2), entry("y", 1)], false);
    assert_eq!(low.worst[0].label, "y");
    assert_eq!(CategoryResult::new("c", "C", num(1.0), vec![m, low]).graded_weight(), 20);
}

#[test]
fn drc_findings_are_counted() {
    let violation = |severity: &str, kind: &str, excluded: bool| Violation {
        severity: severity.to_string(),
        violation_type: kind.to_string(),
        excluded,
    };
    let mut ctx = context(&coupled_board(0.4), &classified_nets());
    assert!(DrcPass.run(&ctx).metrics.iter().all(|m| !m.applicable));
    ctx.drc = Some(DrcReport {
        violations: vec![
            violation("warning", "silk", false),
            violation("warning", "silk", false),
            violation("error", "clearance", true),
        ],
        unconnected_items: Vec::new(),
        schematic_parity: Vec::new(),
        warning_count: 2,
    });
    let found = DrcPass.run(&ctx);
    let warnings = found.metrics.iter().find(|m| !m.worst.is_empty()).expect("kinds are listed");
    assert_eq!(raw(warnings), 2.0);
    assert_eq!(warnings.worst[0].label, "silk");
}

#[test]
fn orphans_and_grids_are_judged() {
    let ctx = context(&coupled_board(0.4), &classified_nets());
    let result = AestheticsPass.run(
        &ctx,
        &AestheticsReals {
            length: num(20.0),
            disciplined: num(1.0),
            widths: vec![200, 200],
            on_grid: vec![(true, true, true, true), (true, false, true, false)],
        },
    );
    assert_eq!(result.id, "aesthetics");
    assert_eq!(AestheticsPass.id(), "aesthetics");
    assert!(result.metrics.iter().all(|m| m.applicable));
}

#[test]
fn drills_and_exposed_pads_are_judged() {
    let ctx = context(&esd_board(3.0), &esd_netlist(true));
    let areas = |first: f64| vec![num(first), num(0.36), num(0.25), num(0.25), num(0.25)];
    let dfm = |first: f64, inside: [bool; 5]| {
        let result = DfmPass.run(
            &ctx,
            &DfmReals {
                rings: vec![num(0.15)],
                aspect: Some(num(1.6 / 0.3)),
                areas: areas(first),
                inside: vec![inside.to_vec()],
            },
        );
        assert_eq!(result.id, "dfm");
        raw(metric(&result, "via_in_pad"))
    };
    assert_eq!(dfm(0.36, [true, false, false, false, true]), 1.0);
    assert_eq!(dfm(0.36, [false; 5]), 0.0);
    assert_eq!(dfm(3.99, [true, false, false, false, false]), 1.0);
    assert_eq!(dfm(4.0, [true, false, false, false, false]), 0.0);
    let thermal = ThermalPass.run(
        &ctx,
        &ThermalReals {
            areas: vec![num(0.36), num(0.36), num(0.25), num(0.25), num(0.25)],
            inside: Vec::new(),
            shares: Vec::new(),
            mean_fill: num(0.0),
        },
    );
    assert!(thermal.metrics.iter().any(|m| !m.applicable));
}

#[test]
fn gaps_in_coverage_are_counted() {
    assert_eq!(count_gaps(&vec![true, true, true]), 0);
    assert_eq!(count_gaps(&vec![false, false]), 0);
    assert!(count_gaps(&vec![true, false, true]) > 0);
}

#[test]
fn neighbours_share_cells_and_layer() {
    let board = parse(&coupled_board(0.4));
    let here = CellRange { x0: 0, x1: 5, y0: 0, y1: 0 };
    let there = CellRange { x0: 0, x1: 5, y0: 9, y1: 9 };
    let index = SegmentIndex::build(&board, vec![here, here]);
    assert_eq!(index.neighbours(0, "F.Cu", here), vec![1]);
    assert!(index.neighbours(0, "B.Cu", here).is_empty());
    let apart = SegmentIndex::build(&board, vec![here, there]);
    assert!(apart.neighbours(0, "F.Cu", here).is_empty());
}

#[test]
fn planes_are_found_by_their_nets() {
    let board = parse(&emi_board(10.0));
    let classes = Some(classify_nets(&emi_netlist()));
    assert_eq!(plane_layers(&board, &classes), vec!["In1.Cu".to_string()]);
    let planes = vec!["A".to_string(), "B".to_string(), "C".to_string()];
    let distances = vec![Some(num(2.0)), None, Some(num(1.0))];
    assert_eq!(nearest_plane("F.Cu", &planes, &distances), Some(2));
    assert_eq!(nearest_plane("C", &planes, &distances), Some(0));
}

#[test]
fn classes_are_declared_or_implied() {
    let classes = classify_nets(&sheet(
        vec![
            net("Power", 1, "V5", Vec::new()),
            net("Net", 2, "USB", vec![("impedance", physical(50, Unit::Ohms, "50Ohm"))]),
            net("Net", 3, "AIN", vec![("signal", text("analog"))]),
            net("Net", 4, "X", Vec::new()),
        ],
        Vec::new(),
    ));
    let class = |name: &str| classes.iter().find(|c| c.0 == name).and_then(|c| c.1.class);
    assert_eq!(class("V5"), Some(SignalClass::Static));
    assert_eq!(class("USB"), Some(SignalClass::HighSpeed));
    assert_eq!(class("AIN"), Some(SignalClass::Analog));
    assert_eq!(class("X"), None);
    assert_eq!(Role::parse("tvs"), Role::Tvs);
    assert_eq!(Role::parse("anything"), Role::Other);
}

fn table(points: &[(f64, f64)]) -> Vec<Vec<Real>> {
    points
        .iter()
        .map(|a| points.iter().map(|b| num((a.0 - b.0).hypot(a.1 - b.1))).collect())
        .collect()
}

#[test]
fn crossings_and_windows_are_counted() {
    let ctx = context(&coupled_board(0.4), &classified_nets());
    let crossing = vec![vec![false, true], vec![true, false]];
    let result = PlacementPass.run(
        &ctx,
        &PlacementReals {
            distances: vec![
                table(&[]),
                table(&[(0.0, 0.0), (10.0, 0.0)]),
                table(&[(0.0, 0.4), (10.0, 0.4)]),
            ],
            crosses: crossing,
            connector_distances: Vec::new(),
            mean_connector_distance: num(0.0),
            on_circles: Vec::new(),
            density: num(0.0),
            windows: vec![(0, 0), (0, 0), (1, 0), (0, 0)],
        },
    );
    assert_eq!(raw(metric(&result, "airwire_crossings")), 0.5);
    assert_eq!(raw(metric(&result, "pin_density_hotspots")), 3.0);
    assert!(!metric(&result, "component_density").applicable);
    assert!(!metric(&result, "connector_edge_placement").applicable);
}

#[test]
fn detours_are_listed() {
    let board = parse(&coupled_board(0.4));
    let facts = |touching: Vec<(usize, usize)>| NetFacts {
        touching,
        near: Vec::new(),
        at: Vec::new(),
        joints: Vec::new(),
        routed_length: num(12.0),
        mst_length: num(10.0),
        stub_length: num(0.0),
    };
    let net_stats = compute_net_stats(&board, &vec![facts(vec![(0, 1), (0, 2)]), facts(Vec::new())]);
    assert_eq!(comparable_nets(&net_stats), vec![0]);
    let ctx = ScoreContext {
        board,
        net_stats,
        drc: None,
        net_classes: None,
        roles: None,
        weights: Weights::default(),
    };
    let result = RoutingPass.run(
        &ctx,
        &RoutingReals {
            detours: vec![num(1.2)],
            mean_detour: num(1.2),
            total_routed: num(24.0),
            total_mst: num(20.0),
            wire_ratio: num(1.2),
            stub_total: num(0.0),
            layer_lengths: vec![num(20.0), num(0.0), num(0.0), num(0.0)],
            gini: num(0.75),
        },
    );
    let detour = metric(&result, "detour_factor");
    assert_eq!(raw(detour), 1.2);
    assert_eq!(grade(detour), 1.0);
    assert_eq!(detour.worst[0].label, "CLK_OUT");
    assert!(!metric(&result, "routing_layer_balance").applicable);
    assert_eq!(raw(metric(&result, "via_count_per_net")), 0.0);
}

#[test]
fn vias_share_the_current() {
    let declared = classify_nets(&power_netlist(true));
    let silent = classify_nets(&power_netlist(false));
    let name = "V5".to_string();
    assert_eq!(via_target(&declared, &name, 4), 4);
    assert_eq!(via_target(&declared, &name, 1), 2);
    assert_eq!(via_target(&silent, &name, 4), 2);
    let info = &declared.iter().find(|c| c.0 == name).expect("classified").1;
    assert_eq!(info.rated_current(), Some(num(2.0)));
}

#[test]
fn nothing_is_guessed_without_a_netlist() {
    let mut ctx = context(&power_board(0.2), &power_netlist(true));
    ctx.net_classes = None;
    ctx.roles = None;
    let families = [
        SiPass.run(&ctx, &si_reals(0.0)),
        PowerPass.run(&ctx, &power_reals(Vec::new(), Vec::new())),
        EsdPass.run(&ctx, &esd_reals(3.0)),
    ];
    for family in &families {
        assert!(family.metrics.iter().all(|m| !m.applicable && m.note.is_some() && m.worst.is_empty()));
        assert_eq!(family.graded_weight(), 0);
    }
}

fn stacked_pairs(tracks: &[(&str, i64)], nets: Schematic) -> Vec<(usize, usize)> {
    let drawn: Vec<String> = tracks
        .iter()
        .map(|(layer, net)| format!(r#"(segment (start 0 0) (end 10 0) (width 0.2) (layer "{layer}") (net {net}))"#))
        .collect();
    let source = format!(
        r#"(kicad_pcb
  (layers (0 "F.Cu" signal) (2 "B.Cu" signal))
  (net 0 "")
  (net 1 "CLK_OUT")
  (net 2 "VSENSE")
  {}
)"#,
        drawn.join(" ")
    );
    find_broadside_pairs(&parse(&source), &classify_nets(&nets), &Vec::new())
}

#[test]
fn broadside_pairs_do_not_depend_on_the_order_of_tracks() {
    let (aggressor, victim) = (("F.Cu", 1), ("B.Cu", 2));
    assert_eq!(stacked_pairs(&[aggressor, victim], classified_nets()), vec![(0, 1)]);
    assert_eq!(stacked_pairs(&[victim, aggressor], classified_nets()), vec![(1, 0)]);
    assert!(stacked_pairs(&[("F.Cu", 1), ("F.Cu", 2)], classified_nets()).is_empty());
    assert!(stacked_pairs(&[("F.Cu", 1), ("B.Cu", 1)], classified_nets()).is_empty());
}

#[test]
fn tracks_that_disturb_each_other_count_once() {
    let both = || {
        let props = || {
            vec![
                ("signal", text("high_speed")),
                ("impedance", physical(50, Unit::Ohms, "50Ohm")),
            ]
        };
        sheet(vec![net("Net", 1, "CLK_OUT", props()), net("Net", 2, "VSENSE", props())], Vec::new())
    };
    assert_eq!(stacked_pairs(&[("F.Cu", 1), ("B.Cu", 2)], both()), vec![(0, 1)]);
    assert_eq!(stacked_pairs(&[("F.Cu", 2), ("B.Cu", 1)], both()), vec![(1, 0)]);
}

#[test]
fn the_greatest_skew_counts() {
    let two = sheet(
        vec![
            net("Net", 1, "A", vec![("matched_group", text("bus"))]),
            net("Net", 2, "B", vec![("matched_group", text("bus"))]),
        ],
        Vec::new(),
    );
    let source = r#"(kicad_pcb
  (layers (0 "F.Cu" signal) (2 "B.Cu" signal))
  (net 1 "A")
  (net 2 "B")
  (segment (start 0 0) (end 10 0) (width 0.2) (layer "F.Cu") (net 1))
  (segment (start 0 5) (end 12 5) (width 0.2) (layer "F.Cu") (net 2))
)"#;
    let mut ctx = context(source, &two);
    for (s, length) in ctx.net_stats.iter_mut().zip([10.0, 12.0]) {
        s.routed_length = num(length);
    }
    let reals = SiReals {
        target_errors: Vec::new(),
        uncovered: Vec::new(),
        group_skews: vec![num(2.0)],
        ..si_reals(0.0)
    };
    let result = SiPass.run(&ctx, &reals);
    assert_eq!(raw(metric(&result, "length_matching_groups")), 2.0);
}

#[test]
fn neighbours_are_looked_for_around_the_first_track() {
    let source = |first: i64, second: i64| {
        format!(
            r#"(kicad_pcb
  (layers (0 "F.Cu" signal))
  (net 1 "A")
  (net 2 "B")
  (segment (start 0 0) (end 9 0) (width 0.2) (layer "F.Cu") (net {first}))
  (segment (start 0 6) (end 9 6) (width 2) (layer "F.Cu") (net {second}))
)"#
        )
    };
    let row = |y0: i64, y1: i64| CellRange { x0: 0, x1: 4, y0, y1 };
    let (thin, thin_around) = (row(0, 0), row(-1, 0));
    let (wide, wide_around) = (row(2, 4), row(-1, 8));
    let narrow_first = find_adjacent_pairs(
        &parse(&source(1, 2)),
        &vec![thin, wide],
        &vec![thin_around, wide_around],
    );
    let wide_first = find_adjacent_pairs(
        &parse(&source(2, 1)),
        &vec![wide, thin],
        &vec![wide_around, thin_around],
    );
    assert_eq!((narrow_first, wide_first), (Vec::new(), vec![(0, 1)]));
}

fn emi_families() -> FamilyReals {
    let cell = || vec![CellRange { x0: 2, x1: 12, y0: 4, y1: 5 }];
    FamilyReals {
        routing: RoutingReals {
            detours: Vec::new(),
            mean_detour: num(0.0),
            total_routed: num(20.0),
            total_mst: num(20.0),
            wire_ratio: num(1.0),
            stub_total: num(0.0),
            layer_lengths: vec![num(20.0), num(0.0), num(0.0), num(0.0)],
            gini: num(0.75),
        },
        si: SiReals { target_errors: Vec::new(), ..si_reals(0.0) },
        crosstalk: CrosstalkReals {
            adjacent_length: num(0.0),
            spaced_ratio: num(1.0),
            cells: cell(),
            around: cell(),
            runs: Vec::new(),
            exposures: Vec::new(),
            broadside_total: num(0.0),
        },
        emi: emi_reals(10.0),
        power: PowerReals { width_spreads: Vec::new(), ..power_reals(Vec::new(), Vec::new()) },
        esd: EsdReals {
            tvs_distances: Vec::new(),
            mean_tvs_distance: num(0.0),
            other_distances: Vec::new(),
            in_fill: Vec::new(),
            via_distances: Vec::new(),
            rings: Vec::new(),
        },
        thermal: ThermalReals {
            areas: vec![num(0.16); 2],
            inside: Vec::new(),
            shares: Vec::new(),
            mean_fill: num(0.0),
        },
        dfm: DfmReals {
            rings: vec![num(0.15); 2],
            aspect: Some(num(1.54 / 0.3)),
            areas: vec![num(0.16); 2],
            inside: vec![vec![true, false], vec![false, true]],
        },
        placement: PlacementReals {
            distances: vec![Vec::new(), table(&[(5.0, 10.0), (25.0, 10.0)]), Vec::new()],
            crosses: vec![vec![false]],
            connector_distances: Vec::new(),
            mean_connector_distance: num(0.0),
            on_circles: Vec::new(),
            density: num(0.001),
            windows: vec![(0, 1), (2, 1)],
        },
        aesthetics: AestheticsReals {
            length: num(20.0),
            disciplined: num(1.0),
            widths: vec![200],
            on_grid: vec![(true, true, true, true)],
        },
    }
}

#[test]
fn deterministic_full_report() {
    let report = || {
        let source = emi_board(10.0);
        let scored = assemble_report(
            &context(&source, &emi_netlist()),
            "test.kicad_pcb",
            &source,
            "1.0.0",
            &emi_families(),
            |_: &Vec<CategoryResult>, _: &Gates| (num(70.0), num(60.0)),
        );
        assert_eq!(scored.categories.len(), 11);
        format!("{scored:?}")
    };
    let a = report();
    let b = report();
    assert_eq!(a, b);
}

#[test]
fn uncovered_lengths_are_listed_by_name() {
    let source = r#"(kicad_pcb
  (layers (0 "F.Cu" signal) (1 "In1.Cu" signal) (2 "B.Cu" signal))
  (net 1 "CLK")
  (net 2 "CLK")
  (net 3 "GNDX")
  (segment (start 0 0) (end 4 0) (width 0.2) (layer "F.Cu") (net 1))
  (segment (start 0 9) (end 6 9) (width 0.2) (layer "F.Cu") (net 2))
  (zone (net 3) (net_name "GNDX") (layer "In1.Cu")
    (filled_polygon (layer "In1.Cu") (pts (xy 50 50) (xy 60 50) (xy 60 60))))
)"#;
    let nets = sheet(
        vec![
            net("Net", 1, "CLK", vec![("signal", text("clock"))]),
            net("Ground", 3, "GNDX", Vec::new()),
        ],
        Vec::new(),
    );
    let reals = SiReals {
        target_errors: Vec::new(),
        uncovered: vec![Some(Extent::Measured(num(10.0)))],
        coverage: Some(num(0.0)),
        ..si_reals(0.0)
    };
    let result = SiPass.run(&context(source, &nets), &reals);
    let worst = &metric(&result, "reference_plane_continuity").worst;
    assert_eq!(worst.len(), 1);
    assert_eq!(worst[0].label, "CLK");
}
