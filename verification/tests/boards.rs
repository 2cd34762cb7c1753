use pcb_kit::number::Real;
use pcb_kit::score::airwires::airwire_edges;
use pcb_kit::score::board::{BoardModel, OutlinePiece, Point};
use pcb_kit::score::gates::{compute_gates, count_kinds, headline_score};
use pcb_kit::score::metrics::aesthetics::AestheticsReals;
use pcb_kit::score::metrics::context::{DrcReport, ScoreContext, Violation, Weights};
use pcb_kit::score::metrics::crosstalk::CrosstalkReals;
use pcb_kit::score::metrics::dfm::DfmReals;
use pcb_kit::score::metrics::emi::EmiReals;
use pcb_kit::score::metrics::esd::EsdReals;
use pcb_kit::score::metrics::families::FamilyReals;
use pcb_kit::score::metrics::placement::PlacementReals;
use pcb_kit::score::metrics::power::PowerReals;
use pcb_kit::score::metrics::routing::RoutingReals;
use pcb_kit::score::metrics::si::SiReals;
use pcb_kit::score::metrics::thermal::ThermalReals;
use pcb_kit::score::model::{CategoryResult, Gates};
use pcb_kit::score::net_graph::{net_copper, via_spans_layer};
use pcb_kit::score::net_stats::{compute_net_stats, Joint, NetFacts, NetStats};
use pcb_kit::score::report::{assemble_report, hex_sha256, hex_text};
use pcb_kit::score::sexpr::Sexpr;
use pcb_kit::score::sexpr_text::{read_tree, read_whole, split_pieces, Piece};
use pcb_kit::score::spanning::spanning_edges;
use pcb_kit::score::spatial::CellRange;

fn num(x: f64) -> Real {
    Real::from_bits(x.to_bits())
}

fn number(r: Real) -> f64 {
    f64::from_bits(r.bits)
}

fn read(source: &str) -> Sexpr {
    let pieces = split_pieces(source).expect("every text ends");
    let numbers: Vec<Option<Real>> = pieces
        .iter()
        .map(|p| match p {
            Piece::Word(w) | Piece::Quoted(w) => w.parse::<f64>().ok().map(num),
            Piece::Open | Piece::Close => None,
        })
        .collect();
    match read_tree(&pieces, &numbers) {
        Ok(tree) => tree,
        Err(e) => panic!("{e}"),
    }
}

fn parse(source: &str) -> BoardModel {
    match BoardModel::parse(&read(source)) {
        Ok(b) => b,
        Err(e) => panic!("{e}"),
    }
}

fn facts(touching: Vec<(usize, usize)>, routed: f64, mst: f64) -> NetFacts {
    NetFacts {
        touching,
        near: Vec::new(),
        at: Vec::new(),
        joints: Vec::new(),
        routed_length: num(routed),
        mst_length: num(mst),
        stub_length: num(0.0),
    }
}

const MINI: &str = r#"(kicad_pcb
  (version 20241229)
  (layers
    (0 "F.Cu" signal)
    (2 "B.Cu" signal)
    (25 "Edge.Cuts" user)
  )
  (net 0 "")
  (net 1 "SIG")
  (footprint "lib:R"
    (layer "F.Cu")
    (at 10 10 90)
    (property "Reference" "R1" (at 0 0) (layer "F.SilkS"))
    (pad "1" smd rect (at -1 0) (size 1 1) (layers "F.Cu") (net 1 "SIG"))
    (pad "2" smd rect (at 1 0) (size 1 1) (layers "F.Cu") (net 1 "SIG"))
  )
  (segment (start 10 9) (end 20 9) (width 0.25) (layer "F.Cu") (net 1))
  (via (at 20 9) (size 0.6) (drill 0.3) (layers "F.Cu" "B.Cu") (net 1))
  (gr_rect (start 0 0) (end 30 30) (layer "Edge.Cuts"))
)"#;

#[test]
fn parses_minimal_board() {
    let model = parse(MINI);
    assert_eq!(model.copper_layers, vec!["F.Cu".to_string(), "B.Cu".to_string()]);
    assert_eq!(model.nets.iter().find(|n| n.0 == 1).map(|n| n.1.as_str()), Some("SIG"));
    assert_eq!(model.tracks.len(), 1);
    assert_eq!(model.vias.len(), 1);
    assert_eq!(model.outline.len(), 4);
    let fp = &model.footprints[0];
    assert_eq!(fp.reference, "R1");
    assert_eq!((number(fp.at.x), number(fp.at.y), number(fp.rotation_deg)), (10.0, 10.0, 90.0));
    let local = |pad: usize| (number(fp.pads[pad].local.x), number(fp.pads[pad].local.y));
    assert_eq!((local(0), local(1)), ((-1.0, 0.0), (1.0, 0.0)));
    let bbox = model.outline_bbox(&Vec::new()).expect("an outline");
    assert_eq!((number(bbox.0.x), number(bbox.1.x)), (0.0, 30.0));
}

#[test]
fn other_roots_are_refused() {
    assert!(BoardModel::parse(&read("(kicad_sch)")).is_err());
    assert!(BoardModel::parse(&read("kicad_pcb")).is_err());
    let empty = parse("(kicad_pcb)");
    assert!(empty.tracks.is_empty() && empty.used_net_ids().is_empty());
}

#[test]
fn an_outline_rectangle_is_closed() {
    let model = parse(MINI);
    let ends: Vec<((f64, f64), (f64, f64))> = model
        .outline
        .iter()
        .map(|p| match p {
            OutlinePiece::Segment(a, b) => ((number(a.x), number(a.y)), (number(b.x), number(b.y))),
            OutlinePiece::Circle(..) => panic!("four sides"),
        })
        .collect();
    for i in 0..4 {
        assert_eq!(ends[i].1, ends[(i + 1) % 4].0);
    }
}

#[test]
fn boxes_take_in_the_points_of_circles() {
    let model = parse(MINI);
    let far = Point { x: num(-5.0), y: num(40.0) };
    let (min, max) = model.outline_bbox(&vec![far]).expect("an outline");
    assert_eq!((number(min.x), number(min.y)), (-5.0, 0.0));
    assert_eq!((number(max.x), number(max.y)), (30.0, 40.0));
    assert!(parse("(kicad_pcb)").outline_bbox(&Vec::new()).is_none());
}

#[test]
fn names_and_used_nets() {
    let model = parse(MINI);
    assert_eq!(model.used_net_ids(), vec![1]);
    assert_eq!(model.net_name(1), "SIG");
    assert!(model.footprints[0].pads[0].on_copper(&model.copper_layers, "F.Cu"));
    assert!(!model.footprints[0].pads[0].on_copper(&model.copper_layers, "B.Cu"));
    assert!(via_spans_layer(&model.vias[0], "B.Cu", &model.copper_layers));
    assert!(!via_spans_layer(&model.vias[0], "In1.Cu", &model.copper_layers));
}

fn board(more: &str) -> BoardModel {
    parse(&format!(
        r#"(kicad_pcb
  (layers (0 "F.Cu" signal) (2 "B.Cu" signal))
  (net 0 "")
  (net 1 "SIG")
  (footprint "lib:A" (layer "F.Cu") (at 0 0)
    (pad "1" smd rect (at 0 0) (size 1 1) (layers "F.Cu") (net 1 "SIG")))
  (footprint "lib:B" (layer "F.Cu") (at 10 0)
    (pad "1" smd rect (at 0 0) (size 1 1) (layers "F.Cu") (net 1 "SIG")))
  {more}
)"#
    ))
}

fn one(b: &BoardModel, f: NetFacts) -> NetStats {
    let mut stats = compute_net_stats(b, &vec![f]);
    assert_eq!(stats.len(), 1);
    assert_eq!(stats[0].net, 1);
    stats.remove(0)
}

#[test]
fn unrouted_net_is_disconnected() {
    let b = board("");
    assert_eq!(net_copper(&b, 1).elements.len(), 2);
    let sig = one(&b, facts(Vec::new(), 0.0, 10.0));
    assert!(!sig.connected);
    assert_eq!(sig.pad_components, 2);
    assert!((number(sig.mst_length) - 10.0).abs() < 1e-9);
}

#[test]
fn straight_route_connects_and_has_detour_1() {
    let b = board(r#"(segment (start 0 0) (end 10 0) (width 0.25) (layer "F.Cu") (net 1))"#);
    let mut f = facts(vec![(0, 1), (0, 2)], 10.0, 10.0);
    f.at = vec![((0, false), 1), ((0, true), 2)];
    let sig = one(&b, f);
    assert!(sig.connected);
    assert!(sig.comparable());
    assert!((number(sig.routed_length) / number(sig.mst_length) - 1.0).abs() < 1e-9);
    assert_eq!(sig.stub_ends.len(), 0);
}

#[test]
fn l_route_detour() {
    let b = board(
        r#"(segment (start 0 0) (end 0 5) (width 0.25) (layer "F.Cu") (net 1))
           (segment (start 0 5) (end 10 5) (width 0.25) (layer "F.Cu") (net 1))
           (segment (start 10 5) (end 10 0) (width 0.25) (layer "F.Cu") (net 1))"#,
    );
    let sig = one(&b, facts(vec![(0, 1), (1, 2), (0, 3), (2, 4)], 20.0, 10.0));
    assert!(sig.connected && sig.comparable());
    assert!((number(sig.routed_length) / number(sig.mst_length) - 2.0).abs() < 1e-9);
    assert_eq!(sig.segment_count, 3);
}

#[test]
fn via_connects_layers() {
    let b = board(
        r#"(segment (start 0 0) (end 5 0) (width 0.25) (layer "F.Cu") (net 1))
           (via (at 5 0) (size 0.6) (drill 0.3) (layers "F.Cu" "B.Cu") (net 1))
           (segment (start 5 0) (end 10 0) (width 0.25) (layer "B.Cu") (net 1))
           (via (at 10 0) (size 0.6) (drill 0.3) (layers "F.Cu" "B.Cu") (net 1))"#,
    );
    let all = vec![(0, 1), (0, 2), (1, 2), (1, 3), (0, 4), (1, 5), (3, 5)];
    let sig = one(&b, facts(all, 10.0, 10.0));
    assert!(sig.connected);
    assert_eq!(sig.via_count, 2);
    assert_eq!(sig.layers_used.len(), 2);
    let without = one(&b, facts(vec![(0, 1), (0, 4), (1, 5)], 10.0, 10.0));
    assert!(!without.connected, "tracks of two layers do not touch without a via");
}

#[test]
fn dangling_track_is_a_stub() {
    let b = board(
        r#"(segment (start 0 0) (end 10 0) (width 0.25) (layer "F.Cu") (net 1))
           (segment (start 5 0) (end 5 3) (width 0.25) (layer "F.Cu") (net 1))"#,
    );
    let mut f = facts(vec![(0, 1), (0, 2), (0, 3)], 13.0, 10.0);
    f.near = vec![((1, false), 0)];
    f.at = vec![((0, false), 2), ((0, true), 3)];
    f.stub_length = num(3.0);
    let sig = one(&b, f);
    assert!(sig.connected);
    assert_eq!(sig.stub_ends, vec![1]);
    assert!((number(sig.stub_length) - 3.0).abs() < 1e-9);
}

#[test]
fn zone_connects_pads() {
    let b = board(
        r#"(zone (net 1) (net_name "SIG") (layer "F.Cu")
             (filled_polygon (layer "F.Cu")
               (pts (xy -2 -2) (xy 12 -2) (xy 12 2) (xy -2 2))))"#,
    );
    let sig = one(&b, facts(vec![(0, 2), (1, 2)], 0.0, 10.0));
    assert!(sig.connected);
    assert!(sig.has_zone);
}

#[test]
fn joints_count_on_one_layer() {
    let b = board(
        r#"(segment (start 0 0) (end 5 0) (width 0.25) (layer "F.Cu") (net 1))
           (segment (start 5 0) (end 5 5) (width 0.25) (layer "F.Cu") (net 1))
           (segment (start 5 5) (end 9 5) (width 0.25) (layer "B.Cu") (net 1))"#,
    );
    let joint = |track: usize, other: usize| Joint {
        track,
        other,
        reversal: false,
        right_angle: true,
        acute: false,
        mergeable: false,
    };
    let mut f = facts(Vec::new(), 14.0, 10.0);
    f.joints = vec![joint(0, 1), joint(1, 2), joint(1, 0)];
    let sig = one(&b, f);
    assert_eq!(sig.right_angle_corners, 1);
    assert_eq!(sig.direction_reversals, 0);
}

const TWO_NET_BOARD: &str = r#"(kicad_pcb
  (layers (0 "F.Cu" signal) (2 "B.Cu" signal))
  (net 0 "")
  (net 1 "A")
  (net 2 "B")
  (footprint "lib:X" (layer "F.Cu") (at 0 0)
    (pad "1" smd rect (at 0 0) (size 1 1) (layers "F.Cu") (net 1 "A"))
    (pad "2" smd rect (at 2 0) (size 1 1) (layers "F.Cu") (net 2 "B")))
  (footprint "lib:Y" (layer "F.Cu") (at 10 0)
    (pad "1" smd rect (at 0 0) (size 1 1) (layers "F.Cu") (net 1 "A"))
    (pad "2" smd rect (at 2 0) (size 1 1) (layers "F.Cu") (net 2 "B")))
  (segment (start 0 0) (end 10 0) (width 0.25) (layer "F.Cu") (net 1))
)"#;

fn context(b: BoardModel, f: Vec<NetFacts>, drc: Option<DrcReport>) -> ScoreContext {
    let net_stats = compute_net_stats(&b, &f);
    ScoreContext { board: b, net_stats, drc, net_classes: None, roles: None, weights: Weights::default() }
}

/// What is measured of the board with as many tracks, without a netlist.
fn two_net_reals(tracks: usize) -> FamilyReals {
    let pair = || vec![vec![num(0.0), num(10.0)], vec![num(10.0), num(0.0)]];
    let cells = || vec![CellRange { x0: 0, x1: 1, y0: 0, y1: 0 }; tracks];
    FamilyReals {
        routing: RoutingReals {
            detours: vec![num(1.0); tracks],
            mean_detour: num(1.0),
            total_routed: num(10.0),
            total_mst: num(10.0),
            wire_ratio: num(1.0),
            stub_total: num(0.0),
            layer_lengths: vec![num(10.0), num(0.0)],
            gini: num(0.5),
        },
        si: SiReals {
            target_errors: Vec::new(),
            mean_error: num(0.0),
            skews: Vec::new(),
            gap_ratio: None,
            decoupled_total: num(0.0),
            stub_total: num(0.0),
            thickness_known: false,
            mean_barrel_stub: num(0.0),
            uncovered: Vec::new(),
            coverage: None,
            stitch_distances: Vec::new(),
            group_skews: Vec::new(),
        },
        crosstalk: CrosstalkReals {
            adjacent_length: num(0.0),
            spaced_ratio: num(1.0),
            cells: cells(),
            around: cells(),
            runs: Vec::new(),
            exposures: Vec::new(),
            broadside_total: num(0.0),
        },
        emi: EmiReals {
            loop_areas: Vec::new(),
            loop_total: num(0.0),
            edge_distances: vec![(num(f64::INFINITY), num(f64::INFINITY)); tracks],
            via_edge_distances: Vec::new(),
            edge_gaps: Vec::new(),
            via_distances: Vec::new(),
            mean_via_distance: num(0.0),
            covered: Vec::new(),
            fast_length: num(0.0),
            outer_ratio: num(0.0),
            connector_vias: Vec::new(),
        },
        power: PowerReals {
            width_ratios: Vec::new(),
            margins: Vec::new(),
            width_spreads: Vec::new(),
            mean_width_spread: num(0.0),
            loops: Vec::new(),
            mean_loop: num(0.0),
            on_circles: Vec::new(),
            coverage: num(0.0),
            via_shares: Vec::new(),
            mean_via_ratio: num(0.0),
        },
        esd: EsdReals {
            tvs_distances: Vec::new(),
            mean_tvs_distance: num(0.0),
            other_distances: Vec::new(),
            in_fill: Vec::new(),
            via_distances: Vec::new(),
            rings: Vec::new(),
        },
        thermal: ThermalReals {
            areas: vec![num(1.0); 4],
            inside: Vec::new(),
            shares: Vec::new(),
            mean_fill: num(0.0),
        },
        dfm: DfmReals { rings: Vec::new(), aspect: None, areas: vec![num(1.0); 4], inside: Vec::new() },
        placement: PlacementReals {
            distances: vec![Vec::new(), pair(), pair()],
            crosses: vec![vec![false; 2]; 2],
            connector_distances: Vec::new(),
            mean_connector_distance: num(0.0),
            on_circles: Vec::new(),
            density: num(0.0),
            windows: vec![(0, 0), (0, 0), (1, 0), (1, 0)],
        },
        aesthetics: AestheticsReals {
            length: num(10.0),
            disciplined: num(1.0),
            widths: vec![250; tracks],
            on_grid: vec![(true, true, true, true); tracks],
        },
    }
}

#[test]
fn gate_blocks_score_until_fully_routed() {
    let routed = || facts(vec![(0, 1), (0, 2)], 10.0, 10.0);
    let partial_ctx = context(parse(TWO_NET_BOARD), vec![routed(), facts(Vec::new(), 0.0, 10.0)], None);
    let partial = assemble_report(
        &partial_ctx,
        "test.kicad_pcb",
        TWO_NET_BOARD,
        "1.0.0",
        &two_net_reals(1),
        |_: &Vec<CategoryResult>, gates: &Gates| (num(80.0), num(40.0 * gates.connectivity.connected_nets as f64)),
    );
    assert!(!partial.gates.passed);
    assert_eq!(number(partial.score), 0.0);
    assert!(number(partial.fitness) > 0.0);
    assert_eq!(partial.gates.connectivity.connected_nets, 1);
    assert_eq!(partial.gates.connectivity.total_nets, 2);

    let full_source = TWO_NET_BOARD.replace(
        r#"(segment (start 0 0) (end 10 0) (width 0.25) (layer "F.Cu") (net 1))"#,
        r#"(segment (start 0 0) (end 10 0) (width 0.25) (layer "F.Cu") (net 1))
  (segment (start 2 0) (end 12 0) (width 0.25) (layer "F.Cu") (net 2))"#,
    );
    let full_ctx = context(parse(&full_source), vec![routed(), routed()], None);
    let full = assemble_report(
        &full_ctx,
        "test.kicad_pcb",
        &full_source,
        "1.0.0",
        &two_net_reals(2),
        |families: &Vec<CategoryResult>, _: &Gates| (num(families.len() as f64), num(95.0)),
    );
    assert!(full.gates.passed);
    assert_eq!((number(partial.quality), number(partial.fitness)), (80.0, 40.0));
    assert_eq!((number(full.quality), number(full.fitness)), (11.0, 95.0));
    let names: Vec<&str> = full.categories.iter().map(|c| c.id.as_str()).collect();
    assert_eq!(
        names,
        [
            "drc",
            "routing_efficiency",
            "signal_integrity",
            "crosstalk",
            "emi",
            "power_integrity",
            "esd",
            "thermal",
            "dfm",
            "placement",
            "aesthetics",
        ]
    );
    assert!(number(full.score) > 0.0);
    assert_eq!(full.score, full.quality);
    assert_eq!(full.board.nets, 2);
    assert_eq!(full.board.copper_layers, 2);
    assert_eq!(full.board.components, 2);
    assert_eq!(full.board.sha256, hex_sha256(&full_source));
    assert!(!full.inputs.drc_ran && !full.inputs.netlist_available);
}

#[test]
fn deterministic_output() {
    let report = || {
        let ctx = context(
            parse(TWO_NET_BOARD),
            vec![facts(vec![(0, 1), (0, 2)], 10.0, 10.0), facts(Vec::new(), 0.0, 10.0)],
            None,
        );
        let scored = assemble_report(
            &ctx,
            "test.kicad_pcb",
            TWO_NET_BOARD,
            "1.0.0",
            &two_net_reals(1),
            |_: &Vec<CategoryResult>, _: &Gates| (num(80.0), num(40.0)),
        );
        format!("{scored:?}")
    };
    let a = report();
    let b = report();
    assert_eq!(a, b);
}

fn violation(severity: &str, kind: &str, excluded: bool) -> Violation {
    Violation { severity: severity.to_string(), violation_type: kind.to_string(), excluded }
}

#[test]
fn drc_errors_block_the_score() {
    let drc = DrcReport {
        violations: vec![
            violation("error", "clearance", false),
            violation("error", "clearance", false),
            violation("error", "courtyard", true),
            violation("warning", "silk", false),
        ],
        unconnected_items: Vec::new(),
        schematic_parity: Vec::new(),
        warning_count: 1,
    };
    assert_eq!(count_kinds(&drc.violations, "error"), vec![("clearance".to_string(), 2)]);
    let routed = || facts(vec![(0, 1), (0, 2)], 10.0, 10.0);
    let ctx = context(parse(TWO_NET_BOARD), vec![routed(), routed()], Some(drc));
    let gates = compute_gates(&ctx.net_stats, &ctx.drc);
    assert!(!gates.passed && !gates.drc_errors.passed);
    assert_eq!(gates.drc_errors.count, 2);
    assert_eq!(gates.connectivity.drc_unconnected_items, Some(0));
    assert_eq!(number(headline_score(&gates, num(90.0))), 0.0);
}

#[test]
fn digests_are_known() {
    assert_eq!(
        hex_sha256(""),
        "e3b0c44298fc1c149afbf4c8996fb92427ae41e4649b934ca495991b7852b855"
    );
    assert_eq!(
        hex_sha256("abc"),
        "ba7816bf8f01cfea414140de5dae2223b00361a396177a9cb410ff61f20015ad"
    );
    assert_eq!(hex_text(&vec![0, 15, 16, 255]), "000f10ff");
}

fn table(points: &[(f64, f64)]) -> Vec<Vec<Real>> {
    points
        .iter()
        .map(|a| points.iter().map(|b| num(((a.0 - b.0).powi(2) + (a.1 - b.1).powi(2)).sqrt())).collect())
        .collect()
}

#[test]
fn shortest_trees_are_found() {
    let edges = spanning_edges(&table(&[(0.0, 0.0), (10.0, 0.0), (1.0, 0.0), (11.0, 0.0)]));
    assert_eq!(edges.len(), 3);
    let mut length = 0.0;
    let xs = [0.0f64, 10.0, 1.0, 11.0];
    for (a, b) in &edges {
        length += (xs[*a] - xs[*b]).abs();
    }
    assert_eq!(length, 11.0);
    assert!(spanning_edges(&table(&[(0.0, 0.0)])).is_empty());
}

#[test]
fn airwires_join_the_pads_of_a_net() {
    let b = parse(TWO_NET_BOARD);
    let distances = vec![table(&[]), table(&[(0.0, 0.0), (10.0, 0.0)]), table(&[(2.0, 0.0), (12.0, 0.0)])];
    let wires = airwire_edges(&b, &distances);
    assert_eq!(wires.len(), 2);
    assert_eq!((wires[0].net, wires[1].net), (1, 2));
    assert_eq!((wires[1].from.footprint, wires[1].from.pad), (0, 1));
    assert_eq!((wires[1].to.footprint, wires[1].to.pad), (1, 1));
}

#[test]
fn texts_are_split_into_pieces() {
    let pieces = split_pieces("(a \"b \\\"c\\n\"\n 1.5)").expect("the text ends");
    let shown: Vec<String> = pieces
        .iter()
        .map(|p| match p {
            Piece::Open => "<".to_string(),
            Piece::Close => ">".to_string(),
            Piece::Word(w) => format!("word {w}"),
            Piece::Quoted(t) => format!("text {t}"),
        })
        .collect();
    assert_eq!(shown, vec!["<", "word a", "text b \"c\n", "word 1.5", ">"]);
    assert!(split_pieces("(a \"b").is_none());
    assert!(split_pieces("(a \"b\\").is_none());
    assert_eq!(split_pieces(" \t\r\n").map(|p| p.len()), Some(0));
}

#[test]
fn trees_are_built_from_pieces() {
    let build = |source: &str| {
        let pieces = split_pieces(source).expect("every text ends");
        let numbers = vec![None; pieces.len()];
        read_tree(&pieces, &numbers)
    };
    assert_eq!(build("(a (b) ").err(), Some("unbalanced parenthesis".to_string()));
    assert_eq!(build("a)").err(), Some("unbalanced parenthesis".to_string()));
    assert_eq!(build("(a) (b)").err(), Some("expected one expression, found 2".to_string()));
    assert_eq!(build("").err(), Some("expected one expression, found 0".to_string()));
    let tree = build("(a (b \"c\") ())").ok().expect("balanced");
    let items = tree.as_list().expect("a list");
    assert_eq!(items.len(), 3);
    assert_eq!(items[0].as_sym().map(|s| s.as_str()), Some("a"));
    let inner = items[1].as_list().expect("a list");
    assert_eq!(inner[1].as_sym(), None);
    assert_eq!(inner[1].as_text().map(|s| s.as_str()), Some("c"));
    assert_eq!(items[2].as_list().map(|l| l.len()), Some(0));
}

#[test]
fn whole_numbers_are_read() {
    assert_eq!(read_whole("42"), Some(42));
    assert_eq!(read_whole("-7"), Some(-7));
    assert_eq!(read_whole("+7"), Some(7));
    assert_eq!(read_whole("007"), Some(7));
    assert_eq!(read_whole("9223372036854775807"), Some(i64::MAX));
    assert_eq!(read_whole("-9223372036854775808"), Some(i64::MIN));
    for refused in ["", "-", "+", "1.5", "9223372036854775808", "-9223372036854775809", "12a", "1 2"] {
        assert_eq!(read_whole(refused), None, "{refused}");
    }
}

#[test]
fn an_arc_goes_on_where_a_track_ends() {
    let source = board(
        r#"(segment (start 0 0) (end 5 0) (width 0.25) (layer "F.Cu") (net 1))
           (arc (start 5 0) (mid 7.5 1) (end 10 0) (width 0.25) (layer "F.Cu") (net 1))"#,
    );
    // Pieces: the track, the arc, the pad at its start, the pad at the end of the arc.
    let mut f = facts(vec![(0, 1), (0, 2), (1, 3)], 10.2, 10.0);
    f.near = vec![((0, true), 1)];
    f.at = vec![((0, false), 2)];
    let sig = one(&source, f);
    assert!(sig.connected);
    assert!(sig.stub_ends.is_empty());
    assert_eq!(number(sig.stub_length), 0.0);
    assert_eq!(sig.segment_count, 2);

    let mut away = facts(vec![(0, 2), (1, 3)], 10.2, 10.0);
    away.at = vec![((0, false), 2)];
    assert_eq!(one(&source, away).stub_ends, vec![0]);
}

#[test]
fn an_arc_on_another_layer_leaves_the_end_free() {
    let source = board(
        r#"(segment (start 0 0) (end 5 0) (width 0.25) (layer "F.Cu") (net 1))
           (arc (start 5 0) (mid 7.5 1) (end 10 0) (width 0.25) (layer "B.Cu") (net 1))"#,
    );
    let mut f = facts(vec![(0, 1), (0, 2), (1, 3)], 10.2, 10.0);
    f.near = vec![((0, true), 1)];
    f.at = vec![((0, false), 2)];
    let sig = one(&source, f);
    assert!(!sig.connected);
    assert_eq!(sig.stub_ends, vec![0]);
}

#[test]
fn more_copper_joins_parts() {
    let segment = r#"(segment (start 0 0) (end 10 0) (width 0.25) (layer "F.Cu") (net 1))"#;
    let via = r#"(via (at 5 5) (size 0.6) (drill 0.3) (layers "F.Cu" "B.Cu") (net 1))"#;
    let before = one(&board(via), facts(Vec::new(), 0.0, 10.0));
    assert_eq!((before.pad_components, before.connected), (2, false));
    // The track comes to stand before the via, so the pads move up by one.
    let after = one(&board(&format!("{via} {segment}")), facts(vec![(0, 2), (0, 3)], 10.0, 10.0));
    assert_eq!((after.pad_components, after.connected), (1, true));
    assert_eq!(after.pad_count, before.pad_count);
}

#[test]
fn courtyards_are_read() {
    let model = parse(
        r#"(kicad_pcb
  (footprint "lib:R" (layer "F.Cu") (at 1 2)
    (fp_rect (start -2 -1) (end 2 1) (layer "F.CrtYd"))
    (fp_line (start -9 0) (end 9 0) (layer "F.SilkS"))
    (fp_circle (center 0 0) (end 3 0) (layer "B.CrtYd")))
  (footprint "lib:C" (layer "F.Cu") (at 5 5)))"#,
    );
    assert_eq!(model.footprints[0].courtyard.len(), 5);
    assert!(matches!(model.footprints[0].courtyard[4], OutlinePiece::Circle(..)));
    match &model.footprints[0].courtyard[0] {
        OutlinePiece::Segment(a, b) => {
            assert_eq!((number(a.x), number(a.y), number(b.x), number(b.y)), (-2.0, -1.0, 2.0, -1.0));
        }
        OutlinePiece::Circle(..) => panic!("a side"),
    }
    assert!(model.footprints[1].courtyard.is_empty());
}

#[test]
fn nets_stand_in_order() {
    let model = parse(r#"(kicad_pcb (net 7 "C") (net 2 "A") (net 5 "B") (net 2 "D"))"#);
    let nets: Vec<(i64, &str)> = model.nets.iter().map(|n| (n.0, n.1.as_str())).collect();
    assert_eq!(nets, vec![(2, "D"), (5, "B"), (7, "C")]);
}

#[test]
fn counts_by_kind_add_up() {
    let list = vec![
        violation("error", "clearance", false),
        violation("error", "short", false),
        violation("error", "clearance", false),
        violation("error", "clearance", true),
        violation("warning", "silk", false),
    ];
    let drc = Some(DrcReport { violations: list, unconnected_items: Vec::new(), schematic_parity: Vec::new(), warning_count: 1 });
    let gates = compute_gates(&Vec::new(), &drc);
    assert_eq!(gates.drc_errors.count, 3);
    assert_eq!(gates.drc_errors.by_kind.iter().map(|k| k.1).sum::<usize>(), 3);
}

#[test]
fn words_without_digits_are_symbols() {
    let tree = read("(layer inf 12 1e3 x7 \"8\")");
    match &tree {
        Sexpr::List(items) => {
            let as_sym = |i: usize| match &items[i] {
                Sexpr::Atom(a) => (a.sym.clone(), a.number.map(number)),
                Sexpr::List(_) => panic!("an atom"),
            };
            assert_eq!(as_sym(0), (Some("layer".to_string()), None));
            assert_eq!(as_sym(1), (Some("inf".to_string()), Some(f64::INFINITY)));
            assert_eq!(as_sym(2), (None, Some(12.0)));
            assert_eq!(as_sym(3), (None, Some(1000.0)));
            assert_eq!(as_sym(4), (Some("x7".to_string()), None));
            assert_eq!(as_sym(5), (None, Some(8.0)));
        }
        Sexpr::Atom(_) => panic!("a list"),
    }
}

#[test]
fn no_other_tree_is_shorter() {
    let points = [(0.0, 0.0), (9.0, 1.0), (4.0, 3.0), (5.0, 9.0)];
    let table: Vec<Vec<Real>> = points
        .iter()
        .map(|a: &(f64, f64)| points.iter().map(|b| num((a.0 - b.0).hypot(a.1 - b.1))).collect())
        .collect();
    let sorted = |edges: &[(usize, usize)]| {
        let mut lengths: Vec<f64> = edges.iter().map(|(a, b)| number(table[*a][*b])).collect();
        lengths.sort_by(|x, y| x.total_cmp(y));
        lengths
    };
    let best = sorted(&spanning_edges(&table));
    let pairs: Vec<(usize, usize)> = (0..4).flat_map(|a| (a + 1..4).map(move |b| (a, b))).collect();
    let mut trees = 0;
    for i in 0..pairs.len() {
        for j in i + 1..pairs.len() {
            for k in j + 1..pairs.len() {
                let edges = [pairs[i], pairs[j], pairs[k]];
                let mut seen = vec![0];
                for _ in 0..4 {
                    for (a, b) in edges {
                        if seen.contains(&a) != seen.contains(&b) {
                            seen.push(if seen.contains(&a) { b } else { a });
                        }
                    }
                }
                if seen.len() == 4 {
                    trees += 1;
                    assert!(best.iter().zip(sorted(&edges)).all(|(x, y)| *x <= y));
                }
            }
        }
    }
    assert_eq!(trees, 16);
}
