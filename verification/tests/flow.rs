use pcb_kit::number::Real;
use pcb_kit::score::board::{BoardModel, Footprint, Pad, Point, Track, Via};
use pcb_kit::score::flow::{build_flow_graph, FlowKeys, NodeKey};
use pcb_kit::json::Json;
use pcb_kit::netlist::schematic::{Attribute, Instance, InstanceRef, Net, Port, Schematic};
use pcb_kit::score::classify::PortCurrent;
use pcb_kit::score::flow_ports::{has_circuit, map_port_currents, pad_copper_layer, split_dots};

fn num(x: f64) -> Real {
    Real::from_bits(x.to_bits())
}

fn at(x: f64, y: f64) -> Point {
    Point { x: num(x), y: num(y) }
}

fn track(a: (f64, f64), b: (f64, f64), layer: &str) -> Track {
    Track { start: at(a.0, a.1), end: at(b.0, b.1), width: num(0.5), layer: layer.to_string(), net: 1 }
}

fn pad_part(reference: &str, x: f64) -> Footprint {
    Footprint {
        reference: reference.to_string(),
        footprint_id: "lib:P".to_string(),
        layer: "F.Cu".to_string(),
        at: at(x, 0.0),
        rotation_deg: num(0.0),
        pads: vec![Pad {
            number: "1".to_string(),
            kind: "smd".to_string(),
            local: at(0.0, 0.0),
            size: (num(1.0), num(1.0)),
            drill: None,
            layers: vec!["F.Cu".to_string()],
            net: Some(1),
            net_name: Some("V".to_string()),
        }],
        courtyard: Vec::new(),
    }
}

fn board(tracks: Vec<Track>, vias: Vec<Via>) -> BoardModel {
    BoardModel {
        copper_layers: vec!["F.Cu".to_string(), "B.Cu".to_string()],
        nets: vec![(1, "V".to_string())],
        tracks,
        arcs: Vec::new(),
        vias,
        zones: Vec::new(),
        footprints: vec![pad_part("J1", 0.0), pad_part("U1", 10.0)],
        outline: Vec::new(),
        stackup: Vec::new(),
    }
}

#[test]
fn tracks_and_vias_become_links() {
    let via = Via {
        at: at(5.0, 0.0),
        size: num(0.6),
        drill: num(0.3),
        layers: vec!["F.Cu".to_string(), "B.Cu".to_string()],
        net: 1,
        kind: String::new(),
    };
    let b = board(vec![track((0.0, 0.0), (5.0, 0.0), "F.Cu"), track((5.0, 0.0), (10.0, 0.0), "B.Cu")], vec![via]);
    let keys = FlowKeys {
        tracks: vec![((0, 0), (500, 0)), ((500, 0), (1000, 0))],
        vias: vec![(500, 0)],
        pads: vec![(0, 0), (1000, 0)],
    };
    let graph = build_flow_graph(&b, 1, &keys).expect("a graph");
    let by_track: Vec<Option<usize>> = graph.links.iter().map(|l| l.track).collect();
    assert_eq!(by_track, vec![Some(0), Some(1), None]);
    let joined = &graph.links[2];
    assert_eq!(graph.nodes[joined.a].layer + graph.nodes[joined.b].layer, 1);
    assert!(graph.is_solvable());
}

#[test]
fn a_net_without_tracks_has_no_graph() {
    let b = board(Vec::new(), Vec::new());
    let keys = FlowKeys { tracks: Vec::new(), vias: Vec::new(), pads: vec![(0, 0), (1000, 0)] };
    let graph = build_flow_graph(&b, 1, &keys).expect("the pads alone");
    assert!(graph.links.is_empty());
    assert_eq!(graph.nodes.len(), 2);
}

#[test]
fn nodes_are_located() {
    let b = board(vec![track((0.0, 0.0), (10.0, 0.0), "F.Cu")], Vec::new());
    let keys = FlowKeys { tracks: vec![((0, 0), (1000, 0))], vias: Vec::new(), pads: vec![(0, 0), (1000, 0)] };
    let mut graph = build_flow_graph(&b, 1, &keys).expect("a graph");
    let distances: Vec<Real> = graph.nodes.iter().map(|n| num((n.x - 1000).abs() as f64 / 100.0)).collect();
    let exact = graph.nodes.iter().position(|n| n.x == 0 && n.layer == 0);
    assert_eq!(graph.locate(NodeKey { x: 0, y: 0, layer: 0 }, &distances), exact);
    let n = graph.nodes.len();
    let pads = graph.pads.len();
    let before = graph.links.len();
    graph.bridge(&vec![vec![false; n]; pads]);
    assert_eq!(graph.links.len(), before);
}

#[test]
fn paths_are_split_at_dots() {
    assert_eq!(split_dots("A.B.C"), vec!["A".to_string(), "B".to_string(), "C".to_string()]);
    assert_eq!(split_dots(""), vec!["".to_string()]);
    assert_eq!(split_dots("A."), vec!["A".to_string(), "".to_string()]);
}

fn part_at(path: &[&str]) -> InstanceRef {
    InstanceRef { module: "board.zen".to_string(), path: path.iter().map(|s| s.to_string()).collect() }
}

fn sheet() -> Schematic {
    let part = |path: &[&str], refdes: &str| Instance {
        at: part_at(path),
        component: true,
        reference_designator: Some(refdes.to_string()),
        attributes: vec![("type".to_string(), Attribute::from_text("other".to_string()))],
    };
    Schematic {
        nets: vec![Net {
            id: 1,
            name: "V".to_string(),
            kind: "Power".to_string(),
            ports: vec![
                Port { at: part_at(&["psu", "J1", "1"]), pin: None },
                Port { at: part_at(&["psu", "J1", "2"]), pin: None },
                Port { at: part_at(&["load", "U1", "1"]), pin: None },
            ],
            properties: Vec::new(),
        }],
        instances: vec![part(&["psu", "J1"], "J1"), part(&["load", "U1"], "U1")],
    }
}

fn current(port: &str, is_sink: bool) -> PortCurrent {
    PortCurrent { port: port.to_string(), is_sink, amps: Json::Int(1) }
}

#[test]
fn currents_enter_at_the_pads_of_their_modules() {
    let b = board(vec![track((0.0, 0.0), (10.0, 0.0), "F.Cu")], Vec::new());
    let ports = vec![current("psu.OUT", false), current("load.VIN", true)];
    assert!(has_circuit(&ports));
    assert!(!has_circuit(&vec![current("psu.OUT", false)]));
    let found = map_port_currents(&b, &sheet(), "V", &ports).expect("both are placed");
    assert_eq!(found.len(), 2, "a component counts once, however many of its pins are on the net");
    assert_eq!((found[0].pad.footprint, found[0].port, found[0].parts), (0, 0, 1));
    assert_eq!((found[1].pad.footprint, found[1].port, found[1].parts), (1, 1, 1));
    assert!(!found[0].is_sink && found[1].is_sink);
    assert_eq!(found[0].layer, "F.Cu");
    let whole = map_port_currents(&b, &sheet(), "V", &vec![current("ROOT", false)]).expect("all parts");
    assert_eq!(whole.len(), 2);
    assert!(whole.iter().all(|i| i.parts == 2));
    let direct = map_port_currents(&b, &sheet(), "V", &vec![current("component:U1", true)]).expect("one part");
    assert_eq!(direct.len(), 1);
    assert!(map_port_currents(&b, &sheet(), "V", &vec![current("other.X", true)]).is_none());
    assert!(map_port_currents(&b, &sheet(), "W", &ports).is_none());
}

#[test]
fn pads_lie_on_their_first_copper_layer() {
    let mut pad = pad_part("J1", 0.0).pads.remove(0);
    assert_eq!(pad_copper_layer(&pad), "F.Cu");
    pad.layers = vec!["F.Mask".to_string(), "B.Cu".to_string()];
    assert_eq!(pad_copper_layer(&pad), "B.Cu");
    pad.layers = Vec::new();
    assert_eq!(pad_copper_layer(&pad), "F.Cu");
}

/// One track on the front, and nothing else.
fn bare_track() -> BoardModel {
    let mut b = board(vec![track((0.0, 0.0), (5.0, 0.0), "F.Cu")], Vec::new());
    b.footprints = Vec::new();
    b
}

fn located(x: f64, y: f64, layer: usize) -> Option<usize> {
    let keys = FlowKeys { tracks: vec![((0, 0), (500, 0))], vias: Vec::new(), pads: Vec::new() };
    let graph = build_flow_graph(&bare_track(), 1, &keys).expect("a graph");
    let distances: Vec<Real> = graph
        .nodes
        .iter()
        .map(|n| num((x - n.x as f64 * 0.01).hypot(y - n.y as f64 * 0.01)))
        .collect();
    let key = NodeKey { x: (x / 0.01).round() as i64, y: (y / 0.01).round() as i64, layer };
    graph.locate(key, &distances).map(|k| graph.nodes[k].x as usize)
}

#[test]
fn disconnected_injection_fails() {
    assert_eq!(located(0.0, 0.0, 0), Some(0));
    assert_eq!(located(50.0, 50.0, 0), None);
}

#[test]
fn currents_snap_to_the_nearest_node() {
    assert_eq!(located(5.015, 0.0, 0), Some(500));
    assert_eq!(located(5.5, 0.0, 0), Some(500));
    assert_eq!(located(0.5, 0.5, 0), Some(0));
    assert_eq!(located(6.0, 0.0, 0), Some(500));
    assert_eq!(located(6.01, 0.0, 0), None);
    assert_eq!(located(5.0, 0.0, 1), None);
}
