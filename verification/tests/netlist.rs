use pcb_kit::json::Json;
use pcb_kit::netlist::annotate::{annotate_net, settle_static_currents, NetNote};
use pcb_kit::netlist::dc::{collect_parts, dc_model, declared_amps, fixed_voltage, DcModel};
use pcb_kit::netlist::dc_plan::plan_static_currents;
use pcb_kit::netlist::erc::{
    component_path, run_schematic_erc, signal_names, Body, Component, Diagnostic, NetMetadata, PinTypes,
    Severity, Symbol,
};
use pcb_kit::netlist::fixed::Fixed;
use pcb_kit::netlist::schematic::{
    attribute, attribute_text, put_attribute, Attribute, Instance, InstanceRef, Net, Physical, Port, Schematic,
    Unit,
};
use pcb_kit::number::Real;
use pcb_kit::signal_type::SignalType;

fn num(x: f64) -> Real {
    Real::from_bits(x.to_bits())
}

fn number(r: &Real) -> f64 {
    f64::from_bits(r.bits)
}

fn text(s: &str) -> Attribute {
    Attribute::from_text(s.to_string())
}

fn physical(mantissa: i128, places: u32, unit: Unit, shown: &str) -> Attribute {
    let value = mantissa as f64 / 10f64.powi(places as i32);
    let mut a = Attribute::from_text(shown.to_string());
    a.physical = Some(Physical {
        nominal: Fixed::new(mantissa, places).expect("in range"),
        real: Some(num(value)),
        unit,
        text: shown.to_string(),
    });
    a
}

fn at(path: &[&str]) -> InstanceRef {
    InstanceRef { module: "board.zen".to_string(), path: path.iter().map(|s| s.to_string()).collect() }
}

fn port(part: &str, pin: &str) -> Port {
    Port { at: at(&[part, pin]), pin: Some((at(&[part]), pin.to_string())) }
}

fn net(id: u64, name: &str, kind: &str, ports: Vec<Port>, props: Vec<(&str, Attribute)>) -> Net {
    Net {
        id,
        name: name.to_string(),
        kind: kind.to_string(),
        ports,
        properties: props.into_iter().map(|(k, v)| (k.to_string(), v)).collect(),
    }
}

fn part(name: &str, attributes: Vec<(&str, Attribute)>) -> Instance {
    Instance {
        at: at(&[name]),
        component: true,
        reference_designator: Some(name.to_string()),
        attributes: attributes.into_iter().map(|(k, v)| (k.to_string(), v)).collect(),
    }
}

fn resistor(name: &str, ohms: i128) -> Instance {
    part(name, vec![("type", text("resistor")), ("resistance", physical(ohms, 0, Unit::Ohms, "ohms"))])
}

fn amps(milli: i128, shown: &str) -> Attribute {
    physical(milli, 3, Unit::Amperes, shown)
}

fn vbus(sink: Attribute, source: Attribute) -> Net {
    net(1, "VBUS", "Net", Vec::new(), vec![("current_sink_total", sink), ("current_source_total", source)])
}

fn messages(found: &[Diagnostic]) -> Vec<String> {
    found
        .iter()
        .map(|d| match &d.body {
            Body::Text(t) => t.clone(),
            Body::PinNoConnect(..) => "no connect".to_string(),
        })
        .collect()
}

#[test]
fn decimals_are_compared_by_value() {
    let a = Fixed::new(150, 2).expect("1.50");
    let b = Fixed::new(15, 1).expect("1.5");
    let c = Fixed::new(151, 2).expect("1.51");
    assert!(!a.less(&b) && !b.less(&a));
    assert!(a.less(&c) && !c.less(&a));
    assert!(a.positive());
    assert!(!Fixed::new(0, 3).expect("zero").positive());
    assert!(!Fixed::new(-1, 0).expect("below zero").positive());
    assert!(Fixed::new(1, 29).is_none());
    assert!(Fixed::new(i128::MAX, 0).is_none());
}

#[test]
fn a_set_attribute_is_found() {
    let mut list = vec![("a".to_string(), text("1"))];
    put_attribute(&mut list, "b", text("2"));
    put_attribute(&mut list, "a", text("3"));
    assert_eq!(attribute_text(&list, "a").map(|s| s.as_str()), Some("3"));
    assert_eq!(attribute_text(&list, "b").map(|s| s.as_str()), Some("2"));
    assert!(attribute(&list, "c").is_none());
    assert_eq!(list.len(), 2);
}

#[test]
fn test_current_budget_ok() {
    let s = Schematic {
        nets: vec![
            vbus(amps(600, "600mA"), amps(1000, "1A")),
            net(2, "GND", "Ground", Vec::new(), Vec::new()),
        ],
        instances: Vec::new(),
    };
    assert!(run_schematic_erc(&Vec::new(), &s).is_empty());
}

#[test]
fn test_current_budget_exceeded() {
    let s = Schematic {
        nets: vec![
            vbus(amps(600, "600mA"), amps(100, "100mA")),
            net(2, "GND", "Ground", Vec::new(), Vec::new()),
        ],
        instances: Vec::new(),
    };
    let found = run_schematic_erc(&Vec::new(), &s);
    assert_eq!(
        messages(&found),
        vec!["Net 'VBUS' current budget exceeded: declared sources supply 100mA but sinks draw 600mA".to_string()]
    );
    assert_eq!(found[0].category, "erc.current_budget");
    assert_eq!(found[0].severity, Severity::Error);
}

#[test]
fn test_current_undeclared_warning() {
    let s = Schematic {
        nets: vec![
            vbus(amps(300, "300mA"), amps(1000, "1A")),
            net(2, "GND", "Ground", Vec::new(), Vec::new()),
            net(3, "NO_CURRENT_INFO", "Net", Vec::new(), Vec::new()),
        ],
        instances: Vec::new(),
    };
    let found = run_schematic_erc(&Vec::new(), &s);
    assert_eq!(found.len(), 1);
    assert_eq!(
        messages(&found)[0],
        "Net 'NO_CURRENT_INFO' has no declared or inferable current: no connected io() declares sink_current or source_current"
    );
    assert_eq!(found[0].category, "erc.current_budget.undeclared");
    assert_eq!(found[0].severity, Severity::Warning);
}

#[test]
fn an_inferred_current_needs_no_declaration() {
    let s = Schematic {
        nets: vec![
            vbus(amps(300, "300mA"), amps(1000, "1A")),
            net(
                3,
                "MID",
                "Net",
                Vec::new(),
                vec![("current_sink_static", text("1mA")), ("current_source_static", text("1mA"))],
            ),
        ],
        instances: Vec::new(),
    };
    assert!(run_schematic_erc(&Vec::new(), &s).is_empty());
}

#[test]
fn test_no_declarations_no_warning() {
    let s = Schematic {
        nets: vec![
            net(1, "A", "Net", Vec::new(), Vec::new()),
            net(2, "GND", "Ground", Vec::new(), Vec::new()),
        ],
        instances: vec![resistor("R1", 1000)],
    };
    assert!(run_schematic_erc(&Vec::new(), &s).is_empty());
}

#[test]
fn test_signal_conflict_warning() {
    let mut conflict = text("");
    conflict.text = None;
    conflict.list = Some(vec![Some("clock".to_string()), Some("digital".to_string())]);
    let s = Schematic {
        nets: vec![net(1, "X", "Net", Vec::new(), vec![("signal_conflict", conflict)])],
        instances: Vec::new(),
    };
    let found = run_schematic_erc(&Vec::new(), &s);
    assert_eq!(
        messages(&found),
        vec!["Net 'X' has conflicting io() signal declarations: clock, digital".to_string()]
    );
    assert_eq!(found[0].category, "erc.signal_conflict");
    assert_eq!(found[0].severity, Severity::Warning);
}

#[test]
fn test_invalid_signal_value_on_net() {
    assert!(SignalType::parse("warp_speed").is_err());
}

#[test]
fn unconnected_pins_on_a_real_net_are_told() {
    let component = Component {
        modules: vec!["M".to_string()],
        name: "U1".to_string(),
        symbol: Some(Symbol {
            pad_to_signal: vec![("1".to_string(), "NC".to_string()), ("2".to_string(), "VDD".to_string())],
            pin_types: vec![PinTypes {
                signal: "NC".to_string(),
                types: vec!["no_connect".to_string()],
                only_no_connect: true,
            }],
        }),
        nets: vec![(
            4,
            NetMetadata { display_name: "SIG".to_string(), path: "m.zen".to_string(), span: None },
        )],
    };
    assert_eq!(component_path(&component.modules, "U1"), "M.U1");
    assert_eq!(component_path(&Vec::new(), "U1"), "U1");
    assert_eq!(
        signal_names(component.symbol.as_ref().expect("a symbol")),
        vec!["NC".to_string(), "VDD".to_string()]
    );
    let sheet = |kind: &str| Schematic {
        nets: vec![net(
            4,
            "SIG",
            kind,
            vec![
                Port { at: at(&["M", "U1", "NC"]), pin: Some((at(&["M", "U1"]), "NC".to_string())) },
                Port { at: at(&["M", "U1", "VDD"]), pin: Some((at(&["M", "U1"]), "VDD".to_string())) },
            ],
            Vec::new(),
        )],
        instances: Vec::new(),
    };
    let components = vec![component];
    let found = run_schematic_erc(&components, &sheet("Net"));
    assert_eq!(found.len(), 1);
    assert_eq!(found[0].category, "pin.no_connect");
    match &found[0].body {
        Body::PinNoConnect(_, signal, kind, name) => {
            assert_eq!((signal.as_str(), kind.as_str(), name.as_str()), ("NC", "Net", "SIG"));
        }
        Body::Text(_) => panic!("a pin finding"),
    }
    assert!(run_schematic_erc(&components, &sheet("NotConnected")).is_empty());
}

fn divider() -> Schematic {
    Schematic {
        nets: vec![
            net(1, "V12", "Net", vec![port("R1", "1")], vec![("voltage", physical(12, 0, Unit::Other, "12V"))]),
            net(2, "MID", "Net", vec![port("R1", "2"), port("R2", "1")], Vec::new()),
            net(3, "GND", "Ground", vec![port("R2", "2")], Vec::new()),
        ],
        instances: vec![resistor("R1", 1000), resistor("R2", 2000)],
    }
}

#[test]
fn parts_conduct_by_their_type() {
    let bead = part("FB1", vec![("type", text("ferrite_bead"))]);
    let cap = part("C1", vec![("type", text("capacitor"))]);
    let none = part("R0", vec![("type", text("resistor")), ("resistance", physical(0, 0, Unit::Ohms, "0"))]);
    assert_eq!(dc_model(&bead), Some(DcModel::Short));
    assert_eq!(dc_model(&cap), Some(DcModel::Open));
    assert_eq!(dc_model(&resistor("R1", 10)), Some(DcModel::Resistive(num(10.0))));
    assert_eq!(dc_model(&none), None);
    assert_eq!(dc_model(&part("U1", Vec::new())), None);
}

#[test]
fn a_divider_is_planned_and_settled() {
    let s = divider();
    assert_eq!(fixed_voltage(&s.nets[0]), Some(num(12.0)));
    assert_eq!(fixed_voltage(&s.nets[1]), None);
    assert_eq!(fixed_voltage(&s.nets[2]), Some(num(0.0)));
    assert_eq!(declared_amps(&s.nets[0], "current_sink_total"), num(0.0));
    let parts = collect_parts(&s);
    assert_eq!(parts.edges.len(), 2);
    let plan = plan_static_currents(&s);
    assert_eq!(plan.edges.len(), 2);
    assert_eq!(plan.groups.len(), 1);
    assert!(plan.groups[0].solvable);
    assert_eq!(plan.groups[0].nets.len(), 3);
    let currents: Vec<Real> = plan
        .edges
        .iter()
        .map(|e| {
            let volts = |n: &str| if n == "V12" { 12.0 } else if n == "MID" { 8.0 } else { 0.0 };
            let ohms = if e.refdes == "R1" { 1000.0 } else { 2000.0 };
            num((volts(&e.net_a) - volts(&e.net_b)) / ohms)
        })
        .collect();
    let in_group: Vec<Real> = plan.groups[0].edges.iter().map(|i| currents[*i]).collect();
    let notes = settle_static_currents(&plan, &s, &vec![Some(in_group)]);
    assert_eq!(notes.len(), 3);
    let sums: Vec<(f64, f64)> = notes
        .iter()
        .map(|n| match n {
            NetNote::Known(entries) => entries.iter().fold((0.0, 0.0), |(sink, source), e| {
                if e.is_sink {
                    (sink + number(&e.amps), source)
                } else {
                    (sink, source + number(&e.amps))
                }
            }),
            _ => panic!("every net is known"),
        })
        .collect();
    assert!((sums[1].0 - 0.004).abs() < 1e-12 && (sums[1].1 - 0.004).abs() < 1e-12);
    assert!((sums[0].0 - 0.004).abs() < 1e-12 && sums[0].1 == 0.0);
    assert!(sums[2].0 == 0.0 && (sums[2].1 - 0.004).abs() < 1e-12);
}

#[test]
fn notes_are_written_onto_the_net() {
    let s = divider();
    let plan = plan_static_currents(&s);
    let zero: Vec<Real> = plan.groups[0].edges.iter().map(|_| num(0.0)).collect();
    let notes = settle_static_currents(&plan, &s, &vec![Some(zero)]);
    match &notes[1] {
        NetNote::Known(entries) => assert!(entries.is_empty()),
        _ => panic!("known"),
    }
    let mut props = Vec::new();
    annotate_net(&mut props, &notes[1], "0A".to_string(), "0A".to_string(), &Vec::new());
    assert_eq!(attribute_text(&props, "current_sink_static").map(|t| t.as_str()), Some("0A"));
    assert_eq!(attribute_text(&props, "current_source_static").map(|t| t.as_str()), Some("0A"));
    assert!(attribute(&props, "current_ports").is_none());

    let failed = settle_static_currents(&plan, &s, &vec![None]);
    let mut other = Vec::new();
    annotate_net(&mut other, &failed[1], String::new(), String::new(), &Vec::new());
    assert_eq!(
        attribute(&other, "current_static_uninferable").and_then(|a| a.flag),
        Some(true)
    );
}

#[test]
fn port_entries_are_written() {
    let s = divider();
    let plan = plan_static_currents(&s);
    let one: Vec<Real> = plan.groups[0].edges.iter().map(|_| num(0.004)).collect();
    let notes = settle_static_currents(&plan, &s, &vec![Some(one)]);
    let shown: Vec<Json> = match &notes[1] {
        NetNote::Known(entries) => {
            assert_eq!(entries.len(), 2);
            entries.iter().map(|_| Json::Float("0.004".to_string(), true)).collect()
        }
        _ => panic!("known"),
    };
    let mut props = Vec::new();
    annotate_net(&mut props, &notes[1], "4mA".to_string(), "4mA".to_string(), &shown);
    let ports = attribute(&props, "current_ports").and_then(|a| a.json.as_ref()).expect("ports");
    match ports {
        Json::Array(list) => assert_eq!(list.len(), 2),
        _ => panic!("a list"),
    }
}
