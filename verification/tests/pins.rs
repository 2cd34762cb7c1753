use pcb_kit::json::Json;
use pcb_kit::pinmux::access::{dict_get, dict_get_str};
use pcb_kit::pinmux::assign::{assign, AssignOutcome};
use pcb_kit::pinmux::combos::{combos_for_request, needs_predicate, Verdict};
use pcb_kit::pinmux::constraints::PinConstraints;
use pcb_kit::pinmux::declare::{at, peripheral, pin, pin_request, pool, unwrap_pin_at};
use pcb_kit::pinmux::iface::{collect_net_ids, iface_closure, net_identity, net_leaves};
use pcb_kit::pinmux::model::{Combo, PinLock, RPeriph, RPin, RReq};
use pcb_kit::pinmux::parse::parse_pin_spec;
use pcb_kit::pinmux::physical::InterfaceHead;
use pcb_kit::pinmux::pin_map::pin_map;
use pcb_kit::pinmux::place::{place, Held};
use pcb_kit::pinmux::prepare::{constrain_requests, prepare_solve, read_peripherals, read_requests};
use pcb_kit::pinmux::solve::{pin_solve, Ledger, SolveReport};
use pcb_kit::pinmux::value::Value;

fn text(s: &str) -> Value {
    Value::Str(s.to_string())
}

fn texts(list: &[&str]) -> Value {
    Value::List(list.iter().map(|s| text(s)).collect())
}

fn iface(id: u64, name: &str, signals: &[&str]) -> Value {
    Value::InterfaceType(
        InterfaceHead { id, name: name.to_string(), kind_name: "InterfaceFactory".to_string() },
        signals.iter().map(|s| (s.to_string(), Value::NetType("Net".to_string()))).collect(),
        Vec::new(),
        Vec::new(),
    )
}

fn uart() -> Value {
    iface(7, "Uart", &["TX", "RX"])
}

fn uart_periph(name: &str, tx: &[&str], rx: &[&str]) -> Value {
    peripheral(
        name,
        &vec![uart()],
        &vec![("TX".to_string(), texts(tx)), ("RX".to_string(), texts(rx))],
        "firmware",
        &Vec::new(),
        &None,
    )
    .expect("the peripheral is sound")
}

fn request(name: &str, prefer: Option<Value>, lock: bool) -> Value {
    pin_request(name, &uart(), &None, &None, &prefer, lock, &None, &None, false, &None)
        .expect("the request is sound")
}

fn solve(periphs: Vec<Value>, reqs: Vec<Value>, previous: Option<Value>, ledger: &Ledger) -> SolveReport {
    let p: Vec<RPeriph> = read_peripherals(&Value::List(periphs)).expect("peripherals are read");
    let r: Vec<RReq> = read_requests(&Value::List(reqs)).expect("requests are read");
    let verdicts: Vec<Vec<Verdict>> =
        r.iter().map(|_| p.iter().map(|_| Verdict::Accepted).collect()).collect();
    pin_solve(&r, &p, &Vec::new(), &previous, &verdicts, ledger)
}

fn nothing() -> Ledger {
    Ledger { claims: Vec::new(), assignment: None, swap_classes: None }
}

fn member<'a>(v: &'a Value, key: &str) -> &'a Value {
    match v {
        Value::Dict(d) => dict_get(d, key).expect("the entry is there"),
        _ => panic!("no dict"),
    }
}

fn member_text(v: &Value, key: &str) -> String {
    match v {
        Value::Dict(d) => dict_get_str(d, key).expect("the entry is a text"),
        _ => panic!("no dict"),
    }
}

fn list_of(v: &Value) -> Vec<String> {
    match v {
        Value::List(items) => items
            .iter()
            .map(|i| match i {
                Value::Str(s) => s.clone(),
                _ => panic!("no text"),
            })
            .collect(),
        _ => panic!("no list"),
    }
}

#[test]
fn declared_pins_are_read_back() {
    let p = pin("PA1", &vec![("af".to_string(), Value::Int(7))], 3, true, false).ok().expect("sound");
    let periph = peripheral(
        "T1",
        &vec![iface(1, "One", &["S"])],
        &vec![("S".to_string(), Value::List(vec![p]))],
        "firmware",
        &Vec::new(),
        &None,
    )
    .ok()
    .expect("sound");
    let read = read_peripherals(&Value::List(vec![periph])).ok().expect("read");
    assert_eq!(read.len(), 1);
    assert_eq!(read[0].name, "T1");
    assert_eq!(read[0].provides_ids, vec![1]);
    let (signal, pins): &(String, Vec<RPin>) = &read[0].signals[0];
    assert_eq!(signal, "S");
    assert_eq!(pins[0].name, "PA1");
    assert_eq!(pins[0].cost, 3);
    assert!(pins[0].input_only && !pins[0].strap);
    assert!(matches!(pins[0].data[0].1, Json::Int(7)));
}

#[test]
fn declarations_are_checked() {
    assert_eq!(
        peripheral("U", &Vec::new(), &Vec::new(), "firmware", &Vec::new(), &None).err(),
        Some("peripheral `U`: provides must list at least one interface type".to_string())
    );
    let missing = peripheral(
        "U",
        &vec![uart()],
        &vec![("TX".to_string(), texts(&["PA1"]))],
        "firmware",
        &Vec::new(),
        &None,
    );
    assert_eq!(
        missing.err(),
        Some(
            "peripheral `U` claims Uart but has no candidate for signal `RX` (its signals are `TX`, `RX`)"
                .to_string()
        )
    );
    assert_eq!(
        peripheral("U", &vec![uart()], &Vec::new(), "layout", &Vec::new(), &None).err(),
        Some(
            "peripheral `U`: rebind must be one of [\"none\", \"firmware\", \"fixed\"], got `layout`"
                .to_string()
        )
    );
    assert_eq!(
        pool("G", &vec![uart()], &Vec::new(), "none").err(),
        Some("pool `G`: the provided interface must have exactly one signal, `Uart` has 2".to_string())
    );
    assert_eq!(
        pool("G", &Vec::new(), &Vec::new(), "none").err(),
        Some("pool `G`: provides must list exactly one interface type".to_string())
    );
    let odd = peripheral("U", &vec![uart()], &vec![("TX".to_string(), Value::Int(1))], "firmware", &Vec::new(), &None);
    assert_eq!(
        odd.err(),
        Some("peripheral `U`: signal `TX` candidates must be a list".to_string())
    );
}

#[test]
fn requests_are_placed_and_mapped() {
    let report = solve(
        vec![uart_periph("UART1", &["PA9", "PB6"], &["PA10"]), uart_periph("UART2", &["PA2"], &["PA3"])],
        vec![request("dbg", None, false), request("gps", None, false)],
        None,
        &nothing(),
    );
    let solved = report.outcome.ok().expect("both are placed");
    let assignment = member(&solved.value, "assignment");
    let dbg = member(assignment, "dbg");
    let gps = member(assignment, "gps");
    assert_ne!(member_text(dbg, "instance"), member_text(gps, "instance"));
    assert_eq!(list_of(member(&solved.value, "free_pins")), vec!["PB6".to_string()]);
    assert_eq!(solved.claims.len(), 2);

    let value = Value::Interface(
        vec![
            ("TX".to_string(), Value::Net(11, "DBG_TX".to_string(), "Net".to_string())),
            ("RX".to_string(), Value::Net(12, "DBG_RX".to_string(), "Net".to_string())),
        ],
        "Uart".to_string(),
    );
    let mut mapped = Vec::new();
    let (pins, warning) =
        pin_map(assignment, &vec![("dbg".to_string(), value)], &mut mapped).ok().expect("mapped");
    let names: Vec<String> = pins.iter().map(|p| p.0.clone()).collect();
    let tx = member_text(member(member(dbg, "signals"), "TX"), "pin");
    let rx = member_text(member(member(dbg, "signals"), "RX"), "pin");
    assert!(names.contains(&tx) && names.contains(&rx) && names.len() == 2);
    assert!(mapped.contains(&(tx, 11, "DBG_TX".to_string())));
    assert!(warning.expect("gps is left over").contains("gps"));
}

#[test]
fn a_pin_is_mapped_to_one_net() {
    let entry = |pin: &str| {
        Value::Dict(vec![(
            text("signals"),
            Value::Dict(vec![(text("S"), Value::Dict(vec![(text("pin"), text(pin))]))]),
        )])
    };
    let assignment = Value::Dict(vec![(text("a"), entry("PA1"))]);
    let net = |id: u64, name: &str| Value::Net(id, name.to_string(), "Net".to_string());
    let mut mapped = Vec::new();
    assert!(pin_map(&assignment, &vec![("a".to_string(), net(1, "X"))], &mut mapped).is_ok());
    assert_eq!(mapped, vec![("PA1".to_string(), 1, "X".to_string())]);
    let again = pin_map(&assignment, &vec![("a".to_string(), net(2, "Y"))], &mut mapped);
    assert_eq!(
        again.err().map(|e| e.contains("`PA1` already mapped to net `X` in this module, now `Y`")),
        Some(true)
    );
    let two = Value::Dict(vec![(text("a"), entry("PA1")), (text("b"), entry("PA1"))]);
    let mut fresh = Vec::new();
    assert_eq!(
        pin_map(&two, &vec![("a".to_string(), net(1, "X")), ("b".to_string(), net(1, "X"))], &mut fresh).err(),
        Some("pin_map: physical pin `PA1` mapped by two requests".to_string())
    );
    let bad = Value::Dict(vec![(text("a"), Value::Int(1))]);
    assert_eq!(
        pin_map(&bad, &vec![("a".to_string(), net(1, "X"))], &mut fresh).err(),
        Some("pin_map: malformed assignment entry for `a`".to_string())
    );
}

#[test]
fn a_lock_is_kept() {
    let report = solve(
        vec![uart_periph("UART1", &["PA9", "PB6"], &["PA10"])],
        vec![request("dbg", Some(Value::Dict(vec![(text("TX"), text("PB6"))])), true)],
        None,
        &nothing(),
    );
    let solved = report.outcome.ok().expect("placed");
    let dbg = member(member(&solved.value, "assignment"), "dbg");
    assert_eq!(member_text(member(member(dbg, "signals"), "TX"), "pin"), "PB6");
    let refused = solve(
        vec![uart_periph("UART1", &["PA9"], &["PA10"])],
        vec![request("dbg", Some(Value::Dict(vec![(text("TX"), text("PB6"))])), true)],
        None,
        &nothing(),
    );
    assert!(refused.outcome.is_err());
}

#[test]
fn too_many_requests_are_refused() {
    let report = solve(
        vec![uart_periph("UART1", &["PA9"], &["PA10"])],
        vec![request("a", None, false), request("b", None, false)],
        None,
        &nothing(),
    );
    assert!(report.outcome.is_err());
}

#[test]
fn pool_members_may_swap() {
    let gpio = || iface(3, "Gpio", &["S"]);
    let p = pool("GPIO", &vec![gpio()], &vec![text("PA1"), text("PA2"), text("PA3")], "none")
        .ok()
        .expect("sound");
    let req = |name: &str| {
        pin_request(name, &gpio(), &None, &None, &None, false, &None, &None, false, &None).ok().expect("sound")
    };
    let flat = match p {
        Value::List(items) => items,
        other => vec![other],
    };
    let report = solve(flat, vec![req("led"), req("key")], None, &nothing());
    let solved = report.outcome.ok().expect("placed");
    let swaps = match &solved.swap_classes {
        Json::Array(items) => items,
        _ => panic!("a list"),
    };
    assert_eq!(swaps.len(), 1);
    assert_eq!(swaps[0].get_text("pool").map(|s| s.as_str()), Some("GPIO"));
    assert_eq!(swaps[0].get_array("members").map(|m| m.len()), Some(2));
    assert_eq!(list_of(member(&solved.value, "free_pins")), vec!["PA3".to_string()]);
}

#[test]
fn an_earlier_assignment_is_kept_beside_the_new_one() {
    let other = Json::Object(vec![
        ("instance".to_string(), Json::Str("SPI1".to_string())),
        ("signals".to_string(), Json::Object(Vec::new())),
    ]);
    let ledger = Ledger {
        claims: Vec::new(),
        assignment: Some(Json::Object(vec![("flash".to_string(), other)])),
        swap_classes: None,
    };
    let report = solve(
        vec![uart_periph("UART1", &["PA9"], &["PA10"])],
        vec![request("dbg", None, false)],
        None,
        &ledger,
    );
    let solved = report.outcome.ok().expect("placed");
    assert!(solved.assignment.get("dbg").is_some());
    assert!(solved.assignment.get("flash").is_some());
}

#[test]
fn wrapped_values_leave_their_lock() {
    let net = Value::Net(5, "SWDIO".to_string(), "Net".to_string());
    let wrapped = at(net, &text("PA13"), false).ok().expect("sound");
    let mut store = PinConstraints::new();
    let plain = unwrap_pin_at("SWDIO", &wrapped, "m.zen", &vec!["M".to_string()], &mut store);
    assert!(matches!(plain, Value::Net(5, _, _)));
    assert_eq!(store.unconsumed_hard(), vec![("m.zen".to_string(), "SWDIO".to_string())]);
}

#[test]
fn pin_specs_are_read() {
    let one = parse_pin_spec("ctx", &text("PA1")).ok().expect("a name");
    assert_eq!(one.any, vec!["PA1".to_string()]);
    assert!(one.by_signal.is_empty());
    assert!(parse_pin_spec("ctx", &Value::Int(3)).is_err());
}

#[test]
fn closures_begin_with_their_root() {
    let base = iface(1, "Base", &["A"]);
    let top = Value::InterfaceType(
        InterfaceHead { id: 2, name: "Top".to_string(), kind_name: "InterfaceFactory".to_string() },
        vec![("A".to_string(), Value::NetType("Net".to_string()))],
        vec![base],
        Vec::new(),
    );
    let infos = iface_closure(&top).ok().expect("sound");
    let ids: Vec<u64> = infos.iter().map(|i| i.id).collect();
    assert_eq!(ids, vec![2, 1]);
}

fn rpin(name: &str, cost: i32) -> RPin {
    RPin { name: name.to_string(), data: Vec::new(), cost, input_only: false, strap: false }
}

fn rperiph(name: &str, pins: Vec<RPin>) -> RPeriph {
    RPeriph {
        name: name.to_string(),
        provides_ids: vec![3],
        provides_names: vec!["Gpio".to_string()],
        signals: vec![("S".to_string(), pins)],
        rebind: "none".to_string(),
        unless: None,
        pool: None,
    }
}

fn rreq(name: &str) -> RReq {
    RReq {
        name: name.to_string(),
        iface_id: 3,
        iface_name: "Gpio".to_string(),
        iface_closure_len: 1,
        uses: vec!["S".to_string()],
        instance: None,
        prefer: PinLock { any: Vec::new(), by_signal: Vec::new() },
        lock: false,
        where_fn: false,
        direction: None,
        if_connected: false,
    }
}

#[test]
fn combos_come_cheapest_first() {
    let periphs = vec![rperiph("G", vec![rpin("PA1", 9), rpin("PA2", 1), rpin("PA3", 4)])];
    let found = combos_for_request(&rreq("r"), &periphs, &Vec::new(), &Vec::new(), &vec![Verdict::Accepted]);
    let pins: Vec<String> = found.combos.iter().map(|c| c.pins[0].1.name.clone()).collect();
    assert_eq!(pins, vec!["PA2".to_string(), "PA3".to_string(), "PA1".to_string()]);
    assert!(!found.truncated);
}

#[test]
fn the_cheapest_assignment_wins() {
    let combo = |periph_idx: usize, pin: &str, cost: i64| Combo {
        periph_idx,
        pins: vec![("S".to_string(), rpin(pin, 0))],
        cost,
        key: pin.to_string(),
    };
    let reqs = vec![rreq("a"), rreq("b")];
    let combos = vec![
        vec![combo(0, "P0", 1), combo(1, "P1", 2)],
        vec![combo(0, "P0", 1), combo(1, "P1", 9)],
    ];
    match assign(&reqs, &combos) {
        AssignOutcome::Solved { chosen, capped } => {
            assert_eq!(chosen, vec![1, 0]);
            assert!(!capped);
        }
        _ => panic!("there is an assignment"),
    }
    let clash = vec![vec![combo(0, "P0", 1)], vec![combo(0, "P0", 1)]];
    assert!(matches!(assign(&reqs, &clash), AssignOutcome::Infeasible));
}

#[test]
fn a_failing_predicate_is_told() {
    let found = combos_for_request(
        &RReq { where_fn: true, ..rreq("r") },
        &vec![rperiph("G", vec![rpin("PA1", 0)])],
        &Vec::new(),
        &Vec::new(),
        &vec![Verdict::Rejected],
    );
    assert!(found.combos.is_empty());
    assert_eq!(found.rejects.len(), 1);
    assert_eq!(found.rejects[0].0, "G");
}

#[test]
fn constraints_reach_their_requests() {
    let net = |id: u64| Value::Net(id, "N".to_string(), "Net".to_string());
    let lock = || PinLock { any: vec!["PA5".to_string()], by_signal: Vec::new() };
    let here = vec!["MCU".to_string()];
    let mut store = PinConstraints::new();
    store.record("led".to_string(), "m.zen".to_string(), here.clone(), vec![4], lock(), false);
    let inputs = vec![("led".to_string(), net(4)), ("key".to_string(), net(5))];
    let out = constrain_requests(&vec![rreq("led"), rreq("key")], &Vec::new(), &inputs, &here, &mut store)
        .ok()
        .expect("sound");
    assert_eq!(out.len(), 2);
    assert_eq!(out[0].prefer.any, vec!["PA5".to_string()]);
    assert!(out[0].lock);
    assert!(out[1].prefer.any.is_empty() && !out[1].lock);
    assert!(store.unconsumed_hard().is_empty());

    let stray = PinLock { any: Vec::new(), by_signal: vec![("X".to_string(), vec!["PA5".to_string()])] };
    let mut second = PinConstraints::new();
    second.record("led".to_string(), "m.zen".to_string(), here.clone(), vec![4], stray, false);
    let refused =
        constrain_requests(&vec![rreq("led")], &Vec::new(), &vec![("led".to_string(), net(4))], &here, &mut second);
    assert!(refused.err().expect("no such signal").starts_with("pin_solve: at() on input `led`"));
}

#[test]
fn predicates_are_asked_of_candidates_only() {
    let asking = RReq { where_fn: true, ..rreq("r") };
    let fits = rperiph("G", vec![rpin("PA1", 0)]);
    let other = RPeriph { provides_ids: vec![99], ..rperiph("H", vec![rpin("PA2", 0)]) };
    assert!(needs_predicate(&asking, &fits, &Vec::new()));
    assert!(!needs_predicate(&asking, &other, &Vec::new()));
    assert!(!needs_predicate(&rreq("r"), &fits, &Vec::new()));
}

#[test]
fn nets_of_a_value_are_found() {
    let net = |id: u64, name: &str| Value::Net(id, name.to_string(), "Net".to_string());
    assert_eq!(net_identity(&net(3, "A")), Some((3, "A".to_string())));
    assert_eq!(net_identity(&Value::Int(3)), None);
    let pair = Value::Interface(
        vec![("P".to_string(), net(1, "DP")), ("N".to_string(), net(2, "DN"))],
        "DiffPair".to_string(),
    );
    let usb = Value::Interface(
        vec![("D".to_string(), pair), ("VBUS".to_string(), net(9, "VBUS"))],
        "Usb".to_string(),
    );
    let mut ids = Vec::new();
    collect_net_ids(&usb, &mut ids);
    assert_eq!(ids, vec![1, 2, 9]);
    let paths: Vec<String> = net_leaves(&usb).into_iter().map(|l| l.0).collect();
    assert_eq!(paths, vec!["D_P".to_string(), "D_N".to_string(), "VBUS".to_string()]);
}

#[test]
fn alternates_are_free_candidates() {
    let report = solve(
        vec![uart_periph("UART1", &["PA9", "PB6"], &["PA10", "PB7"]), uart_periph("UART2", &["PB6"], &["PA3"])],
        vec![request("a", None, false), request("b", None, false)],
        None,
        &nothing(),
    );
    let solved = report.outcome.ok().expect("both are placed");
    let a = member(member(&solved.value, "assignment"), "a");
    let instance = member_text(a, "instance");
    let one = member(member(&solved.value, "assignment"), if instance == "UART1" { "a" } else { "b" });
    let alternates = member(one, "alternates");
    assert_eq!(list_of(member(alternates, "RX")), vec!["PB7".to_string()]);
    match alternates {
        Value::Dict(d) => assert!(dict_get(d, "TX").is_none(), "PB6 is in use"),
        _ => panic!("a dict"),
    }
}

#[test]
fn an_earlier_choice_is_preferred() {
    let previous = Value::Dict(vec![(
        text("dbg"),
        Value::Dict(vec![
            (text("instance"), text("UART2")),
            (
                text("signals"),
                Value::Dict(vec![
                    (text("TX"), Value::Dict(vec![(text("pin"), text("PA2"))])),
                    (text("RX"), Value::Dict(vec![(text("pin"), text("PA3"))])),
                ]),
            ),
        ]),
    )]);
    let periphs =
        || vec![uart_periph("UART1", &["PA9"], &["PA10"]), uart_periph("UART2", &["PA2"], &["PA3"])];
    let fresh = solve(periphs(), vec![request("dbg", None, false)], None, &nothing());
    let kept = solve(periphs(), vec![request("dbg", None, false)], Some(previous), &nothing());
    let chosen = |r: SolveReport| {
        let solved = r.outcome.ok().expect("placed");
        member_text(member(member(&solved.value, "assignment"), "dbg"), "instance")
    };
    assert_eq!(chosen(fresh), "UART1");
    assert_eq!(chosen(kept), "UART2");
}

#[test]
fn solves_are_prepared() {
    let optional = |name: &str| {
        pin_request(name, &uart(), &None, &None, &None, false, &None, &None, true, &None).ok().expect("sound")
    };
    let parts = Value::List(vec![uart_periph("UART1", &["PA9"], &["PA10"])]);
    let asked = Value::List(vec![optional("gps"), optional("dbg"), request("log", None, false)]);
    let inputs = vec![("dbg".to_string(), Value::Net(1, "N".to_string(), "Net".to_string()))];
    let here = vec!["M".to_string()];
    let mut store = PinConstraints::new();
    let (periphs, reqs) =
        prepare_solve(&parts, &asked, &Vec::new(), &inputs, &here, &mut store).ok().expect("sound");
    let names: Vec<&str> = reqs.iter().map(|r| r.name.as_str()).collect();
    assert_eq!(names, vec!["dbg", "log"], "an unconnected optional request is dropped");
    assert_eq!(periphs.len(), 1);

    let twice = Value::List(vec![request("a", None, false), request("a", None, false)]);
    assert_eq!(
        prepare_solve(&parts, &twice, &Vec::new(), &inputs, &here, &mut store).err(),
        Some("pin_solve: duplicate request name `a`".to_string())
    );
    assert_eq!(
        prepare_solve(&Value::Nothing, &Value::Nothing, &Vec::new(), &inputs, &here, &mut store).err(),
        Some("pin_solve: peripherals must be a list".to_string())
    );
    assert_eq!(
        prepare_solve(&parts, &Value::Nothing, &Vec::new(), &inputs, &here, &mut store).err(),
        Some("pin_solve: requests must be a list".to_string())
    );
}

#[test]
fn a_single_request_keeps_off_held_pins() {
    let periphs = vec![rperiph("G", vec![rpin("PA1", 0), rpin("PA2", 5)])];
    let placed = |pins: &[&str]| {
        let held = Held { instances: Vec::new(), pins: pins.iter().map(|p| p.to_string()).collect() };
        place(&vec![rreq("r")], &periphs, &Vec::new(), &Vec::new(), &vec![vec![Verdict::Accepted]], &held)
            .outcome
            .map(|c| c[0].pins[0].1.name.clone())
    };
    assert_eq!(placed(&[]).ok().as_deref(), Some("PA1"));
    assert_eq!(placed(&["PA1"]).ok().as_deref(), Some("PA2"));
    assert!(placed(&["PA1", "PA2"]).is_err());
}
