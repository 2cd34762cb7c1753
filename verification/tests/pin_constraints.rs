use pcb_kit::pinmux::constraints::PinConstraints;
use pcb_kit::pinmux::model::PinLock;

fn lock(pin: &str) -> PinLock {
    PinLock { any: vec![pin.to_string()], by_signal: Vec::new() }
}

fn owner(segment: &str) -> Vec<String> {
    vec![segment.to_string()]
}

#[test]
fn settling_an_existing_entry_leaves_no_stray_credit() {
    let mut c = PinConstraints::default();
    c.record("IO0".to_string(), "a.zen".to_string(), owner("A"), vec![9], lock("P1"), false);
    c.settle(&vec![9], &owner("A"), "IO0");
    c.record("IO0".to_string(), "b.zen".to_string(), owner("B"), vec![9], lock("P1"), false);
    let left = c.unconsumed_hard();
    assert_eq!(left.len(), 1, "B's constraint must still be reported, got {left:?}");
}

#[test]
fn spending_a_credit_never_underflows_a_zero_net() {
    let mut c = PinConstraints::default();
    c.preconsume("X", &vec![1, 2]);
    c.record("X".to_string(), "m".to_string(), Vec::new(), vec![1, 2], lock("P1"), false);
    c.preconsume("X", &vec![1]);
    c.record("X".to_string(), "m".to_string(), Vec::new(), vec![1, 2], lock("P1"), false);
    assert!(c.unconsumed_hard().is_empty());
}

#[test]
fn a_preconsume_credit_absolves_one_later_entry_only() {
    let mut c = PinConstraints::default();
    c.preconsume("A", &vec![5]);
    c.record("A".to_string(), "a.zen".to_string(), owner("A"), vec![5], lock("PA1"), false);
    c.record("B".to_string(), "b.zen".to_string(), owner("B"), vec![5], lock("PA2"), false);

    let left = c.unconsumed_hard();
    assert_eq!(left.len(), 1, "only the unapplied one remains, got {left:?}");
    assert_eq!(left[0].1, "B");
}

#[test]
fn a_credit_is_spent_by_the_first_entry() {
    let mut c = PinConstraints::new();
    c.preconsume("A", &vec![5]);
    c.record("A".to_string(), "a.zen".to_string(), owner("A"), vec![5], lock("PA1"), false);
    c.record("A".to_string(), "b.zen".to_string(), owner("B"), vec![5], lock("PA1"), false);
    assert_eq!(c.unconsumed_hard(), vec![("b.zen".to_string(), "A".to_string())]);
}

#[test]
fn a_claim_is_served_once_and_by_the_nearest_owner() {
    let mut c = PinConstraints::new();
    c.record("IO".to_string(), "a.zen".to_string(), owner("A"), vec![3], lock("P1"), true);
    c.record("IO".to_string(), "b.zen".to_string(), owner("B"), vec![3], lock("P2"), false);
    let solver = vec!["B".to_string(), "MUX".to_string()];
    let (first, soft) = c.claim(&vec![3], &solver, "IO").expect("one entry matches");
    assert_eq!(first.any, vec!["P2".to_string()]);
    assert!(!soft);
    assert!(c.claim(&vec![4], &solver, "IO").is_none());
}

#[test]
fn soft_constraints_are_not_reported() {
    let mut c = PinConstraints::new();
    c.record("IO".to_string(), "a.zen".to_string(), owner("A"), vec![3], lock("P1"), true);
    assert!(c.unconsumed_hard().is_empty());
    c.record("IO".to_string(), "a.zen".to_string(), owner("A"), vec![3], lock("P1"), false);
    assert_eq!(c.unconsumed_hard().len(), 1);
    c.clear();
    assert!(c.unconsumed_hard().is_empty());
}

#[test]
fn credits_pair_with_records_one_by_one() {
    let mut c = PinConstraints::default();
    c.preconsume("A", &vec![5]);
    c.preconsume("A", &vec![5]);
    for (input, module, net) in
        [("A", "1.zen", 5), ("B", "2.zen", 5), ("A", "3.zen", 6), ("A", "4.zen", 5), ("A", "5.zen", 5)]
    {
        c.record(input.to_string(), module.to_string(), owner("M"), vec![net], lock("P1"), false);
    }
    let left: Vec<String> = c.unconsumed_hard().into_iter().map(|(module, _)| module).collect();
    assert_eq!(left, ["2.zen", "3.zen", "5.zen"]);
}
