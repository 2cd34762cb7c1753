use pcb_kit::signal_type::SignalType;

#[test]
fn names_are_read_back() {
    let all = [
        SignalType::Static,
        SignalType::Digital,
        SignalType::Clock,
        SignalType::HighSpeed,
        SignalType::SwitchingPower,
        SignalType::Analog,
        SignalType::Rf,
    ];
    for t in all {
        assert_eq!(SignalType::parse_optional(Some(t.as_str())), Ok(Some(t)));
    }
    assert_eq!(SignalType::parse_optional(None), Ok(None));
}

#[test]
fn unknown_names_are_refused() {
    assert_eq!(
        SignalType::parse("warp_speed"),
        Err("`signal` must be one of static, digital, clock, high_speed, switching_power, analog, rf".to_string())
    );
}
