//! The declared switching or sensitivity class of a net.
use vstd::prelude::*;

use crate::text::{join, joined, same};

verus! {

/// What a net declares of its switching behaviour or its sensitivity.
#[derive(Clone, Copy, Debug, PartialEq, Eq, Structural)]
pub enum SignalType {
    Static,
    Digital,
    Clock,
    HighSpeed,
    SwitchingPower,
    Analog,
    Rf,
}

/// The name of a class.
pub open spec fn signal_name(t: SignalType) -> Seq<char> {
    match t {
        SignalType::Static => "static"@,
        SignalType::Digital => "digital"@,
        SignalType::Clock => "clock"@,
        SignalType::HighSpeed => "high_speed"@,
        SignalType::SwitchingPower => "switching_power"@,
        SignalType::Analog => "analog"@,
        SignalType::Rf => "rf"@,
    }
}

/// The names of the classes.
pub open spec fn signal_names() -> Seq<Seq<char>> {
    seq![
        "static"@,
        "digital"@,
        "clock"@,
        "high_speed"@,
        "switching_power"@,
        "analog"@,
        "rf"@,
    ]
}

/// The class of the given name.
pub open spec fn signal_of(s: Seq<char>) -> Option<SignalType> {
    if s == "static"@ {
        Some(SignalType::Static)
    } else if s == "digital"@ {
        Some(SignalType::Digital)
    } else if s == "clock"@ {
        Some(SignalType::Clock)
    } else if s == "high_speed"@ {
        Some(SignalType::HighSpeed)
    } else if s == "switching_power"@ {
        Some(SignalType::SwitchingPower)
    } else if s == "analog"@ {
        Some(SignalType::Analog)
    } else if s == "rf"@ {
        Some(SignalType::Rf)
    } else {
        None
    }
}

/// What is answered to a name that no class has.
pub open spec fn unknown_signal() -> Seq<char> {
    "`signal` must be one of "@ + joined(signal_names(), ", "@)
}

proof fn signal_names_differ()
    ensures
        forall|a: SignalType, b: SignalType| signal_name(a) == signal_name(b) ==> a == b,
{
    reveal_strlit("static");
    reveal_strlit("digital");
    reveal_strlit("clock");
    reveal_strlit("high_speed");
    reveal_strlit("switching_power");
    reveal_strlit("analog");
    reveal_strlit("rf");
    assert("static"@[0] == 's' && "static"@.len() == 6);
    assert("digital"@[0] == 'd');
    assert("clock"@[0] == 'c');
    assert("high_speed"@[0] == 'h');
    assert("switching_power"@[0] == 's' && "switching_power"@.len() == 15);
    assert("analog"@[0] == 'a');
    assert("rf"@[0] == 'r');
}

/// Reading the name of a class gives the class back.
pub proof fn signal_name_is_read_back(t: SignalType)
    ensures
        signal_of(signal_name(t)) == Some(t),
{
    signal_names_differ();
    assert(signal_name(SignalType::Static) == "static"@);
    assert(signal_name(SignalType::Digital) == "digital"@);
    assert(signal_name(SignalType::Clock) == "clock"@);
    assert(signal_name(SignalType::HighSpeed) == "high_speed"@);
    assert(signal_name(SignalType::SwitchingPower) == "switching_power"@);
    assert(signal_name(SignalType::Analog) == "analog"@);
    assert(signal_name(SignalType::Rf) == "rf"@);
}

/// A text that is read as a class is the name of that class.
pub proof fn only_names_are_read(s: Seq<char>, t: SignalType)
    requires
        signal_of(s) == Some(t),
    ensures
        s == signal_name(t),
{
}

/// The names of the classes.
pub fn signal_type_names() -> (r: Vec<String>)
    ensures
        r.deep_view() == signal_names(),
{
    let mut out: Vec<String> = Vec::new();
    out.push("static".to_string());
    out.push("digital".to_string());
    out.push("clock".to_string());
    out.push("high_speed".to_string());
    out.push("switching_power".to_string());
    out.push("analog".to_string());
    out.push("rf".to_string());
    assert(out.deep_view() =~= signal_names());
    out
}

impl SignalType {
    /// The name of the class.
    pub fn as_str(self) -> (r: &'static str)
        ensures
            r@ == signal_name(self),
    {
        match self {
            SignalType::Static => "static",
            SignalType::Digital => "digital",
            SignalType::Clock => "clock",
            SignalType::HighSpeed => "high_speed",
            SignalType::SwitchingPower => "switching_power",
            SignalType::Analog => "analog",
            SignalType::Rf => "rf",
        }
    }

    /// The class of the given name; an error that lists the names where no class has it.
    pub fn parse(s: &str) -> (r: Result<SignalType, String>)
        ensures
            match r {
                Ok(t) => signal_of(s@) == Some(t),
                Err(e) => signal_of(s@) is None && e@ == unknown_signal(),
            },
    {
        if same(s, "static") {
            Ok(SignalType::Static)
        } else if same(s, "digital") {
            Ok(SignalType::Digital)
        } else if same(s, "clock") {
            Ok(SignalType::Clock)
        } else if same(s, "high_speed") {
            Ok(SignalType::HighSpeed)
        } else if same(s, "switching_power") {
            Ok(SignalType::SwitchingPower)
        } else if same(s, "analog") {
            Ok(SignalType::Analog)
        } else if same(s, "rf") {
            Ok(SignalType::Rf)
        } else {
            let names = signal_type_names();
            Err("`signal` must be one of ".to_string().concat(join(&names, ", ").as_str()))
        }
    }

    /// The class of a name that may be missing.
    pub fn parse_optional(signal: Option<&str>) -> (r: Result<Option<SignalType>, String>)
        ensures
            match signal {
                None => r == Ok::<Option<SignalType>, String>(None),
                Some(s) => match r {
                    Ok(t) => t is Some && t == signal_of(s@),
                    Err(e) => signal_of(s@) is None && e@ == unknown_signal(),
                },
            },
    {
        match signal {
            None => Ok(None),
            Some(s) => match SignalType::parse(s) {
                Ok(t) => Ok(Some(t)),
                Err(e) => Err(e),
            },
        }
    }
}

} // verus!
