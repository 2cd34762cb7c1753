//! The data that the solver works on.
use vstd::prelude::*;

use crate::duplicate::Duplicate;
use crate::json::{Json, JsonV};

verus! {

/// One candidate pin.
pub struct RPin {
    pub name: String,
    /// Opaque realization data: never consulted by the solver, carried verbatim into the
    /// assignment.
    pub data: Vec<(String, Json)>,
    pub cost: i32,
    pub input_only: bool,
    pub strap: bool,
}

/// The value of an `RPin`.
#[verifier::ext_equal]
pub struct RPinV {
    pub name: Seq<char>,
    pub data: Seq<(Seq<char>, JsonV)>,
    pub cost: i32,
    pub input_only: bool,
    pub strap: bool,
}

impl DeepView for RPin {
    type V = RPinV;

    open spec fn deep_view(&self) -> RPinV {
        RPinV {
            name: self.name@,
            data: self.data.deep_view(),
            cost: self.cost,
            input_only: self.input_only,
            strap: self.strap,
        }
    }
}

impl Duplicate for RPin {
    fn duplicate(&self) -> (r: Self) {
        RPin {
            name: self.name.clone(),
            data: self.data.duplicate(),
            cost: self.cost,
            input_only: self.input_only,
            strap: self.strap,
        }
    }
}

/// Pins that a request is pinned to. `any` names pins that must each be claimed by some
/// signal; `by_signal` bounds what one named signal may take.
pub struct PinLock {
    pub any: Vec<String>,
    pub by_signal: Vec<(String, Vec<String>)>,
}

/// The value of a `PinLock`.
#[verifier::ext_equal]
pub struct PinLockV {
    pub any: Seq<Seq<char>>,
    pub by_signal: Seq<(Seq<char>, Seq<Seq<char>>)>,
}

impl DeepView for PinLock {
    type V = PinLockV;

    open spec fn deep_view(&self) -> PinLockV {
        PinLockV { any: self.any.deep_view(), by_signal: self.by_signal.deep_view() }
    }
}

impl Duplicate for PinLock {
    fn duplicate(&self) -> (r: Self) {
        PinLock { any: self.any.duplicate(), by_signal: self.by_signal.duplicate() }
    }
}

/// A provider: one instance of a peripheral.
pub struct RPeriph {
    pub name: String,
    /// Identities of everything provided, each once.
    pub provides_ids: Vec<u64>,
    /// Display names of everything provided, for diagnostics only.
    pub provides_names: Vec<String>,
    pub signals: Vec<(String, Vec<RPin>)>,
    pub rebind: String,
    pub unless: Option<String>,
    pub pool: Option<String>,
}

/// The value of an `RPeriph`.
#[verifier::ext_equal]
pub struct RPeriphV {
    pub name: Seq<char>,
    pub provides_ids: Seq<u64>,
    pub provides_names: Seq<Seq<char>>,
    pub signals: Seq<(Seq<char>, Seq<RPinV>)>,
    pub rebind: Seq<char>,
    pub unless: Option<Seq<char>>,
    pub pool: Option<Seq<char>>,
}

impl DeepView for RPeriph {
    type V = RPeriphV;

    open spec fn deep_view(&self) -> RPeriphV {
        RPeriphV {
            name: self.name@,
            provides_ids: self.provides_ids@,
            provides_names: self.provides_names.deep_view(),
            signals: self.signals.deep_view(),
            rebind: self.rebind@,
            unless: self.unless.deep_view(),
            pool: self.pool.deep_view(),
        }
    }
}

/// A demand for an interface.
pub struct RReq {
    pub name: String,
    pub iface_id: u64,
    pub iface_name: String,
    pub iface_closure_len: usize,
    pub uses: Vec<String>,
    pub instance: Option<String>,
    pub prefer: PinLock,
    pub lock: bool,
    /// A predicate over the provider's attributes has to accept it.
    pub where_fn: bool,
    pub direction: Option<String>,
    /// Served only when the module input of the same name was connected by the caller.
    pub if_connected: bool,
}

/// The value of an `RReq`.
#[verifier::ext_equal]
pub struct RReqV {
    pub name: Seq<char>,
    pub iface_id: u64,
    pub iface_name: Seq<char>,
    pub iface_closure_len: usize,
    pub uses: Seq<Seq<char>>,
    pub instance: Option<Seq<char>>,
    pub prefer: PinLockV,
    pub lock: bool,
    pub where_fn: bool,
    pub direction: Option<Seq<char>>,
    pub if_connected: bool,
}

impl DeepView for RReq {
    type V = RReqV;

    open spec fn deep_view(&self) -> RReqV {
        RReqV {
            name: self.name@,
            iface_id: self.iface_id,
            iface_name: self.iface_name@,
            iface_closure_len: self.iface_closure_len,
            uses: self.uses.deep_view(),
            instance: self.instance.deep_view(),
            prefer: self.prefer.deep_view(),
            lock: self.lock,
            where_fn: self.where_fn,
            direction: self.direction.deep_view(),
            if_connected: self.if_connected,
        }
    }
}

/// One way to serve a request: a provider and a pin for each signal in use.
pub struct Combo {
    pub periph_idx: usize,
    pub pins: Vec<(String, RPin)>,
    pub cost: i64,
    pub key: String,
}

/// The value of a `Combo`.
#[verifier::ext_equal]
pub struct ComboV {
    pub periph_idx: usize,
    pub pins: Seq<(Seq<char>, RPinV)>,
    pub cost: i64,
    pub key: Seq<char>,
}

impl DeepView for Combo {
    type V = ComboV;

    open spec fn deep_view(&self) -> ComboV {
        ComboV {
            periph_idx: self.periph_idx,
            pins: self.pins.deep_view(),
            cost: self.cost,
            key: self.key@,
        }
    }
}

impl Duplicate for Combo {
    fn duplicate(&self) -> (r: Self) {
        Combo {
            periph_idx: self.periph_idx,
            pins: self.pins.duplicate(),
            cost: self.cost,
            key: self.key.clone(),
        }
    }
}

/// What an earlier solve gave a request.
pub struct PrevAssign {
    pub instance: String,
    pub pins: Vec<(String, String)>,
}

/// The value of a `PrevAssign`.
#[verifier::ext_equal]
pub struct PrevAssignV {
    pub instance: Seq<char>,
    pub pins: Seq<(Seq<char>, Seq<char>)>,
}

impl DeepView for PrevAssign {
    type V = PrevAssignV;

    open spec fn deep_view(&self) -> PrevAssignV {
        PrevAssignV { instance: self.instance@, pins: self.pins.deep_view() }
    }
}

} // verus!
