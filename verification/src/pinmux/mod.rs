//! Peripheral capability model: components declare what their pins can do, and the solver
//! performs the joint assignment of instances and pins.
pub mod access;
pub mod assign;
pub mod combo_laws;
pub mod combos;
pub mod constraints;
pub mod declare;
pub mod iface;
pub mod laws;
pub mod lock;
pub mod map_laws;
pub mod merge;
pub mod model;
pub mod parse;
pub mod physical;
pub mod place;
pub mod place_laws;
pub mod pin_map;
pub mod prepare;
pub mod report;
pub mod solve;
pub mod solve_laws;
pub mod swaps;
pub mod value;
pub mod way_laws;
