//! Verified core of a PCB design tool.
pub mod duplicate;
pub mod json;
pub mod netlist;
pub mod number;
pub mod order;
pub mod pinmux;
pub mod score;
pub mod select;
pub mod signal_type;
pub mod sorted_map;
pub mod steps;
pub mod text;
pub mod union_find;
pub mod word_laws;
