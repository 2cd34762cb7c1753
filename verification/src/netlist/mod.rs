//! Netlists and the checks on them.
pub mod annotate;
pub mod annotate_laws;
pub mod dc;
pub mod dc_laws;
pub mod dc_plan;
pub mod erc;
pub mod erc_laws;
pub mod fixed;
pub mod lookup_laws;
pub mod schematic;
