//! Metric families.
pub mod aesthetics;
pub mod context;
pub mod count_laws;
pub mod crosstalk;
pub mod crosstalk_select;
pub mod dfm;
pub mod drc;
pub mod emi;
pub mod emi_select;
pub mod entries;
pub mod esd;
pub mod esd_laws;
pub mod esd_select;
pub mod families;
pub mod laws;
pub mod part_laws;
pub mod placement;
pub mod power;
pub mod power_laws;
pub mod power_select;
pub mod routing;
pub mod scale_laws;
pub mod si;
pub mod si_select;
pub mod speed_laws;
pub mod tally;
pub mod thermal;
pub mod worst_laws;
