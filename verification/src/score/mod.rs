//! Scoring the routing quality of a board.
pub mod airwires;
pub mod board;
pub mod board_laws;
pub mod board_parse;
pub mod board_read;
pub mod board_written;
pub mod class_laws;
pub mod classify;
pub mod copper_laws;
pub mod flow;
pub mod flow_laws;
pub mod flow_ports;
pub mod gate_laws;
pub mod gates;
pub mod graphics;
pub mod layout_laws;
pub mod metrics;
pub mod model;
pub mod more_copper;
pub mod net_graph;
pub mod net_stats;
pub mod outline;
pub mod report;
pub mod roles;
pub mod sexpr;
pub mod sexpr_text;
pub mod shortest_tree;
pub mod spanning;
pub mod spatial;
pub mod stackup;
pub mod text_laws;
pub mod written;
