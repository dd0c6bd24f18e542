pub mod code;
pub mod elements;
pub mod graph_circ;
pub mod cycles;
pub mod paths;
pub mod graph_code;
pub mod laws;
