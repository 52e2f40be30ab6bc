pub mod hub_graph;
pub mod label;
pub mod label_entry;
