pub mod ip;
pub mod link;
pub mod node;
pub mod overlay_graph;
pub mod algorithms;
pub mod routing_table;
