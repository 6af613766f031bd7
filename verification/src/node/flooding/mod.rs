pub mod link;
pub mod routing_table;
pub mod laws;
