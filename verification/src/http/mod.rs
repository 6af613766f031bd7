pub mod connection;
pub mod response;
pub mod status;
