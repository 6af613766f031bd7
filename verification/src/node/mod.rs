pub mod flooding;
pub mod packets;
pub mod routing;
pub mod threads;
