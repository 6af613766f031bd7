pub mod clock;
pub mod http;
pub mod logging;
pub mod text;
pub mod node;
