pub mod logger;
pub mod severity;
