pub mod config;
pub mod tracing;
