pub mod buffer;
pub mod config;
