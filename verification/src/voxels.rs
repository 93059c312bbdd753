pub mod bits;
pub mod buffers;
pub mod chunk_config;
pub mod constants;
pub mod index;
pub mod utils;
