pub mod bytes;
pub mod error;
pub mod offsets;
pub mod round_trip;
pub mod vec;
