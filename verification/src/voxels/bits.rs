pub mod data;
pub mod mesh;
