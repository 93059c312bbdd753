pub mod agentflow;
pub mod buffers;
pub mod fluffr;
pub mod follow;
pub mod index;
pub mod instances;
pub mod offsets;
pub mod primitives;
pub mod push;
pub mod scalars;
pub mod terrain;
pub mod voxels;
pub mod work;
