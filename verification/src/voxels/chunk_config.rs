use vstd::prelude::*;

verus! {

/// Voxels along each axis of a chunk.
pub const CHUNK_SIZE: usize = 32;

/// Voxels in one layer of a chunk.
pub const CHUNK_AREA: usize = 1024;

/// Voxels in a chunk.
pub const CHUNK_VOLUME: usize = 32768;

/// Bits that address a voxel along one axis of a chunk.
pub const VOXEL_AXIS_BITS: usize = 5;

/// Mask of the bits that address a voxel along one axis.
pub const VOXEL_AXIS_BIT_MASK: usize = 31;

} // verus!
