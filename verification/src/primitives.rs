//! Sizes and offset types of the table format.

use vstd::prelude::*;

verus! {

/// The largest buffer a writer may build: 2 GiB.
pub const MAX_BUFFER_SIZE: usize = 0x8000_0000;

/// Fields of a vtable before its field slots: its own length and the table's length.
pub const VTABLE_METADATA_FIELDS: usize = 2;

pub const SIZE_U8: usize = 1;
pub const SIZE_I8: usize = 1;
pub const SIZE_U16: usize = 2;
pub const SIZE_I16: usize = 2;
pub const SIZE_U32: usize = 4;
pub const SIZE_I32: usize = 4;
pub const SIZE_U64: usize = 8;
pub const SIZE_I64: usize = 8;
pub const SIZE_F32: usize = 4;
pub const SIZE_F64: usize = 8;

pub const SIZE_SOFFSET: usize = 4;
pub const SIZE_UOFFSET: usize = 4;
pub const SIZE_VOFFSET: usize = 2;

pub const SIZE_PREFIX_HEADER: usize = 4;

/// A relative pointer from a table to its vtable.
pub type SOffsetT = i32;

/// A relative pointer, or the length of a vector.
pub type UOffsetT = u32;

/// A relative pointer in a vtable, from a table to a field.
pub type VOffsetT = u16;

} // verus!
