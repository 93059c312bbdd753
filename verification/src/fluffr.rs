//! Shared pieces of the table format: field modes and small helpers.

pub mod file_kind;
pub mod meta;
pub mod reverse_index;

use vstd::prelude::*;

verus! {

/// How a field is stored in a table: inline, behind an offset, or as a union
/// (which is also behind an offset).
#[derive(Clone, Copy, Debug, PartialEq, Eq, Structural)]
pub enum DataType {
    Inline,
    Offset,
    Union,
}

impl DataType {
    pub fn is_inline_flag(&self) -> (r: bool)
        ensures
            r == (*self is Inline),
    {
        matches!(self, DataType::Inline)
    }

    pub fn is_offset_flag(&self) -> (r: bool)
        ensures
            r == (*self is Offset || *self is Union),
    {
        match self {
            DataType::Offset | DataType::Union => true,
            _ => false,
        }
    }

    pub fn is_union_flag(&self) -> (r: bool)
        ensures
            r == (*self is Union),
    {
        matches!(self, DataType::Union)
    }
}

/// The larger of `a` and `b`, selected with a mask.
pub fn bitmax(a: usize, b: usize) -> (r: usize)
    ensures
        r == if a < b { b } else { a },
{
    // All ones when `a < b`, else all zeros.
    let mask: usize = if a < b {
        !0usize
    } else {
        0
    };
    proof {
        assert(a ^ ((a ^ b) & !0usize) == b) by (bit_vector);
        assert(a ^ ((a ^ b) & 0usize) == a) by (bit_vector);
    }
    a ^ ((a ^ b) & mask)
}

/// A read-only view of a registry of rows.
pub trait RegistryView<'a> {
    type RowRef;

    /// The number of rows.
    spec fn spec_len(&self) -> nat;

    fn get_row(&self, i: usize) -> Self::RowRef
        requires
            i < self.spec_len(),
    ;

    fn len(&self) -> (r: usize)
        ensures
            r == self.spec_len(),
    ;

    fn is_empty(&self) -> (r: bool)
        ensures
            r == (self.spec_len() == 0),
    {
        self.len() == 0
    }
}

/// Query values that start from a fresh, empty state.
pub trait QueryType: Sized {
    fn new() -> Self;
}

/// Plain fixed-size values that travel as their little-endian bytes.
pub trait Flat: Sized {
    fn to_le_bytes(&self) -> Vec<u8>;

    fn from_le_bytes(bytes: &[u8]) -> Self;
}

} // verus!
