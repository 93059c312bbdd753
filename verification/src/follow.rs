//! Reading values in place from a buffer whose layout the caller vouches for.

use vstd::prelude::*;

use crate::scalars::{le_value, read_scalar_at, LeScalar};

verus! {

/// Reads a value at an absolute position of a buffer. Unlike the checked readers of
/// `buffers::offsets`, the position must be readable: `follow` demands it.
pub trait Follow<'a>: Sized {
    type Inner;

    /// `buf` holds at `loc` everything that reading there touches.
    spec fn readable(buf: Seq<u8>, loc: int) -> bool;

    /// `r` is what reading at `loc` gives.
    spec fn reads(buf: Seq<u8>, loc: int, r: Self::Inner) -> bool;

    fn follow(buf: &'a [u8], loc: usize) -> (r: Self::Inner)
        requires
            Self::readable(buf@, loc as int),
        ensures
            Self::reads(buf@, loc as int, r),
    ;
}

/// Integers are read from their little-endian bytes.
impl<'a, T: LeScalar> Follow<'a> for T {
    type Inner = T;

    open spec fn readable(buf: Seq<u8>, loc: int) -> bool {
        0 <= loc && loc + T::spec_width() <= buf.len()
    }

    open spec fn reads(buf: Seq<u8>, loc: int, r: T) -> bool {
        r.spec_wire() == le_value(buf.subrange(loc, loc + T::spec_width()))
    }

    fn follow(buf: &'a [u8], loc: usize) -> (r: T) {
        read_scalar_at::<T>(buf, loc)
    }
}

/// A boolean is a byte: 0 is `false`, anything else `true`.
impl<'a> Follow<'a> for bool {
    type Inner = bool;

    open spec fn readable(buf: Seq<u8>, loc: int) -> bool {
        0 <= loc < buf.len()
    }

    open spec fn reads(buf: Seq<u8>, loc: int, r: bool) -> bool {
        r == (buf[loc] != 0)
    }

    fn follow(buf: &'a [u8], loc: usize) -> (r: bool) {
        let b: u8 = read_scalar_at::<u8>(buf, loc);
        proof {
            let s = buf@.subrange(loc as int, loc + 1);
            assert(s.drop_first().len() == 0);
            assert(le_value(s) == s[0] as nat + 256 * le_value(s.drop_first()));
        }
        b != 0
    }
}

} // verus!
