//! Writing values at the start of a destination slice.

use vstd::prelude::*;

use crate::scalars::{le_bytes, wire_to_buf, LeScalar};

verus! {

/// An alignment, kept apart from other sizes so that they are not mixed up.
pub struct PushAlignment(pub usize);

impl PushAlignment {
    pub fn new(x: usize) -> (r: Self)
        ensures
            r.0 == x,
    {
        PushAlignment(x)
    }

    pub fn value(&self) -> (r: usize)
        ensures
            r == self.0,
    {
        self.0
    }

    /// The larger of this alignment and `o`.
    pub fn max_of(&self, o: usize) -> (r: Self)
        ensures
            r.0 == if self.0 >= o { self.0 } else { o },
    {
        PushAlignment::new(if self.0 >= o { self.0 } else { o })
    }
}

/// Values that write their wire form at the start of a destination slice.
pub trait Push: Sized {
    type Output;

    /// Pushing is defined for `written_len` bytes already written.
    spec fn can_push(&self, written_len: int) -> bool;

    /// The bytes that pushing writes when `written_len` bytes are already written.
    spec fn pushed(&self, written_len: int) -> Seq<u8>;

    /// Writes the value at the start of `dst`, which must have room for it.
    fn push(&self, dst: &mut [u8], written_len: usize)
        requires
            self.can_push(written_len as int),
            self.pushed(written_len as int).len() <= old(dst)@.len(),
        ensures
            final(dst)@ == self.pushed(written_len as int) + old(dst)@.subrange(
                self.pushed(written_len as int).len() as int,
                old(dst)@.len() as int,
            ),
    ;

    /// The size of the wire form's type.
    fn size() -> (r: usize)
        ensures
            r as nat == vstd::layout::size_of::<Self::Output>(),
    {
        core::mem::size_of::<Self::Output>()
    }

    /// The alignment of the wire form's type.
    fn alignment() -> (r: PushAlignment)
        ensures
            r.0 as nat == vstd::layout::align_of::<Self::Output>(),
    {
        PushAlignment::new(core::mem::align_of::<Self::Output>())
    }
}

/// A reference pushes what it refers to.
impl<'a, T: Push> Push for &'a T {
    type Output = T::Output;

    open spec fn can_push(&self, written_len: int) -> bool {
        (**self).can_push(written_len)
    }

    open spec fn pushed(&self, written_len: int) -> Seq<u8> {
        (**self).pushed(written_len)
    }

    fn push(&self, dst: &mut [u8], written_len: usize) {
        T::push(*self, dst, written_len)
    }

    fn size() -> (r: usize) {
        T::size()
    }

    fn alignment() -> (r: PushAlignment) {
        T::alignment()
    }
}

/// Pushes the little-endian bytes of the integer.
impl Push for u8 {
    type Output = u8;

    open spec fn can_push(&self, written_len: int) -> bool {
        true
    }

    open spec fn pushed(&self, written_len: int) -> Seq<u8> {
        le_bytes(self.spec_wire(), u8::spec_width())
    }

    fn push(&self, dst: &mut [u8], written_len: usize) {
        wire_to_buf::<u8>(dst, *self);
    }
}

/// Pushes the little-endian bytes of the integer.
impl Push for i8 {
    type Output = i8;

    open spec fn can_push(&self, written_len: int) -> bool {
        true
    }

    open spec fn pushed(&self, written_len: int) -> Seq<u8> {
        le_bytes(self.spec_wire(), i8::spec_width())
    }

    fn push(&self, dst: &mut [u8], written_len: usize) {
        wire_to_buf::<i8>(dst, *self);
    }
}

/// Pushes the little-endian bytes of the integer.
impl Push for u16 {
    type Output = u16;

    open spec fn can_push(&self, written_len: int) -> bool {
        true
    }

    open spec fn pushed(&self, written_len: int) -> Seq<u8> {
        le_bytes(self.spec_wire(), u16::spec_width())
    }

    fn push(&self, dst: &mut [u8], written_len: usize) {
        wire_to_buf::<u16>(dst, *self);
    }
}

/// Pushes the little-endian bytes of the integer.
impl Push for i16 {
    type Output = i16;

    open spec fn can_push(&self, written_len: int) -> bool {
        true
    }

    open spec fn pushed(&self, written_len: int) -> Seq<u8> {
        le_bytes(self.spec_wire(), i16::spec_width())
    }

    fn push(&self, dst: &mut [u8], written_len: usize) {
        wire_to_buf::<i16>(dst, *self);
    }
}

/// Pushes the little-endian bytes of the integer.
impl Push for u32 {
    type Output = u32;

    open spec fn can_push(&self, written_len: int) -> bool {
        true
    }

    open spec fn pushed(&self, written_len: int) -> Seq<u8> {
        le_bytes(self.spec_wire(), u32::spec_width())
    }

    fn push(&self, dst: &mut [u8], written_len: usize) {
        wire_to_buf::<u32>(dst, *self);
    }
}

/// Pushes the little-endian bytes of the integer.
impl Push for i32 {
    type Output = i32;

    open spec fn can_push(&self, written_len: int) -> bool {
        true
    }

    open spec fn pushed(&self, written_len: int) -> Seq<u8> {
        le_bytes(self.spec_wire(), i32::spec_width())
    }

    fn push(&self, dst: &mut [u8], written_len: usize) {
        wire_to_buf::<i32>(dst, *self);
    }
}

/// Pushes the little-endian bytes of the integer.
impl Push for u64 {
    type Output = u64;

    open spec fn can_push(&self, written_len: int) -> bool {
        true
    }

    open spec fn pushed(&self, written_len: int) -> Seq<u8> {
        le_bytes(self.spec_wire(), u64::spec_width())
    }

    fn push(&self, dst: &mut [u8], written_len: usize) {
        wire_to_buf::<u64>(dst, *self);
    }
}

/// Pushes the little-endian bytes of the integer.
impl Push for i64 {
    type Output = i64;

    open spec fn can_push(&self, written_len: int) -> bool {
        true
    }

    open spec fn pushed(&self, written_len: int) -> Seq<u8> {
        le_bytes(self.spec_wire(), i64::spec_width())
    }

    fn push(&self, dst: &mut [u8], written_len: usize) {
        wire_to_buf::<i64>(dst, *self);
    }
}

/// Pushes the little-endian bytes of the integer.
impl Push for u128 {
    type Output = u128;

    open spec fn can_push(&self, written_len: int) -> bool {
        true
    }

    open spec fn pushed(&self, written_len: int) -> Seq<u8> {
        le_bytes(self.spec_wire(), u128::spec_width())
    }

    fn push(&self, dst: &mut [u8], written_len: usize) {
        wire_to_buf::<u128>(dst, *self);
    }
}

/// Pushes the little-endian bytes of the integer.
impl Push for i128 {
    type Output = i128;

    open spec fn can_push(&self, written_len: int) -> bool {
        true
    }

    open spec fn pushed(&self, written_len: int) -> Seq<u8> {
        le_bytes(self.spec_wire(), i128::spec_width())
    }

    fn push(&self, dst: &mut [u8], written_len: usize) {
        wire_to_buf::<i128>(dst, *self);
    }
}

/// A boolean pushes one byte, 1 or 0.
impl Push for bool {
    type Output = bool;

    open spec fn can_push(&self, written_len: int) -> bool {
        true
    }

    open spec fn pushed(&self, written_len: int) -> Seq<u8> {
        seq![if *self { 1u8 } else { 0u8 }]
    }

    fn push(&self, dst: &mut [u8], written_len: usize) {
        let b: u8 = if *self {
            1
        } else {
            0
        };
        wire_to_buf::<u8>(dst, b);
        proof {
            assert(crate::scalars::pow256(0) == 1);
            assert((b as nat / 1) % 256 == b);
            assert(le_bytes(b as nat, 1)[0] == b);
            assert(le_bytes(b as nat, 1) =~= seq![b]);
        }
    }
}

} // verus!
