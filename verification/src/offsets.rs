//! Offsets of the table format, for reading and for writing.

use vstd::prelude::*;

use core::marker::PhantomData;

use crate::follow::Follow;
use crate::primitives::{SOffsetT, UOffsetT, VOffsetT, SIZE_PREFIX_HEADER, SIZE_UOFFSET};
use crate::push::Push;
use crate::scalars::{le_bytes, le_value, read_scalar, twos_wire, wire_to_buf, LeScalar};

verus! {

/// The position of a value written into an unfinished buffer, counted from the
/// buffer's end. Pushing it writes the forward offset from the slot to the value.
#[derive(Debug)]
pub struct RevOffset<T>(pub UOffsetT, pub PhantomData<T>);

impl<T> Copy for RevOffset<T> {}

impl<T> Clone for RevOffset<T> {
    fn clone(&self) -> (r: Self)
        ensures
            r.0 == self.0,
    {
        RevOffset(self.0, PhantomData)
    }
}

impl<T> PartialEq for RevOffset<T> {
    fn eq(&self, o: &RevOffset<T>) -> (r: bool) {
        self.0 == o.0
    }
}

impl<T> vstd::std_specs::cmp::PartialEqSpecImpl for RevOffset<T> {
    open spec fn obeys_eq_spec() -> bool {
        true
    }

    open spec fn eq_spec(&self, o: &RevOffset<T>) -> bool {
        self.0 == o.0
    }
}

impl<T> Eq for RevOffset<T> {}

impl<T> RevOffset<T> {
    pub fn new(o: UOffsetT) -> (r: RevOffset<T>)
        ensures
            r.0 == o,
    {
        RevOffset(o, PhantomData)
    }

    pub fn value(self) -> (r: UOffsetT)
        ensures
            r == self.0,
    {
        self.0
    }
}

/// The forward offset from a slot to a value: the slot's position counted from the
/// end minus the value's, truncated to 32 bits.
impl<T> Push for RevOffset<T> {
    type Output = UOffset<T>;

    open spec fn can_push(&self, written_len: int) -> bool {
        self.0 <= 4 + written_len <= usize::MAX
    }

    open spec fn pushed(&self, written_len: int) -> Seq<u8> {
        le_bytes(((4 + written_len - self.0) as u32) as nat, 4)
    }

    fn push(&self, dst: &mut [u8], written_len: usize) {
        let d = SIZE_UOFFSET + written_len - self.value() as usize;
        let n = d as UOffsetT;
        wire_to_buf::<UOffsetT>(dst, n);
    }
}

/// A forward offset: reading goes on at the slot's position plus the stored value.
#[derive(Debug)]
pub struct UOffset<T>(pub UOffsetT, pub PhantomData<T>);

impl<T> Copy for UOffset<T> {}

impl<T> Clone for UOffset<T> {
    fn clone(&self) -> (r: Self)
        ensures
            r.0 == self.0,
    {
        UOffset(self.0, PhantomData)
    }
}

impl<T> UOffset<T> {
    pub fn value(self) -> (r: UOffsetT)
        ensures
            r == self.0,
    {
        self.0
    }
}

impl<T> Push for UOffset<T> {
    type Output = Self;

    open spec fn can_push(&self, written_len: int) -> bool {
        true
    }

    open spec fn pushed(&self, written_len: int) -> Seq<u8> {
        le_bytes(self.0 as nat, 4)
    }

    fn push(&self, dst: &mut [u8], written_len: usize) {
        self.value().push(dst, written_len);
    }
}

/// The number the little-endian bytes `buf[loc..loc + n]` denote.
pub open spec fn field_at(buf: Seq<u8>, loc: int, n: int) -> nat {
    le_value(buf.subrange(loc, loc + n))
}

impl<'a, T: Follow<'a>> Follow<'a> for UOffset<T> {
    type Inner = T::Inner;

    open spec fn readable(buf: Seq<u8>, loc: int) -> bool {
        &&& 0 <= loc
        &&& loc + 4 <= buf.len()
        &&& loc + field_at(buf, loc, 4) <= usize::MAX
        &&& T::readable(buf, loc + field_at(buf, loc, 4))
    }

    open spec fn reads(buf: Seq<u8>, loc: int, r: T::Inner) -> bool {
        T::reads(buf, loc + field_at(buf, loc, 4), r)
    }

    fn follow(buf: &'a [u8], loc: usize) -> (r: T::Inner) {
        let n = buf.len();
        let slice = vstd::slice::slice_subrange(buf, loc, loc + SIZE_UOFFSET);
        let off = read_scalar::<UOffsetT>(slice) as usize;
        proof {
            assert(slice@.subrange(0, 4) =~= buf@.subrange(loc as int, loc + 4));
        }
        T::follow(buf, loc + off)
    }
}

/// A forward 16-bit offset.
#[derive(Debug)]
pub struct VtableOffset<T>(pub VOffsetT, pub PhantomData<T>);

impl<T> VtableOffset<T> {
    pub fn value(&self) -> (r: VOffsetT)
        ensures
            r == self.0,
    {
        self.0
    }
}

impl<'a, T: Follow<'a>> Follow<'a> for VtableOffset<T> {
    type Inner = T::Inner;

    open spec fn readable(buf: Seq<u8>, loc: int) -> bool {
        &&& 0 <= loc
        &&& loc + 2 <= buf.len()
        &&& loc + field_at(buf, loc, 2) <= usize::MAX
        &&& T::readable(buf, loc + field_at(buf, loc, 2))
    }

    open spec fn reads(buf: Seq<u8>, loc: int, r: T::Inner) -> bool {
        T::reads(buf, loc + field_at(buf, loc, 2), r)
    }

    fn follow(buf: &'a [u8], loc: usize) -> (r: T::Inner) {
        let n = buf.len();
        let slice = vstd::slice::slice_subrange(buf, loc, loc + 2);
        let off = read_scalar::<VOffsetT>(slice) as usize;
        proof {
            assert(slice@.subrange(0, 2) =~= buf@.subrange(loc as int, loc + 2));
        }
        T::follow(buf, loc + off)
    }
}

impl<T> Push for VtableOffset<T> {
    type Output = Self;

    open spec fn can_push(&self, written_len: int) -> bool {
        true
    }

    open spec fn pushed(&self, written_len: int) -> Seq<u8> {
        le_bytes(self.0 as nat, 2)
    }

    fn push(&self, dst: &mut [u8], written_len: usize) {
        self.value().push(dst, written_len);
    }
}

/// A backward offset: reading goes on at the slot's position minus the stored value,
/// computed on the position truncated to 32 bits.
#[derive(Debug)]
pub struct SOffset<T>(pub SOffsetT, pub PhantomData<T>);

impl<T> SOffset<T> {
    pub fn value(&self) -> (r: SOffsetT)
        ensures
            r == self.0,
    {
        self.0
    }
}

/// The signed number the 4 bytes at `loc` denote.
pub open spec fn soffset_at(buf: Seq<u8>, loc: int) -> int {
    let v = field_at(buf, loc, 4);
    if v < 0x8000_0000 {
        v as int
    } else {
        v - 0x1_0000_0000
    }
}

/// Where a backward offset at `loc` leads: the truncated position minus the offset.
pub open spec fn soffset_target(buf: Seq<u8>, loc: int) -> int {
    (loc as i32) - soffset_at(buf, loc)
}

impl<'a, T: Follow<'a>> Follow<'a> for SOffset<T> {
    type Inner = T::Inner;

    open spec fn readable(buf: Seq<u8>, loc: int) -> bool {
        &&& 0 <= loc
        &&& loc + 4 <= buf.len()
        &&& i32::MIN <= soffset_target(buf, loc) <= i32::MAX
        &&& T::readable(buf, (soffset_target(buf, loc) as i32) as usize as int)
    }

    open spec fn reads(buf: Seq<u8>, loc: int, r: T::Inner) -> bool {
        T::reads(buf, (soffset_target(buf, loc) as i32) as usize as int, r)
    }

    fn follow(buf: &'a [u8], loc: usize) -> (r: T::Inner) {
        let n = buf.len();
        let slice = vstd::slice::slice_subrange(buf, loc, loc + 4);
        let off: i32 = read_scalar::<SOffsetT>(slice);
        proof {
            assert(slice@.subrange(0, 4) =~= buf@.subrange(loc as int, loc + 4));
            crate::scalars::lemma_pow256_values();
        }
        let target = loc as SOffsetT - off;
        T::follow(buf, target as usize)
    }
}

impl<T> Push for SOffset<T> {
    type Output = Self;

    open spec fn can_push(&self, written_len: int) -> bool {
        true
    }

    open spec fn pushed(&self, written_len: int) -> Seq<u8> {
        le_bytes(twos_wire(self.0 as int, 4), 4)
    }

    fn push(&self, dst: &mut [u8], written_len: usize) {
        self.value().push(dst, written_len);
    }
}

/// Skips the size prefix in front of a buffer's content.
pub struct SkipPrefixHeader<T>(pub PhantomData<T>);

impl<'a, T: Follow<'a>> Follow<'a> for SkipPrefixHeader<T> {
    type Inner = T::Inner;

    open spec fn readable(buf: Seq<u8>, loc: int) -> bool {
        loc + 4 <= usize::MAX && T::readable(buf, loc + 4)
    }

    open spec fn reads(buf: Seq<u8>, loc: int, r: T::Inner) -> bool {
        T::reads(buf, loc + 4, r)
    }

    fn follow(buf: &'a [u8], loc: usize) -> (r: T::Inner) {
        T::follow(buf, loc + SIZE_PREFIX_HEADER)
    }
}

/// Skips the root offset at the front of a buffer.
pub struct SkipRootOffset<T>(pub PhantomData<T>);

impl<'a, T: Follow<'a>> Follow<'a> for SkipRootOffset<T> {
    type Inner = T::Inner;

    open spec fn readable(buf: Seq<u8>, loc: int) -> bool {
        loc + 4 <= usize::MAX && T::readable(buf, loc + 4)
    }

    open spec fn reads(buf: Seq<u8>, loc: int, r: T::Inner) -> bool {
        T::reads(buf, loc + 4, r)
    }

    fn follow(buf: &'a [u8], loc: usize) -> (r: T::Inner) {
        T::follow(buf, loc + SIZE_UOFFSET)
    }
}

} // verus!
