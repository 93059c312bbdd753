//! Growable backing storage for a buffer that is filled from its end.

use vstd::prelude::*;

use core::convert::Infallible;
use core::marker::PhantomData;

use crate::index::ReverseIndex;
use crate::offsets::RevOffset;
use crate::primitives::{UOffsetT, VOffsetT, MAX_BUFFER_SIZE};

verus! {

/// Storage for a buffer written from its end.
pub trait Allocator: Sized {
    /// A type describing allocation failures.
    type Error;

    /// The size of the storage in bytes.
    spec fn spec_len(&self) -> nat;

    /// Grows the storage, with the old contents being moved to the end.
    fn grow(&mut self) -> (r: core::result::Result<(), Self::Error>)
        requires
            old(self).spec_len() * 2 <= usize::MAX,
        ensures
            r is Ok ==> final(self).spec_len() > old(self).spec_len(),
    ;

    /// Returns the size of the storage in bytes.
    fn len(&self) -> (r: usize)
        ensures
            r == self.spec_len(),
    ;
}

/// Storage in a `Vec<u8>`.
#[derive(Default)]
pub struct DefaultAllocator(pub Vec<u8>);

impl DefaultAllocator {
    /// Builds the allocator from an existing buffer.
    pub fn from_vec(buffer: Vec<u8>) -> (r: Self)
        ensures
            r.0@ == buffer@,
    {
        Self(buffer)
    }
}

impl Allocator for DefaultAllocator {
    type Error = Infallible;

    open spec fn spec_len(&self) -> nat {
        self.0@.len()
    }

    /// Doubles the storage (to 1 byte when empty); the old bytes end up at its end,
    /// after zeros.
    fn grow(&mut self) -> (r: core::result::Result<(), Infallible>)
        ensures
            r is Ok,
            final(self).0@ == Seq::new(
                (if old(self).0@.len() == 0 { 1 } else { old(self).0@.len() }) as nat,
                |i: int| 0u8,
            ) + old(self).0@,
    {
        let old_len = self.0.len();
        let new_len = if old_len == 0 {
            1
        } else {
            old_len * 2
        };
        let front = new_len - old_len;
        let mut grown: Vec<u8> = Vec::new();
        let mut i: usize = 0;
        while i < front
            invariant
                i <= front,
                grown@ == Seq::new(i as nat, |k: int| 0u8),
            decreases front - i,
        {
            grown.push(0);
            i = i + 1;
        }
        let mut j: usize = 0;
        while j < old_len
            invariant
                j <= old_len,
                old_len == self.0@.len(),
                grown@ == Seq::new(front as nat, |k: int| 0u8) + self.0@.subrange(0, j as int),
            decreases old_len - j,
        {
            grown.push(self.0[j]);
            j = j + 1;
            assert(self.0@.subrange(0, j as int) =~= self.0@.subrange(0, j - 1).push(self.0@[j - 1]));
        }
        assert(self.0@.subrange(0, old_len as int) =~= self.0@);
        self.0 = grown;
        Ok(())
    }

    fn len(&self) -> (r: usize) {
        self.0.len()
    }
}

/// Where a field was written, and which field it is.
#[derive(Clone, Copy, Debug, Eq, PartialEq)]
pub struct FieldLoc {
    pub off: UOffsetT,
    pub id: VOffsetT,
}

/// Writes a buffer from its end into storage that grows on demand.
pub struct BufferWriter<'w, A: Allocator = DefaultAllocator> {
    pub allocator: A,
    pub head: ReverseIndex,
    pub field_locs: Vec<FieldLoc>,
    pub written_vtable_revpos: Vec<UOffsetT>,
    pub strings_pool: Vec<RevOffset<&'w str>>,
    pub _phantom: PhantomData<&'w ()>,
}

impl<'w> BufferWriter<'w, DefaultAllocator> {
    /// An empty writer with no storage yet.
    pub fn new() -> (r: Self)
        ensures
            r.allocator.0@.len() == 0,
            r.head.0 == 0,
            r.field_locs@ == Seq::<FieldLoc>::empty(),
            r.written_vtable_revpos@ == Seq::<UOffsetT>::empty(),
            r.strings_pool@ == Seq::<RevOffset<&'w str>>::empty(),
    {
        Self::with_capacity(0)
    }

    /// An empty writer with `size` zeroed bytes of storage.
    pub fn with_capacity(size: usize) -> (r: Self)
        requires
            size <= MAX_BUFFER_SIZE,
        ensures
            r.allocator.0@ == Seq::new(size as nat, |i: int| 0u8),
            r.head.0 == 0,
            r.field_locs@ == Seq::<FieldLoc>::empty(),
            r.written_vtable_revpos@ == Seq::<UOffsetT>::empty(),
            r.strings_pool@ == Seq::<RevOffset<&'w str>>::empty(),
    {
        Self::from_buffer(vec![0; size])
    }

    /// An empty writer over the given storage, of at most 2 GiB.
    pub fn from_buffer(buffer: Vec<u8>) -> (r: Self)
        requires
            buffer@.len() <= MAX_BUFFER_SIZE,
        ensures
            r.allocator.0@ == buffer@,
            r.head.0 == 0,
            r.field_locs@ == Seq::<FieldLoc>::empty(),
            r.written_vtable_revpos@ == Seq::<UOffsetT>::empty(),
            r.strings_pool@ == Seq::<RevOffset<&'w str>>::empty(),
    {
        let allocator = DefaultAllocator::from_vec(buffer);
        Self::new_in(allocator)
    }
}

impl<'w, A: Allocator> BufferWriter<'w, A> {
    /// The written bytes lie within the storage.
    pub open spec fn wf(&self) -> bool {
        self.head.0 <= self.allocator.spec_len()
    }

    /// An empty writer over the given storage.
    pub fn new_in(allocator: A) -> (r: Self)
        ensures
            r.allocator == allocator,
            r.head.0 == 0,
            r.field_locs@ == Seq::<FieldLoc>::empty(),
            r.written_vtable_revpos@ == Seq::<UOffsetT>::empty(),
            r.strings_pool@ == Seq::<RevOffset<&'w str>>::empty(),
    {
        let head = ReverseIndex::end();
        Self {
            allocator,
            head,
            field_locs: Vec::new(),
            written_vtable_revpos: Vec::new(),
            strings_pool: Vec::new(),
            _phantom: PhantomData,
        }
    }

    /// Bytes of storage in front of what has been written.
    fn free_space(&self) -> (r: usize)
        requires
            self.wf(),
        ensures
            r == self.allocator.spec_len() - self.head.0,
            self.allocator.spec_len() <= usize::MAX,
    {
        self.allocator.len() - self.head.val()
    }

    /// Bytes written so far.
    fn used_space(&self) -> (r: usize)
        ensures
            r == self.head.0,
    {
        self.head.val()
    }
}

impl<'w> BufferWriter<'w, DefaultAllocator> {
    /// Doubles the storage; what was written stays at its end.
    fn grow(&mut self)
        requires
            old(self).wf(),
            old(self).allocator.0@.len() * 2 <= usize::MAX,
        ensures
            final(self).wf(),
            final(self).head == old(self).head,
            final(self).allocator.0@.len() > old(self).allocator.0@.len(),
            final(self).allocator.0@.len() <= 2 * old(self).allocator.0@.len() + 1,
    {
        match self.allocator.grow() {
            Ok(()) => {},
            Err(_) => {},
        }
    }

    /// Grows the storage until `needed` bytes are free in front of what has been
    /// written; returns `needed`.
    fn ensure_capacity(&mut self, needed: usize) -> (r: usize)
        requires
            old(self).wf(),
            old(self).allocator.0@.len() - old(self).head.0 < needed ==> needed <= MAX_BUFFER_SIZE
                && old(self).head.0 + needed <= usize::MAX / 2,
        ensures
            r == needed,
            final(self).wf(),
            final(self).head == old(self).head,
            final(self).allocator.0@.len() - final(self).head.0 >= needed,
            final(self).allocator.0@.len() <= usize::MAX,
            old(self).allocator.0@.len() - old(self).head.0 >= needed ==> *final(self) == *old(self),
    {
        let mut free = self.free_space();
        if free >= needed {
            return needed;
        }
        while free < needed
            invariant
                self.wf(),
                self.head == old(self).head,
                self.head.0 + needed <= usize::MAX / 2,
                free == self.allocator.0@.len() - self.head.0,
                self.allocator.0@.len() <= usize::MAX,
            decreases if free < needed { needed - free } else { 0 },
        {
            let ghost before = self.allocator.0@.len();
            self.grow();
            free = self.free_space();
            assert(self.allocator.0@.len() > before);
        }
        needed
    }

    /// Reserves `size` bytes in front of what has been written and returns their
    /// position, counted from the end.
    fn reserve_bytes(&mut self, size: usize) -> (r: ReverseIndex)
        requires
            old(self).wf(),
            old(self).allocator.0@.len() - old(self).head.0 < size ==> size <= MAX_BUFFER_SIZE
                && old(self).head.0 + size <= usize::MAX / 2,
        ensures
            final(self).wf(),
            final(self).head.0 == old(self).head.0 + size,
            r == final(self).head,
    {
        self.ensure_capacity(size);
        self.head.minus_assign(size);
        self.head
    }
}

} // verus!
