//! First-fit allocation of ranges of the terrain vertex buffer, aligned to four bytes.

use std::collections::VecDeque;

use vstd::layout::size_of;
use vstd::prelude::*;

pub use crate::voxels::buffers::BufferRange;
use crate::voxels::buffers::{
    after_allocation, all_in_bounds, ends_in_bounds, first_fit, first_fit_take, lemma_first_fit,
    lemma_sort_keeps_bounds, merge_runs, merged, sort_by_offset, sort_ranges,
};

verus! {

/// A free list of buffer ranges, handed out first fit.
#[derive(Clone, Debug)]
pub struct RangeAllocator {
    pub free_ranges: Vec<BufferRange>,
}

impl RangeAllocator {
    /// Every free range ends within the address space.
    pub open spec fn wf(&self) -> bool {
        all_in_bounds(self.free_ranges@)
    }

    /// An allocator whose whole buffer of `buffer_size` bytes is free.
    pub fn new(buffer_size: u32) -> (r: Self)
        ensures
            r.free_ranges@ == seq![BufferRange { offset: 0, size: buffer_size }],
            r.wf(),
    {
        Self { free_ranges: vec![BufferRange { offset: 0, size: buffer_size }] }
    }

    /// Hands out `size` bytes rounded up to a multiple of 4 from the first free range
    /// big enough, leaving the rest of that range free; `None`, with nothing changed,
    /// when `size` is 0 or no free range is big enough.
    pub fn allocate(&mut self, size: u32) -> (r: Option<BufferRange>)
        requires
            old(self).wf(),
            size <= u32::MAX - 4,
        ensures
            final(self).wf(),
            size == 0 ==> r is None && final(self).free_ranges@ == old(self).free_ranges@,
            size > 0 ==> ({
                let need = ((size + 3) / 4 * 4) as u32;
                let i = first_fit(old(self).free_ranges@, need);
                &&& r is Some <==> i < old(self).free_ranges@.len()
                &&& r is Some ==> r->Some_0 == BufferRange { offset: old(self).free_ranges@[i].offset, size: need }
                    && final(self).free_ranges@ == after_allocation(old(self).free_ranges@, i, need)
                &&& r is None ==> final(self).free_ranges@ == old(self).free_ranges@
            }),
    {
        if size == 0 {
            return None;
        }
        let align = 4u32;
        let aligned_size = ((size + align - 1) / align) * align;
        first_fit_take(&mut self.free_ranges, aligned_size)
    }

    /// Gives `range` back, then sorts the free list by offset and merges ranges that
    /// touch.
    pub fn deallocate(&mut self, range: BufferRange)
        requires
            old(self).wf(),
            ends_in_bounds(range),
        ensures
            final(self).wf(),
            final(self).free_ranges@ == merged(sort_by_offset(old(self).free_ranges@.push(range))),
    {
        self.free_ranges.push(range);
        self.merge_adjacent();
    }

    /// Sorts the free list by offset and merges ranges that touch.
    fn merge_adjacent(&mut self)
        requires
            old(self).wf(),
        ensures
            final(self).wf(),
            final(self).free_ranges@ == merged(sort_by_offset(old(self).free_ranges@)),
    {
        sort_ranges(&mut self.free_ranges);
        proof {
            lemma_sort_keeps_bounds(old(self).free_ranges@);
        }
        merge_runs(&mut self.free_ranges);
    }
}

/// `size` rounded up to a multiple of 4, as the allocator hands it out.
pub open spec fn aligned4(size: u32) -> u32 {
    ((size + 3) / 4 * 4) as u32
}

/// The range that `allocate(size)` hands out of the free list `free`.
pub open spec fn allocation(free: Seq<BufferRange>, size: u32) -> Option<BufferRange> {
    let i = first_fit(free, aligned4(size));
    if size == 0 || i >= free.len() {
        None
    } else {
        Some(BufferRange { offset: free[i].offset, size: aligned4(size) })
    }
}

/// The free list after `allocate(size)`.
pub open spec fn free_after(free: Seq<BufferRange>, size: u32) -> Seq<BufferRange> {
    let i = first_fit(free, aligned4(size));
    if size == 0 || i >= free.len() {
        free
    } else {
        after_allocation(free, i, aligned4(size))
    }
}

/// The free list after `deallocate(range)`.
pub open spec fn free_with(free: Seq<BufferRange>, range: BufferRange) -> Seq<BufferRange> {
    merged(sort_by_offset(free.push(range)))
}

/// A range handed out of a well-formed free list ends within the address space and is
/// at least as large as asked for.
pub proof fn lemma_allocation_in_bounds(free: Seq<BufferRange>, size: u32)
    requires
        all_in_bounds(free),
        size <= u32::MAX - 4,
    ensures
        allocation(free, size) matches Some(r) ==> ends_in_bounds(r) && r.size >= size,
{
    lemma_first_fit(free, aligned4(size));
    let i = first_fit(free, aligned4(size));
    if size != 0 && i < free.len() {
        assert(ends_in_bounds(free[i]));
    }
}

/// A buffer of `buffer_size` bytes whose ranges `range_allocator` hands out; the buffer
/// itself and the writes into it belong to the caller.
#[derive(Clone, Debug)]
pub struct AllocatedBuffer {
    pub range_allocator: RangeAllocator,
    pub buffer_size: u32,
}

impl AllocatedBuffer {
    /// Hands out `size` bytes, as `RangeAllocator::allocate` does.
    pub fn allocate_range(&mut self, size: u32) -> (r: Option<BufferRange>)
        requires
            old(self).range_allocator.wf(),
            size <= u32::MAX - 4,
        ensures
            final(self).range_allocator.wf(),
            final(self).buffer_size == old(self).buffer_size,
            r == allocation(old(self).range_allocator.free_ranges@, size),
            final(self).range_allocator.free_ranges@ == free_after(old(self).range_allocator.free_ranges@, size),
    {
        self.range_allocator.allocate(size)
    }

    /// Gives `range` back, as `RangeAllocator::deallocate` does.
    pub fn deallocate_range(&mut self, range: BufferRange)
        requires
            old(self).range_allocator.wf(),
            ends_in_bounds(range),
        ensures
            final(self).range_allocator.wf(),
            final(self).buffer_size == old(self).buffer_size,
            final(self).range_allocator.free_ranges@ == free_with(old(self).range_allocator.free_ranges@, range),
    {
        self.range_allocator.deallocate(range);
    }

    /// Where a write of `byte_len` bytes into `range` lands in the buffer: its offset,
    /// or `None` when the write would run past the end of the buffer and is skipped.
    pub fn write_buffer(&self, range: &BufferRange, byte_len: usize) -> (r: Option<u64>)
        ensures
            r is Some <==> (if range.offset + byte_len > usize::MAX {
                usize::MAX as int
            } else {
                range.offset + byte_len
            }) <= self.buffer_size,
            r matches Some(o) ==> o == range.offset,
    {
        let end = (range.offset as usize).saturating_add(byte_len);
        let buf_size = self.buffer_size as usize;
        if end > buf_size {
            return None;
        }
        Some(range.offset as u64)
    }
}

/// A range of the buffer waiting to be given back once frame `frame_index` has come.
#[derive(Debug, Clone, Copy)]
pub struct PendingCleanUpRange {
    pub range: BufferRange,
    pub frame_index: u32,
}

/// The size in bytes of an element cut to 32 bits, as the upload computes it.
pub open spec fn element_size<T>() -> u32 {
    (size_of::<T>() % 0x1_0000_0000) as u32
}

/// The byte size of `len` elements, as the upload computes it: the count cut to 32
/// bits, times the element size, saturating.
pub open spec fn total_size<T>(len: nat) -> u32 {
    let n = (len as int % 0x1_0000_0000) as u32;
    if n * element_size::<T>() > u32::MAX {
        u32::MAX
    } else {
        (n * element_size::<T>()) as u32
    }
}

/// The byte length of `len` elements cut to 32 bits.
pub open spec fn byte_len32<T>(len: nat) -> u32 {
    ((len * size_of::<T>()) % 0x1_0000_0000) as u32
}

/// One chunk's data on its way to the GPU: the staged elements, the range the GPU
/// draws from, the range just uploaded and not yet drawn from, and the old ranges
/// waiting some frames before they are given back.
#[derive(Clone, Debug)]
pub struct StagedData<T> {
    pub(crate) staged_data: Vec<T>,
    pub(crate) current_range: Option<BufferRange>,
    next_range: Option<BufferRange>,
    cleanup_queue: VecDeque<PendingCleanUpRange>,
    frame_allocated: u32,
    is_uploaded: bool,
}

impl<T> StagedData<T> {
    /// The staged elements.
    pub closed spec fn staged(&self) -> Seq<T> {
        self.staged_data@
    }

    /// The range the GPU draws from.
    pub closed spec fn current(&self) -> Option<BufferRange> {
        self.current_range
    }

    /// The range uploaded and not yet swapped in.
    pub closed spec fn next(&self) -> Option<BufferRange> {
        self.next_range
    }

    /// The old ranges waiting to be given back, oldest first.
    pub closed spec fn queue(&self) -> Seq<PendingCleanUpRange> {
        self.cleanup_queue@
    }

    /// The frame of the last upload.
    pub closed spec fn allocated_at(&self) -> u32 {
        self.frame_allocated
    }

    /// Whether the staged data has been uploaded.
    pub closed spec fn uploaded(&self) -> bool {
        self.is_uploaded
    }

    /// Every range held ends within the address space.
    pub open spec fn wf(&self) -> bool {
        &&& (self.current() matches Some(r) ==> ends_in_bounds(r))
        &&& (self.next() matches Some(r) ==> ends_in_bounds(r))
        &&& forall|k: int| 0 <= k < self.queue().len() ==> ends_in_bounds(#[trigger] self.queue()[k].range)
    }

    /// Nothing staged, no range, nothing waiting.
    pub fn new() -> (r: Self)
        ensures
            r.wf(),
            r.staged() == Seq::<T>::empty(),
            r.current() is None,
            r.next() is None,
            r.queue() == Seq::<PendingCleanUpRange>::empty(),
            r.allocated_at() == 0,
            !r.uploaded(),
    {
        Self {
            staged_data: Vec::new(),
            current_range: None,
            next_range: None,
            cleanup_queue: VecDeque::new(),
            frame_allocated: 0,
            is_uploaded: false,
        }
    }

    /// The same as `new`.
    pub fn default() -> (r: Self)
        ensures
            r.wf(),
            r.staged() == Seq::<T>::empty(),
            r.current() is None,
            r.next() is None,
            r.queue() == Seq::<PendingCleanUpRange>::empty(),
            r.allocated_at() == 0,
            !r.uploaded(),
    {
        Self::new()
    }

    /// Stages nothing: drops the staged elements and the range waiting to be swapped in.
    pub fn stage_empty(&mut self)
        ensures
            final(self).staged() == Seq::<T>::empty(),
            final(self).next() is None,
            !final(self).uploaded(),
            final(self).current() == old(self).current(),
            final(self).queue() == old(self).queue(),
            final(self).allocated_at() == old(self).allocated_at(),
            old(self).wf() ==> final(self).wf(),
    {
        self.staged_data.clear();
        self.next_range = None;
        self.is_uploaded = false;
    }

    /// Stages a copy of `data` in place of what was staged.
    pub fn stage_data(&mut self, data: &[T])
        where
            T: Copy,
        ensures
            final(self).staged() == data@,
            !final(self).uploaded(),
            final(self).current() == old(self).current(),
            final(self).next() == old(self).next(),
            final(self).queue() == old(self).queue(),
            final(self).allocated_at() == old(self).allocated_at(),
            old(self).wf() ==> final(self).wf(),
    {
        self.staged_data.clear();
        let mut i: usize = 0;
        while i < data.len()
            invariant
                i <= data@.len(),
                self.staged_data@ == data@.take(i as int),
                self.current_range == old(self).current_range,
                self.next_range == old(self).next_range,
                self.cleanup_queue == old(self).cleanup_queue,
                self.frame_allocated == old(self).frame_allocated,
                self.queue() == old(self).queue(),
                self.current() == old(self).current(),
                self.next() == old(self).next(),
            decreases data@.len() - i,
        {
            self.staged_data.push(data[i]);
            i = i + 1;
            proof {
                assert(data@.take(i as int) =~= data@.take(i - 1).push(data@[i - 1]));
            }
        }
        proof {
            assert(data@.take(data@.len() as int) =~= data@);
        }
        self.is_uploaded = false;
    }

    /// Swaps the uploaded range in, queueing the range drawn from until then to be
    /// given back three frames from `current_frame`; `false`, with nothing changed, when
    /// no range waits to be swapped in.
    pub fn try_swap(&mut self, current_frame: u32) -> (r: bool)
        requires
            old(self).next() is Some && old(self).current() is Some ==> current_frame <= u32::MAX - 3,
        ensures
            r == old(self).next() is Some,
            r ==> final(self).current() == old(self).next() && final(self).next() is None && final(self).queue() == (
            match old(self).current() {
                Some(c) => old(self).queue().push(PendingCleanUpRange { range: c, frame_index: (current_frame + 3) as u32 }),
                None => old(self).queue(),
            }),
            !r ==> final(self).current() == old(self).current() && final(self).next() == old(self).next()
                && final(self).queue() == old(self).queue(),
            final(self).staged() == old(self).staged(),
            final(self).uploaded() == old(self).uploaded(),
            final(self).allocated_at() == old(self).allocated_at(),
            old(self).wf() ==> final(self).wf(),
    {
        if let Some(next) = self.next_range.take() {
            if let Some(old) = self.current_range.take() {
                self.cleanup_queue.push_back(
                    PendingCleanUpRange { range: old, frame_index: current_frame + 3 },
                );
            }
            self.current_range = Some(next);
            true
        } else {
            false
        }
    }
}

/// The bytes an upload asks for are the staged elements times the element size,
/// saturating at `u32::MAX`, when both fit in 32 bits; the byte length it checks is that
/// product cut to 32 bits.
pub proof fn lemma_total_size<T>(len: nat)
    ensures
        len < 0x1_0000_0000 && size_of::<T>() < 0x1_0000_0000 ==> total_size::<T>(len) == if len * size_of::<T>()
            > u32::MAX {
            u32::MAX as int
        } else {
            (len * size_of::<T>()) as int
        },
        byte_len32::<T>(len) == (len * size_of::<T>()) % 0x1_0000_0000,
{
}

/// A range handed out for `size` bytes holds at least `size` bytes, a multiple of 4.
pub proof fn lemma_allocation_fits(free: Seq<BufferRange>, size: u32)
    requires
        size <= u32::MAX - 4,
    ensures
        allocation(free, size) matches Some(r) ==> r.size >= size && r.size % 4 == 0 && r.size < size + 4,
{
}

/// What `upload` hands out of the free list `free` for `s`: the range the staged data
/// goes to, or `None` when it is already uploaded, is empty, finds no room, or its byte
/// length does not match its size cut to 32 bits.
pub open spec fn upload_outcome<T>(s: StagedData<T>, free: Seq<BufferRange>) -> Option<BufferRange> {
    let n = s.staged().len();
    let tot = total_size::<T>(n);
    if s.uploaded() || tot == 0 {
        None
    } else {
        match allocation(free, tot) {
            Some(r) => if byte_len32::<T>(n) == tot {
                Some(r)
            } else {
                None
            },
            None => None,
        }
    }
}

/// The free list after `upload` of `s`: the range stays handed out when the upload goes
/// through and is given back when the byte length does not match.
pub open spec fn free_after_upload<T>(s: StagedData<T>, free: Seq<BufferRange>) -> Seq<BufferRange> {
    let n = s.staged().len();
    let tot = total_size::<T>(n);
    if s.uploaded() || tot == 0 {
        free
    } else {
        match allocation(free, tot) {
            Some(r) => if byte_len32::<T>(n) == tot {
                free_after(free, tot)
            } else {
                free_with(free_after(free, tot), r)
            },
            None => free,
        }
    }
}

/// The queue after the range drawn from, if any, joins it at frame `frame + 3`.
pub open spec fn queued_after_swap(q: Seq<PendingCleanUpRange>, current: Option<BufferRange>, frame: u32) -> Seq<
    PendingCleanUpRange,
> {
    match current {
        Some(c) => q.push(PendingCleanUpRange { range: c, frame_index: (frame + 3) as u32 }),
        None => q,
    }
}

impl<T> StagedData<T> {
    /// Allocates a range for the staged data and hands the data out to be written there:
    /// the range becomes the one waiting to be swapped in, the staged list empties, and
    /// the data is marked uploaded. `None`, with `self` unchanged, when the data is
    /// already uploaded, is empty, finds no room, or its byte length does not match its
    /// size cut to 32 bits (the range is then given back).
    pub fn upload(&mut self, global_pool: &mut AllocatedBuffer, current_frame: u32) -> (r: Option<
        (BufferRange, Vec<T>),
    >)
        requires
            old(self).wf(),
            old(global_pool).range_allocator.wf(),
            !old(self).uploaded() ==> total_size::<T>(old(self).staged().len()) <= u32::MAX - 4,
        ensures
            final(self).wf(),
            final(global_pool).range_allocator.wf(),
            final(global_pool).buffer_size == old(global_pool).buffer_size,
            final(global_pool).range_allocator.free_ranges@ == free_after_upload(
                *old(self),
                old(global_pool).range_allocator.free_ranges@,
            ),
            r is Some <==> upload_outcome(*old(self), old(global_pool).range_allocator.free_ranges@) is Some,
            r matches Some(x) ==> Some(x.0) == upload_outcome(*old(self), old(global_pool).range_allocator.free_ranges@)
                && x.1@ == old(self).staged(),
            r is Some ==> final(self).staged() == Seq::<T>::empty() && final(self).next() == Some(r->Some_0.0)
                && final(self).allocated_at() == current_frame && final(self).uploaded() && final(self).current()
                == old(self).current() && final(self).queue() == old(self).queue(),
            r is None ==> *final(self) == *old(self),
            old(self).staged().len() < 0x1_0000_0000 && size_of::<T>() < 0x1_0000_0000 ==> (r matches Some(x)
                ==> x.0.size >= old(self).staged().len() * size_of::<T>() && x.0.size % 4 == 0),
    {
        proof {
            lemma_total_size::<T>(self.staged_data@.len());
            if !self.is_uploaded {
                lemma_allocation_fits(global_pool.range_allocator.free_ranges@, total_size::<T>(self.staged_data@.len()));
            }
        }
        if self.is_uploaded {
            return None;
        }
        let element_size = (std::mem::size_of::<T>() as u64 % 0x1_0000_0000) as u32;
        let count = (self.staged_data.len() as u64 % 0x1_0000_0000) as u32;
        let total_size = match count.checked_mul(element_size) {
            Some(t) => t,
            None => u32::MAX,
        };
        if total_size == 0 {
            return None;
        }
        proof {
            lemma_allocation_in_bounds(global_pool.range_allocator.free_ranges@, total_size);
        }
        if let Some(new_range) = global_pool.allocate_range(total_size) {
            if new_range.size < total_size {
                global_pool.deallocate_range(new_range);
                return None;
            }
            let len_wide = self.staged_data.len() as u128;
            let size_wide = std::mem::size_of::<T>() as u128;
            assert(len_wide * size_wide <= u128::MAX) by (nonlinear_arith)
                requires
                    len_wide <= 0xFFFF_FFFF_FFFF_FFFFu128,
                    size_wide <= 0xFFFF_FFFF_FFFF_FFFFu128,
            ;
            let byte_len = ((len_wide * size_wide) % 0x1_0000_0000) as u32;
            if byte_len != total_size {
                global_pool.deallocate_range(new_range);
                return None;
            }
            let mut data: Vec<T> = Vec::new();
            std::mem::swap(&mut self.staged_data, &mut data);
            self.next_range = Some(new_range);
            self.frame_allocated = current_frame;
            self.is_uploaded = true;
            assert(ends_in_bounds(new_range));
            assert(self.queue() == old(self).queue());
            return Some((new_range, data));
        }
        None
    }
}

/// How many ranges at the front of `q` are due at frame `frame`: those up to the first
/// whose frame has not come.
pub open spec fn due_count(q: Seq<PendingCleanUpRange>, frame: u32) -> nat
    decreases q.len(),
{
    if q.len() > 0 && frame >= q[0].frame_index {
        1 + due_count(q.drop_first(), frame)
    } else {
        0
    }
}

/// The free list after the ranges of `q` are given back one by one, in order.
pub open spec fn give_back(free: Seq<BufferRange>, q: Seq<PendingCleanUpRange>) -> Seq<BufferRange>
    decreases q.len(),
{
    if q.len() == 0 {
        free
    } else {
        give_back(free_with(free, q[0].range), q.drop_first())
    }
}

/// Giving back one more range at the end.
proof fn lemma_give_back_push(free: Seq<BufferRange>, q: Seq<PendingCleanUpRange>, x: PendingCleanUpRange)
    ensures
        give_back(free, q.push(x)) == free_with(give_back(free, q), x.range),
    decreases q.len(),
{
    if q.len() == 0 {
        assert(q.push(x).drop_first() =~= Seq::<PendingCleanUpRange>::empty());
        assert(q.push(x)[0] == x);
        assert(give_back(free_with(free, x.range), Seq::<PendingCleanUpRange>::empty()) == free_with(free, x.range));
    } else {
        assert(q.push(x).drop_first() =~= q.drop_first().push(x));
        assert(q.push(x)[0] == q[0]);
        lemma_give_back_push(free_with(free, q[0].range), q.drop_first(), x);
    }
}

/// The due ranges are exactly the front ones whose frame has come, up to the first
/// whose frame has not.
pub proof fn lemma_due_ranges(q: Seq<PendingCleanUpRange>, frame: u32)
    ensures
        due_count(q, frame) <= q.len(),
        forall|k: int| 0 <= k < due_count(q, frame) ==> frame >= #[trigger] q[k].frame_index,
        due_count(q, frame) < q.len() ==> frame < q[due_count(q, frame) as int].frame_index,
    decreases q.len(),
{
    if q.len() > 0 && frame >= q[0].frame_index {
        lemma_due_ranges(q.drop_first(), frame);
        assert forall|k: int| 0 <= k < due_count(q, frame) implies frame >= #[trigger] q[k].frame_index by {
            if k > 0 {
                assert(q[k] == q.drop_first()[k - 1]);
            }
        }
    }
}

impl<T> StagedData<T> {
    /// Gives back, oldest first, the queued ranges whose frame has come by
    /// `current_frame`, stopping at the first whose frame has not.
    pub fn cleanup_old_ranges(&mut self, global_pool: &mut AllocatedBuffer, current_frame: u32)
        requires
            old(self).wf(),
            old(global_pool).range_allocator.wf(),
        ensures
            final(self).wf(),
            final(global_pool).range_allocator.wf(),
            final(global_pool).buffer_size == old(global_pool).buffer_size,
            final(self).queue() == old(self).queue().skip(due_count(old(self).queue(), current_frame) as int),
            final(global_pool).range_allocator.free_ranges@ == give_back(
                old(global_pool).range_allocator.free_ranges@,
                old(self).queue().take(due_count(old(self).queue(), current_frame) as int),
            ),
            final(self).staged() == old(self).staged(),
            final(self).current() == old(self).current(),
            final(self).next() == old(self).next(),
            final(self).allocated_at() == old(self).allocated_at(),
            final(self).uploaded() == old(self).uploaded(),
    {
        let ghost q0 = self.cleanup_queue@;
        let ghost free0 = global_pool.range_allocator.free_ranges@;
        let ghost mut j: int = 0;
        proof {
            lemma_due_ranges(q0, current_frame);
            assert(q0 == old(self).queue());
            assert(q0.skip(0) =~= q0);
            assert(q0.take(0) =~= Seq::<PendingCleanUpRange>::empty());
        }
        while self.cleanup_queue.len() > 0 && current_frame >= self.cleanup_queue[0].frame_index
            invariant
                0 <= j <= due_count(q0, current_frame),
                due_count(q0, current_frame) <= q0.len(),
                forall|k: int| 0 <= k < due_count(q0, current_frame) ==> current_frame >= #[trigger] q0[k].frame_index,
                due_count(q0, current_frame) < q0.len() ==> current_frame < q0[due_count(q0, current_frame) as int].frame_index,
                self.cleanup_queue@ == q0.skip(j),
                forall|k: int| 0 <= k < q0.len() ==> ends_in_bounds(#[trigger] q0[k].range),
                global_pool.range_allocator.wf(),
                global_pool.buffer_size == old(global_pool).buffer_size,
                global_pool.range_allocator.free_ranges@ == give_back(free0, q0.take(j)),
                self.staged() == old(self).staged(),
                self.current() == old(self).current(),
                self.next() == old(self).next(),
                self.allocated_at() == old(self).allocated_at(),
                self.uploaded() == old(self).uploaded(),
                q0 == old(self).queue(),
                free0 == old(global_pool).range_allocator.free_ranges@,
                old(self).wf(),
            decreases q0.len() - j,
        {
            proof {
                assert(self.cleanup_queue@[0] == q0[j]);
                if j >= due_count(q0, current_frame) {
                    assert(j == due_count(q0, current_frame));
                }
            }
            match self.cleanup_queue.pop_front() {
                Some(cleanup) => {
                    proof {
                        lemma_give_back_push(free0, q0.take(j), q0[j]);
                        assert(q0.take(j + 1) =~= q0.take(j).push(q0[j]));
                        assert(q0.skip(j).subrange(1, q0.skip(j).len() as int) =~= q0.skip(j + 1));
                    }
                    global_pool.deallocate_range(cleanup.range);
                    proof {
                        j = j + 1;
                    }
                },
                None => {},
            }
        }
        proof {
            if j < due_count(q0, current_frame) {
                assert(self.cleanup_queue@.len() > 0 && self.cleanup_queue@[0] == q0[j]);
            }
            assert forall|k: int| 0 <= k < self.queue().len() implies ends_in_bounds(#[trigger] self.queue()[k].range) by {
                assert(self.queue()[k] == q0[k + j]);
            }
        }
    }

    /// Uploads, and when that goes through swaps the new range in at once: the range
    /// drawn from until then joins the queue for frame `current_frame + 3`.
    pub fn flush(&mut self, global_pool: &mut AllocatedBuffer, current_frame: u32) -> (r: Option<
        (BufferRange, Vec<T>),
    >)
        requires
            old(self).wf(),
            old(global_pool).range_allocator.wf(),
            !old(self).uploaded() ==> total_size::<T>(old(self).staged().len()) <= u32::MAX - 4,
            old(self).current() is Some ==> current_frame <= u32::MAX - 3,
        ensures
            final(self).wf(),
            final(global_pool).range_allocator.wf(),
            final(global_pool).buffer_size == old(global_pool).buffer_size,
            final(global_pool).range_allocator.free_ranges@ == free_after_upload(
                *old(self),
                old(global_pool).range_allocator.free_ranges@,
            ),
            r is Some <==> upload_outcome(*old(self), old(global_pool).range_allocator.free_ranges@) is Some,
            r matches Some(x) ==> Some(x.0) == upload_outcome(*old(self), old(global_pool).range_allocator.free_ranges@)
                && x.1@ == old(self).staged(),
            r is Some ==> final(self).staged() == Seq::<T>::empty() && final(self).current() == Some(r->Some_0.0)
                && final(self).next() is None && final(self).allocated_at() == current_frame && final(self).uploaded()
                && final(self).queue() == queued_after_swap(old(self).queue(), old(self).current(), current_frame),
            r is None ==> *final(self) == *old(self),
    {
        match self.upload(global_pool, current_frame) {
            Some(uploaded) => {
                if self.try_swap(current_frame) {
                    Some(uploaded)
                } else {
                    None
                }
            },
            None => None,
        }
    }

    /// The range the GPU draws from.
    pub fn current_range(&self) -> (r: Option<BufferRange>)
        ensures
            r == self.current(),
    {
        self.current_range
    }

    /// The first element and the number of elements of the range drawn from, counted
    /// in elements.
    pub fn draw_range(&self) -> (r: Option<(u32, u32)>)
        requires
            element_size::<T>() != 0,
        ensures
            r == match self.current() {
                Some(range) => Some(
                    ((range.offset / element_size::<T>()) as u32, (range.size / element_size::<T>()) as u32),
                ),
                None => None,
            },
    {
        match self.current_range {
            Some(range) => {
                let element_size = (std::mem::size_of::<T>() as u64 % 0x1_0000_0000) as u32;
                Some((range.offset / element_size, range.size / element_size))
            },
            None => None,
        }
    }
}

/// A range swapped out at frame `frame` is not given back by a cleanup at any frame
/// before `frame + 3`: the cleanup stops before it.
pub proof fn lemma_swapped_range_waits(q: Seq<PendingCleanUpRange>, old_range: BufferRange, frame: u32, cleanup_frame: u32)
    requires
        frame <= u32::MAX - 3,
        cleanup_frame < frame + 3,
    ensures
        due_count(queued_after_swap(q, Some(old_range), frame), cleanup_frame) <= q.len(),
{
    let q2 = queued_after_swap(q, Some(old_range), frame);
    lemma_due_ranges(q2, cleanup_frame);
    if due_count(q2, cleanup_frame) > q.len() {
        assert(cleanup_frame >= q2[q.len() as int].frame_index);
    }
}

} // verus!
