//! First-fit allocation of ranges of a GPU buffer, with freed ranges merged back
//! together.

use std::collections::VecDeque;

use vstd::layout::size_of;
use vstd::prelude::*;

use crate::voxels::constants::VoxelInstance;
use crate::voxels::index::index::ChunkIndex;

verus! {

/// A range of a buffer: `size` bytes from `offset`.
#[derive(Debug, Clone, Copy, PartialEq, Eq, Structural)]
pub struct BufferRange {
    pub offset: u32,
    pub size: u32,
}

/// The range ends within the `u32` address space.
pub open spec fn ends_in_bounds(r: BufferRange) -> bool {
    r.offset + r.size <= u32::MAX
}

/// Every range ends within the `u32` address space.
pub open spec fn all_in_bounds(s: Seq<BufferRange>) -> bool {
    forall|i: int| 0 <= i < s.len() ==> ends_in_bounds(#[trigger] s[i])
}

/// The ranges are in order of offset.
pub open spec fn sorted_by_offset(s: Seq<BufferRange>) -> bool {
    forall|i: int, j: int| 0 <= i < j < s.len() ==> #[trigger] s[i].offset <= #[trigger] s[j].offset
}

/// `x` put into `s` after every range whose offset is not above its own.
pub open spec fn insert_by_offset(s: Seq<BufferRange>, x: BufferRange) -> Seq<BufferRange>
    decreases s.len(),
{
    if s.len() == 0 {
        seq![x]
    } else if s.last().offset <= x.offset {
        s.push(x)
    } else {
        insert_by_offset(s.drop_last(), x).push(s.last())
    }
}

/// `s` sorted by offset, ranges of equal offset kept in their order.
pub open spec fn sort_by_offset(s: Seq<BufferRange>) -> Seq<BufferRange>
    decreases s.len(),
{
    if s.len() == 0 {
        s
    } else {
        insert_by_offset(sort_by_offset(s.drop_last()), s.last())
    }
}

/// `s` with every range that starts where the one before it (after merging) ends
/// merged into that one, from the front.
pub open spec fn merged(s: Seq<BufferRange>) -> Seq<BufferRange>
    decreases s.len(),
{
    if s.len() == 0 {
        s
    } else {
        let m = merged(s.drop_last());
        let x = s.last();
        if m.len() > 0 && m.last().offset + m.last().size == x.offset {
            m.drop_last().push(BufferRange { offset: m.last().offset, size: (m.last().size + x.size) as u32 })
        } else {
            m.push(x)
        }
    }
}

/// The index of the first range of at least `need` bytes, or the length when there is
/// none.
pub open spec fn first_fit(s: Seq<BufferRange>, need: u32) -> int
    decreases s.len(),
{
    if s.len() == 0 {
        0
    } else if s[0].size >= need {
        0
    } else {
        1 + first_fit(s.drop_first(), need)
    }
}

/// The free list after handing out `need` bytes from the range at `i`: the range
/// leaves the list, and what it had beyond `need` bytes goes to the end.
pub open spec fn after_allocation(s: Seq<BufferRange>, i: int, need: u32) -> Seq<BufferRange> {
    let r = s[i];
    if r.size > need {
        s.remove(i).push(BufferRange { offset: (r.offset + need) as u32, size: (r.size - need) as u32 })
    } else {
        s.remove(i)
    }
}

/// `first_fit` is the first range big enough, or there is none.
pub proof fn lemma_first_fit(s: Seq<BufferRange>, need: u32)
    ensures
        0 <= first_fit(s, need) <= s.len(),
        first_fit(s, need) < s.len() ==> s[first_fit(s, need)].size >= need,
        forall|j: int| 0 <= j < first_fit(s, need) ==> #[trigger] s[j].size < need,
    decreases s.len(),
{
    if s.len() > 0 && s[0].size < need {
        lemma_first_fit(s.drop_first(), need);
        assert forall|j: int| 0 <= j < first_fit(s, need) implies #[trigger] s[j].size < need by {
            if j > 0 {
                assert(s[j] == s.drop_first()[j - 1]);
            }
        }
    }
}

/// Inserting into a sorted sequence puts `x` before the first range whose offset is
/// above its own, and keeps the sequence sorted.
proof fn lemma_insert_by_offset(s: Seq<BufferRange>, x: BufferRange, p: int)
    requires
        sorted_by_offset(s),
        0 <= p <= s.len(),
        forall|j: int| 0 <= j < p ==> #[trigger] s[j].offset <= x.offset,
        p < s.len() ==> s[p].offset > x.offset,
    ensures
        insert_by_offset(s, x) == s.insert(p, x),
        sorted_by_offset(s.insert(p, x)),
    decreases s.len(),
{
    if s.len() == 0 {
        assert(s.insert(p, x) =~= seq![x]);
    } else if s.last().offset <= x.offset {
        assert(p == s.len()) by {
            if p < s.len() {
                assert(s[p].offset <= s.last().offset);
            }
        }
        assert(s.insert(p, x) =~= s.push(x));
    } else {
        assert(p < s.len());
        let t = s.drop_last();
        assert forall|j: int| 0 <= j < p implies #[trigger] t[j].offset <= x.offset by {
            assert(t[j] == s[j]);
        }
        if p < t.len() {
            assert(t[p] == s[p]);
        }
        lemma_insert_by_offset(t, x, p);
        assert(s.insert(p, x) =~= t.insert(p, x).push(s.last()));
    }
    assert forall|i: int, j: int| 0 <= i < j < s.insert(p, x).len() implies #[trigger] s.insert(p, x)[i].offset
        <= #[trigger] s.insert(p, x)[j].offset by {
        let u = s.insert(p, x);
        if i < p && j < p {
        } else if i < p && j == p {
        } else if i < p {
            assert(u[j] == s[j - 1]);
        } else if i == p {
            assert(u[j] == s[j - 1]);
            assert(s[p].offset <= s[j - 1].offset);
        } else {
            assert(u[i] == s[i - 1] && u[j] == s[j - 1]);
        }
    }
}

/// Puts `x` into the sorted vector `v` after every range whose offset is not above
/// its own.
fn insert_sorted(v: &mut Vec<BufferRange>, x: BufferRange)
    requires
        sorted_by_offset(old(v)@),
    ensures
        final(v)@ == insert_by_offset(old(v)@, x),
        sorted_by_offset(final(v)@),
{
    let mut p: usize = 0;
    while p < v.len() && v[p].offset <= x.offset
        invariant
            p <= v@.len(),
            forall|j: int| 0 <= j < p ==> #[trigger] v@[j].offset <= x.offset,
        decreases v@.len() - p,
    {
        p = p + 1;
    }
    proof {
        lemma_insert_by_offset(v@, x, p as int);
    }
    v.insert(p, x);
}

/// Sorts the ranges by offset, keeping ranges of equal offset in their order.
pub(crate) fn sort_ranges(v: &mut Vec<BufferRange>)
    ensures
        final(v)@ == sort_by_offset(old(v)@),
{
    let mut out: Vec<BufferRange> = Vec::new();
    let mut i: usize = 0;
    while i < v.len()
        invariant
            i <= v@.len(),
            v@ == old(v)@,
            out@ == sort_by_offset(v@.take(i as int)),
            sorted_by_offset(out@),
        decreases v@.len() - i,
    {
        proof {
            assert(v@.take(i + 1).drop_last() =~= v@.take(i as int));
        }
        insert_sorted(&mut out, v[i]);
        i = i + 1;
    }
    proof {
        assert(v@.take(i as int) =~= v@);
    }
    *v = out;
}

/// Merges every range into the one before it where that one ends where it starts.
pub(crate) fn merge_runs(v: &mut Vec<BufferRange>)
    requires
        all_in_bounds(old(v)@),
    ensures
        final(v)@ == merged(old(v)@),
        all_in_bounds(final(v)@),
{
    let ghost s = v@;
    if v.len() == 0 {
        return;
    }
    proof {
        assert(s.take(1).drop_last() =~= Seq::<BufferRange>::empty());
        assert(merged(s.take(1).drop_last()) =~= Seq::<BufferRange>::empty());
        assert(merged(s.take(1)) =~= seq![s[0]]);
        assert(v@ =~= merged(s.take(1)) + s.skip(1));
    }
    let mut i: usize = 0;
    let ghost mut j: int = 1;
    while i < v.len().saturating_sub(1)
        invariant
            1 <= j <= s.len(),
            all_in_bounds(s),
            v@ == merged(s.take(j)) + s.skip(j),
            merged(s.take(j)).len() == i + 1,
            all_in_bounds(v@),
        decreases s.len() - j,
    {
        let current = v[i];
        let next = v[i + 1];
        proof {
            assert(next == s[j]);
            assert(s.take(j + 1).drop_last() =~= s.take(j));
            assert(s.take(j + 1).last() == s[j]);
            assert(ends_in_bounds(v@[i as int]) && ends_in_bounds(v@[i + 1]));
        }
        if current.offset + current.size == next.offset {
            v.set(i, BufferRange { offset: current.offset, size: current.size + next.size });
            v.remove(i + 1);
            proof {
                assert(v@ =~= merged(s.take(j + 1)) + s.skip(j + 1));
                j = j + 1;
            }
        } else {
            i = i + 1;
            proof {
                assert(v@ =~= merged(s.take(j + 1)) + s.skip(j + 1));
                j = j + 1;
            }
        }
    }
    proof {
        assert(j == s.len());
        assert(s.take(j) =~= s);
        assert(v@ =~= merged(s));
    }
}

/// A free list of buffer ranges, handed out first fit.
#[derive(Clone)]
pub struct RangeAllocator {
    _buffer_size: u32,
    free_ranges: Vec<BufferRange>,
}

impl RangeAllocator {
    /// The free ranges, in list order.
    pub closed spec fn free(&self) -> Seq<BufferRange> {
        self.free_ranges@
    }

    /// Every free range ends within the address space.
    pub open spec fn wf(&self) -> bool {
        all_in_bounds(self.free())
    }

    /// An allocator whose whole buffer of `_buffer_size` bytes is free.
    pub fn new(_buffer_size: u32) -> (r: Self)
        ensures
            r.free() == seq![BufferRange { offset: 0, size: _buffer_size }],
            r.wf(),
    {
        Self { _buffer_size, free_ranges: vec![BufferRange { offset: 0, size: _buffer_size }] }
    }

    /// Hands out `size` bytes rounded up to a multiple of 256 from the first free range
    /// big enough, leaving the rest of that range free; `None`, with nothing changed,
    /// when no free range is big enough.
    pub fn allocate(&mut self, size: u32) -> (r: Option<BufferRange>)
        requires
            old(self).wf(),
            size <= u32::MAX - 255,
        ensures
            final(self).wf(),
            ({
                let need = ((size + 255) / 256 * 256) as u32;
                let i = first_fit(old(self).free(), need);
                &&& r is Some <==> i < old(self).free().len()
                &&& r is Some ==> r->Some_0 == BufferRange { offset: old(self).free()[i].offset, size: need }
                    && final(self).free() == after_allocation(old(self).free(), i, need)
                &&& r is None ==> final(self).free() == old(self).free()
            }),
    {
        proof {
            lemma_round_up_256(size);
        }
        let aligned_size = (size + 255) & !255u32;
        proof {
            lemma_first_fit(self.free_ranges@, aligned_size);
        }
        first_fit_take(&mut self.free_ranges, aligned_size)
    }

    /// Gives `range` back, then sorts the free list by offset and merges ranges that
    /// touch.
    pub fn deallocate(&mut self, range: BufferRange)
        requires
            old(self).wf(),
            ends_in_bounds(range),
        ensures
            final(self).wf(),
            final(self).free() == merged(sort_by_offset(old(self).free().push(range))),
    {
        self.free_ranges.push(range);
        self.merge_adjacent();
    }

    /// Sorts the free list by offset and merges ranges that touch.
    fn merge_adjacent(&mut self)
        requires
            old(self).wf(),
        ensures
            final(self).wf(),
            final(self).free() == merged(sort_by_offset(old(self).free())),
    {
        sort_ranges(&mut self.free_ranges);
        proof {
            lemma_sort_keeps_bounds(old(self).free());
        }
        merge_runs(&mut self.free_ranges);
    }
}

/// Rounding up to a multiple of 256 with a mask.
proof fn lemma_round_up_256(size: u32)
    requires
        size <= u32::MAX - 255,
    ensures
        ((size + 255) as u32) & !255u32 == (size + 255) / 256 * 256,
{
    assert(((size + 255) as u32) & !255u32 == (size + 255) / 256 * 256) by (bit_vector)
        requires
            size <= u32::MAX - 255,
    ;
}

/// Takes `need` bytes from the first range of `v` big enough, as
/// `RangeAllocator::allocate` does.
pub(crate) fn first_fit_take(v: &mut Vec<BufferRange>, need: u32) -> (r: Option<BufferRange>)
    requires
        all_in_bounds(old(v)@),
    ensures
        all_in_bounds(final(v)@),
        ({
            let i = first_fit(old(v)@, need);
            &&& r is Some <==> i < old(v)@.len()
            &&& r is Some ==> r->Some_0 == BufferRange { offset: old(v)@[i].offset, size: need } && final(v)@
                == after_allocation(old(v)@, i, need)
            &&& r is None ==> final(v)@ == old(v)@
        }),
{
    proof {
        lemma_first_fit(v@, need);
    }
    let mut i: usize = 0;
    while i < v.len()
        invariant
            i <= v@.len(),
            v@ == old(v)@,
            all_in_bounds(v@),
            forall|j: int| 0 <= j < i ==> #[trigger] v@[j].size < need,
            0 <= first_fit(v@, need) <= v@.len(),
            first_fit(v@, need) < v@.len() ==> v@[first_fit(v@, need)].size >= need,
            forall|j: int| 0 <= j < first_fit(v@, need) ==> #[trigger] v@[j].size < need,
        decreases v@.len() - i,
    {
        if v[i].size >= need {
            let ghost s = v@;
            let range = v.remove(i);
            proof {
                assert(first_fit(s, need) == i as int) by {
                    if first_fit(s, need) < i {
                        assert(s[first_fit(s, need)].size < need);
                    }
                }
                assert(ends_in_bounds(s[i as int]));
            }
            if range.size > need {
                v.push(BufferRange { offset: range.offset + need, size: range.size - need });
            }
            return Some(BufferRange { offset: range.offset, size: need });
        }
        i = i + 1;
    }
    proof {
        assert(first_fit(v@, need) == v@.len()) by {
            if first_fit(v@, need) < v@.len() {
                assert(v@[first_fit(v@, need)].size < need);
            }
        }
    }
    None
}

/// Sorting keeps every range, so every range still ends within the address space.
pub(crate) proof fn lemma_sort_keeps_bounds(s: Seq<BufferRange>)
    requires
        all_in_bounds(s),
    ensures
        all_in_bounds(sort_by_offset(s)),
    decreases s.len(),
{
    if s.len() > 0 {
        lemma_sort_keeps_bounds(s.drop_last());
        lemma_insert_keeps_bounds(sort_by_offset(s.drop_last()), s.last());
    }
}

/// Inserting a range that ends within the address space keeps every range so.
proof fn lemma_insert_keeps_bounds(s: Seq<BufferRange>, x: BufferRange)
    requires
        all_in_bounds(s),
        ends_in_bounds(x),
    ensures
        all_in_bounds(insert_by_offset(s, x)),
    decreases s.len(),
{
    if s.len() > 0 && s.last().offset > x.offset {
        lemma_insert_keeps_bounds(s.drop_last(), x);
    }
}

/// The number of bytes in the ranges.
pub open spec fn free_bytes(s: Seq<BufferRange>) -> int
    decreases s.len(),
{
    if s.len() == 0 {
        0
    } else {
        free_bytes(s.drop_last()) + s.last().size
    }
}

/// No range starts where the one before it ends.
pub open spec fn separated(s: Seq<BufferRange>) -> bool {
    forall|i: int| 0 <= i < s.len() - 1 ==> #[trigger] s[i].offset + s[i].size != s[i + 1].offset
}

/// Removing range `i` takes its bytes away.
proof fn lemma_remove_bytes(s: Seq<BufferRange>, i: int)
    requires
        0 <= i < s.len(),
    ensures
        free_bytes(s.remove(i)) == free_bytes(s) - s[i].size,
    decreases s.len(),
{
    if i < s.len() - 1 {
        lemma_remove_bytes(s.drop_last(), i);
        assert(s.remove(i).drop_last() =~= s.drop_last().remove(i));
        assert(s.remove(i).last() == s.last());
    } else {
        assert(s.remove(i) =~= s.drop_last());
    }
}

/// Inserting a range adds its bytes.
proof fn lemma_insert_bytes(s: Seq<BufferRange>, x: BufferRange)
    ensures
        free_bytes(insert_by_offset(s, x)) == free_bytes(s) + x.size,
    decreases s.len(),
{
    if s.len() == 0 {
        assert(seq![x].drop_last() =~= Seq::<BufferRange>::empty());
        assert(free_bytes(seq![x].drop_last()) == 0);
        assert(free_bytes(seq![x]) == x.size);
    } else if s.last().offset <= x.offset {
        assert(s.push(x).drop_last() =~= s);
    } else {
        lemma_insert_bytes(s.drop_last(), x);
        assert(insert_by_offset(s.drop_last(), x).push(s.last()).drop_last() =~= insert_by_offset(
            s.drop_last(),
            x,
        ));
    }
}

/// Sorting keeps the bytes.
proof fn lemma_sort_bytes(s: Seq<BufferRange>)
    ensures
        free_bytes(sort_by_offset(s)) == free_bytes(s),
    decreases s.len(),
{
    if s.len() > 0 {
        lemma_sort_bytes(s.drop_last());
        lemma_insert_bytes(sort_by_offset(s.drop_last()), s.last());
    }
}

/// The sort is sorted.
proof fn lemma_sort_sorted(s: Seq<BufferRange>)
    ensures
        sorted_by_offset(sort_by_offset(s)),
        sort_by_offset(s).len() == s.len(),
    decreases s.len(),
{
    if s.len() > 0 {
        lemma_sort_sorted(s.drop_last());
        let t = sort_by_offset(s.drop_last());
        let x = s.last();
        let p = choose_position(t, x);
        lemma_insert_by_offset(t, x, p);
    }
}

/// The place `insert_by_offset` puts `x` in the sorted `t`.
proof fn choose_position(t: Seq<BufferRange>, x: BufferRange) -> (p: int)
    requires
        sorted_by_offset(t),
    ensures
        0 <= p <= t.len(),
        forall|j: int| 0 <= j < p ==> #[trigger] t[j].offset <= x.offset,
        p < t.len() ==> t[p].offset > x.offset,
    decreases t.len(),
{
    if t.len() == 0 || t[0].offset > x.offset {
        0
    } else {
        let q = choose_position(t.drop_first(), x);
        assert forall|j: int| 0 <= j < q + 1 implies #[trigger] t[j].offset <= x.offset by {
            if j > 0 {
                assert(t[j] == t.drop_first()[j - 1]);
            }
        }
        if q + 1 < t.len() {
            assert(t[q + 1] == t.drop_first()[q]);
        }
        q + 1
    }
}

/// Merging a sorted list of ranges that end within the address space keeps their
/// bytes and their order, and leaves no range starting where the one before it ends.
proof fn lemma_merged(s: Seq<BufferRange>)
    requires
        sorted_by_offset(s),
        all_in_bounds(s),
    ensures
        free_bytes(merged(s)) == free_bytes(s),
        all_in_bounds(merged(s)),
        sorted_by_offset(merged(s)),
        separated(merged(s)),
        s.len() > 0 ==> merged(s).len() > 0 && merged(s)[0].offset == s[0].offset,
        s.len() > 0 ==> merged(s).last().offset <= s.last().offset,
    decreases s.len(),
{
    if s.len() > 0 {
        let t = s.drop_last();
        assert(sorted_by_offset(t));
        assert(all_in_bounds(t));
        lemma_merged(t);
        let m = merged(t);
        let x = s.last();
        if m.len() > 0 {
            assert(m.last().offset <= t.last().offset);
            assert(t.last().offset <= x.offset) by {
                assert(t.last() == s[s.len() - 2]);
            }
        }
        if m.len() > 0 && m.last().offset + m.last().size == x.offset {
            let y = BufferRange { offset: m.last().offset, size: (m.last().size + x.size) as u32 };
            assert(ends_in_bounds(m.last()));
            assert(ends_in_bounds(x));
            assert(merged(s) == m.drop_last().push(y));
            assert(m.drop_last().push(y).drop_last() =~= m.drop_last());
            assert(free_bytes(m) == free_bytes(m.drop_last()) + m.last().size);
            assert forall|i: int, j: int| 0 <= i < j < merged(s).len() implies #[trigger] merged(s)[i].offset
                <= #[trigger] merged(s)[j].offset by {
                if j == merged(s).len() - 1 {
                    assert(merged(s)[j].offset == m[j].offset);
                }
            }
            assert forall|i: int| 0 <= i < merged(s).len() - 1 implies #[trigger] merged(s)[i].offset
                + merged(s)[i].size != merged(s)[i + 1].offset by {
                assert(merged(s)[i] == m[i]);
                if i + 1 < merged(s).len() - 1 {
                    assert(merged(s)[i + 1] == m[i + 1]);
                } else {
                    assert(merged(s)[i + 1].offset == m[i + 1].offset);
                }
            }
            if m.len() == 1 {
                assert(merged(s)[0].offset == m[0].offset);
            } else {
                assert(merged(s)[0] == m[0]);
            }
        } else {
            assert(merged(s) == m.push(x));
            assert(m.push(x).drop_last() =~= m);
            assert forall|i: int| 0 <= i < merged(s).len() - 1 implies #[trigger] merged(s)[i].offset
                + merged(s)[i].size != merged(s)[i + 1].offset by {
                assert(merged(s)[i] == m[i]);
                if i + 1 < merged(s).len() - 1 {
                    assert(merged(s)[i + 1] == m[i + 1]);
                }
            }
            if m.len() == 0 {
                assert(t.len() == 0);
            }
        }
    }
}

/// Allocating from a free range takes exactly the bytes handed out.
pub proof fn lemma_allocation_accounts(s: Seq<BufferRange>, need: u32)
    requires
        first_fit(s, need) < s.len(),
    ensures
        free_bytes(after_allocation(s, first_fit(s, need), need)) == free_bytes(s) - need,
{
    lemma_first_fit(s, need);
    let i = first_fit(s, need);
    lemma_remove_bytes(s, i);
    if s[i].size > need {
        let rest = BufferRange { offset: (s[i].offset + need) as u32, size: (s[i].size - need) as u32 };
        assert(s.remove(i).push(rest).drop_last() =~= s.remove(i));
    }
}

/// Giving a range back adds exactly its bytes, and leaves the free list in order of
/// offset with no range starting where the one before it ends.
pub proof fn lemma_deallocation_accounts(s: Seq<BufferRange>, range: BufferRange)
    requires
        all_in_bounds(s),
        ends_in_bounds(range),
    ensures
        free_bytes(merged(sort_by_offset(s.push(range)))) == free_bytes(s) + range.size,
        sorted_by_offset(merged(sort_by_offset(s.push(range)))),
        separated(merged(sort_by_offset(s.push(range)))),
{
    let t = s.push(range);
    assert(all_in_bounds(t));
    assert(t.drop_last() =~= s);
    lemma_sort_bytes(t);
    lemma_sort_sorted(t);
    lemma_sort_keeps_bounds(t);
    lemma_merged(sort_by_offset(t));
}

/// `size` rounded up to a multiple of 256, as the allocator hands it out.
pub open spec fn aligned256(size: u32) -> u32 {
    ((size + 255) / 256 * 256) as u32
}

/// The range that `allocate(size)` hands out of the free list `free`.
pub open spec fn allocation256(free: Seq<BufferRange>, size: u32) -> Option<BufferRange> {
    let i = first_fit(free, aligned256(size));
    if i >= free.len() {
        None
    } else {
        Some(BufferRange { offset: free[i].offset, size: aligned256(size) })
    }
}

/// The free list after `allocate(size)`.
pub open spec fn free_after256(free: Seq<BufferRange>, size: u32) -> Seq<BufferRange> {
    let i = first_fit(free, aligned256(size));
    if i >= free.len() {
        free
    } else {
        after_allocation(free, i, aligned256(size))
    }
}

/// The free list after the ranges `ranges` are given back one by one, in order.
pub open spec fn give_back_ranges(free: Seq<BufferRange>, ranges: Seq<BufferRange>) -> Seq<BufferRange>
    decreases ranges.len(),
{
    if ranges.len() == 0 {
        free
    } else {
        give_back_ranges(merged(sort_by_offset(free.push(ranges[0]))), ranges.drop_first())
    }
}

/// Giving back one more range at the end.
pub proof fn lemma_give_back_ranges_push(free: Seq<BufferRange>, ranges: Seq<BufferRange>, r: BufferRange)
    ensures
        give_back_ranges(free, ranges.push(r)) == merged(sort_by_offset(give_back_ranges(free, ranges).push(r))),
    decreases ranges.len(),
{
    if ranges.len() == 0 {
        assert(ranges.push(r).drop_first() =~= Seq::<BufferRange>::empty());
        assert(ranges.push(r)[0] == r);
        assert(give_back_ranges(merged(sort_by_offset(free.push(r))), Seq::<BufferRange>::empty()) == merged(
            sort_by_offset(free.push(r)),
        ));
    } else {
        assert(ranges.push(r).drop_first() =~= ranges.drop_first().push(r));
        assert(ranges.push(r)[0] == ranges[0]);
        lemma_give_back_ranges_push(merged(sort_by_offset(free.push(ranges[0]))), ranges.drop_first(), r);
    }
}

/// How many frames at the front of `frames` have come by `frame`, up to the first that
/// has not.
pub open spec fn due_frames(frames: Seq<u32>, frame: u32) -> nat
    decreases frames.len(),
{
    if frames.len() > 0 && frame >= frames[0] {
        1 + due_frames(frames.drop_first(), frame)
    } else {
        0
    }
}

/// The due frames are exactly the front ones that have come, up to the first that has
/// not.
pub proof fn lemma_due_frames(frames: Seq<u32>, frame: u32)
    ensures
        due_frames(frames, frame) <= frames.len(),
        forall|k: int| 0 <= k < due_frames(frames, frame) ==> frame >= #[trigger] frames[k],
        due_frames(frames, frame) < frames.len() ==> frame < frames[due_frames(frames, frame) as int],
    decreases frames.len(),
{
    if frames.len() > 0 && frame >= frames[0] {
        lemma_due_frames(frames.drop_first(), frame);
        assert forall|k: int| 0 <= k < due_frames(frames, frame) implies frame >= #[trigger] frames[k] by {
            if k > 0 {
                assert(frames[k] == frames.drop_first()[k - 1]);
            }
        }
    }
}

/// One indirect draw: `instance_count` instances of `vertex_count` vertices, the first
/// instance at `first_instance`.
#[derive(Clone, Copy, Debug, Default, PartialEq, Eq, Structural)]
pub struct DrawIndirectCommand {
    pub vertex_count: u32,
    pub instance_count: u32,
    pub first_vertex: u32,
    pub first_instance: u32,
}

/// The draw commands of one chunk.
#[derive(Clone, Debug, Default)]
pub struct IndirectDrawBuffer {
    pub buffer: Vec<DrawIndirectCommand>,
}

impl IndirectDrawBuffer {
    /// Adds `command` at the end.
    pub fn push(&mut self, command: DrawIndirectCommand)
        ensures
            final(self).buffer@ == old(self).buffer@.push(command),
    {
        self.buffer.push(command);
    }

    /// Drops every command.
    pub fn clear(&mut self)
        ensures
            final(self).buffer@ == Seq::<DrawIndirectCommand>::empty(),
    {
        self.buffer.clear();
    }

    /// The commands, in order.
    pub fn iter(&self) -> (r: &[DrawIndirectCommand])
        ensures
            r@ == self.buffer@,
    {
        self.buffer.as_slice()
    }
}

/// What an instance tells the shader: its chunk and its face direction.
#[derive(Clone, Copy, Debug, PartialEq, Eq, Structural)]
pub struct InstanceMetaBuffer {
    pub chunk_index: u32,
    pub face_id: u32,
}

impl InstanceMetaBuffer {
    /// Chunk 0, face 0.
    pub fn default() -> (r: Self)
        ensures
            r == (InstanceMetaBuffer { chunk_index: 0, face_id: 0 }),
    {
        Self { chunk_index: 0, face_id: 0 }
    }
}

/// The frame number, counting up.
#[derive(Clone, Copy, Debug, Default, PartialEq, Eq, Structural)]
pub struct FrameCounter(pub u32);

impl FrameCounter {
    /// Frame 0.
    pub fn new() -> (r: Self)
        ensures
            r.0 == 0,
    {
        Self(0)
    }

    /// The current frame.
    pub fn current_frame(&self) -> (r: u32)
        ensures
            r == self.0,
    {
        self.0
    }

    /// Moves on to the next frame.
    pub fn advance_frame(&mut self)
        requires
            old(self).0 < u32::MAX,
        ensures
            final(self).0 == old(self).0 + 1,
    {
        self.0 += 1
    }
}

/// The shared instance buffer of `buffer_size` bytes, whose ranges `range_allocator`
/// hands out to the chunks; the buffer itself and the writes into it belong to the
/// caller.
#[derive(Clone)]
pub struct GlobalBufferPool {
    pub range_allocator: RangeAllocator,
    pub buffer_size: u32,
}

impl GlobalBufferPool {
    /// A pool whose whole buffer is free.
    pub fn new(buffer_size: u32) -> (r: Self)
        ensures
            r.range_allocator.wf(),
            r.range_allocator.free() == seq![BufferRange { offset: 0, size: buffer_size }],
            r.buffer_size == buffer_size,
    {
        Self { range_allocator: RangeAllocator::new(buffer_size), buffer_size }
    }

    /// Hands out `size` bytes, as `RangeAllocator::allocate` does.
    pub fn allocate_range(&mut self, size: u32) -> (r: Option<BufferRange>)
        requires
            old(self).range_allocator.wf(),
            size <= u32::MAX - 255,
        ensures
            final(self).range_allocator.wf(),
            final(self).buffer_size == old(self).buffer_size,
            r == allocation256(old(self).range_allocator.free(), size),
            final(self).range_allocator.free() == free_after256(old(self).range_allocator.free(), size),
    {
        self.range_allocator.allocate(size)
    }

    /// Gives `range` back, as `RangeAllocator::deallocate` does.
    pub fn deallocate_range(&mut self, range: BufferRange)
        requires
            old(self).range_allocator.wf(),
            ends_in_bounds(range),
        ensures
            final(self).range_allocator.wf(),
            final(self).buffer_size == old(self).buffer_size,
            final(self).range_allocator.free() == merged(sort_by_offset(old(self).range_allocator.free().push(range))),
    {
        self.range_allocator.deallocate(range);
    }
}

/// The instance buffer shared by all chunks.
#[derive(Clone)]
pub struct VoxelInstancePool(pub GlobalBufferPool);

impl VoxelInstancePool {
    /// A pool whose whole buffer is free.
    pub fn new(buffer_size: u32) -> (r: Self)
        ensures
            r.0.range_allocator.wf(),
            r.0.range_allocator.free() == seq![BufferRange { offset: 0, size: buffer_size }],
            r.0.buffer_size == buffer_size,
    {
        Self(GlobalBufferPool::new(buffer_size))
    }
}

/// The size in bytes of a run cut to 32 bits, as the chunk buffers compute it.
pub open spec fn instance_size() -> u32 {
    (size_of::<VoxelInstance>() % 0x1_0000_0000) as u32
}

/// The size of a run, as `instance_size` gives it.
fn instance_size_exec() -> (r: u32)
    ensures
        r == instance_size(),
{
    (std::mem::size_of::<VoxelInstance>() as u64 % 0x1_0000_0000) as u32
}

/// A range of the shared buffer, with the face layout it held, waiting to be given back
/// once frame `frame_index` has come.
#[derive(Debug, Clone)]
pub struct PendingFaceCleanup {
    pub range: BufferRange,
    pub face_ranges: [u32; 6],
    pub face_offsets: [u32; 6],
    pub frame_index: u32,
}

/// The number of runs of each face list, cut to 32 bits.
pub open spec fn face_count(faces: [Vec<VoxelInstance>; 6], i: int) -> u32 {
    (faces@[i]@.len() % 0x1_0000_0000) as u32
}

/// Where face list `i` starts among the staged runs: the counts of the lists before it.
pub open spec fn face_start(faces: [Vec<VoxelInstance>; 6], i: int) -> int
    decreases i,
{
    if i <= 0 {
        0
    } else {
        face_start(faces, i - 1) + face_count(faces, i - 1)
    }
}

/// The first `i` face lists, one after the other.
pub open spec fn joined_faces(faces: [Vec<VoxelInstance>; 6], i: int) -> Seq<VoxelInstance>
    decreases i,
{
    if i <= 0 {
        Seq::empty()
    } else {
        joined_faces(faces, i - 1) + faces@[i - 1]@
    }
}

/// The draw commands of the first `n` faces of a layout whose runs start at instance
/// `base`: one per face with runs.
pub open spec fn draw_commands(base: int, ranges: Seq<u32>, offsets: Seq<u32>, n: int) -> Seq<DrawIndirectCommand>
    decreases n,
{
    if n <= 0 {
        Seq::empty()
    } else {
        let prev = draw_commands(base, ranges, offsets, n - 1);
        if ranges[n - 1] > 0 {
            prev.push(
                DrawIndirectCommand {
                    vertex_count: 4,
                    instance_count: ranges[n - 1],
                    first_vertex: 0,
                    first_instance: (base + offsets[n - 1]) as u32,
                },
            )
        } else {
            prev
        }
    }
}

/// How many of the first `f` faces have runs.
pub open spec fn faces_with_runs(ranges: Seq<u32>, f: int) -> nat
    decreases f,
{
    if f <= 0 {
        0
    } else {
        faces_with_runs(ranges, f - 1) + if ranges[f - 1] > 0 {
            1nat
        } else {
            0nat
        }
    }
}

/// The draw commands of a layout whose runs start at instance `base`: one command per
/// face with runs, in face order; the command of face `f` draws its `ranges[f]` runs
/// as instances of a 4-vertex quad, starting at instance `base + offsets[f]`.
pub proof fn lemma_draw_commands(base: int, ranges: Seq<u32>, offsets: Seq<u32>, n: int)
    requires
        0 <= n <= ranges.len(),
        n <= offsets.len(),
        forall|f: int| 0 <= f < n ==> 0 <= base + #[trigger] offsets[f] <= u32::MAX,
    ensures
        draw_commands(base, ranges, offsets, n).len() == faces_with_runs(ranges, n),
        forall|f: int|
            0 <= f < n && #[trigger] ranges[f] > 0 ==> draw_commands(base, ranges, offsets, n)[faces_with_runs(
                ranges,
                f,
            ) as int] == (DrawIndirectCommand {
                vertex_count: 4,
                instance_count: ranges[f],
                first_vertex: 0,
                first_instance: (base + offsets[f]) as u32,
            }),
    decreases n,
{
    if n > 0 {
        lemma_draw_commands(base, ranges, offsets, n - 1);
        lemma_faces_with_runs_mono(ranges, n - 1);
        let prev = draw_commands(base, ranges, offsets, n - 1);
        let all = draw_commands(base, ranges, offsets, n);
        assert forall|f: int| 0 <= f < n && #[trigger] ranges[f] > 0 implies all[faces_with_runs(ranges, f) as int] == (
        DrawIndirectCommand {
            vertex_count: 4,
            instance_count: ranges[f],
            first_vertex: 0,
            first_instance: (base + offsets[f]) as u32,
        }) by {
            if f < n - 1 {
                assert(faces_with_runs(ranges, f + 1) <= faces_with_runs(ranges, n - 1));
                assert(faces_with_runs(ranges, f + 1) == faces_with_runs(ranges, f) + 1);
                assert(all[faces_with_runs(ranges, f) as int] == prev[faces_with_runs(ranges, f) as int]);
            }
        }
    }
}

/// Faces before `f` with runs are no more than those before `n` for `f <= n`.
proof fn lemma_faces_with_runs_mono(ranges: Seq<u32>, n: int)
    requires
        0 <= n,
    ensures
        forall|f: int| 0 <= f <= n ==> #[trigger] faces_with_runs(ranges, f) <= faces_with_runs(ranges, n),
    decreases n,
{
    if n > 0 {
        lemma_faces_with_runs_mono(ranges, n - 1);
    }
}

/// The per-instance entries of the first `n` faces: face `f`'s count of entries, each
/// naming chunk `chunk` and face `f`.
pub open spec fn face_meta_entries(chunk: u32, ranges: Seq<u32>, n: int) -> Seq<InstanceMetaBuffer>
    decreases n,
{
    if n <= 0 {
        Seq::empty()
    } else {
        face_meta_entries(chunk, ranges, n - 1) + Seq::new(
            ranges[n - 1] as nat,
            |k: int| InstanceMetaBuffer { chunk_index: chunk, face_id: (n - 1) as u32 },
        )
    }
}

/// One chunk's runs on their way to the shared buffer, face by face: the staged runs and
/// their face layout, the range and layout the GPU draws from, the range just uploaded,
/// and the old ranges waiting some frames before they are given back.
#[derive(Clone)]
pub struct ChunkMeshRange {
    staged_data: Vec<VoxelInstance>,
    current_range: Option<BufferRange>,
    next_range: Option<BufferRange>,
    cleanup_queue: VecDeque<PendingFaceCleanup>,
    current_face_ranges: [u32; 6],
    current_face_offsets: [u32; 6],
    next_face_ranges: [u32; 6],
    next_face_offsets: [u32; 6],
    frame_allocated: u32,
    is_uploaded: bool,
}

impl ChunkMeshRange {
    /// The staged runs.
    pub closed spec fn staged(&self) -> Seq<VoxelInstance> {
        self.staged_data@
    }

    /// The range the GPU draws from.
    pub closed spec fn current(&self) -> Option<BufferRange> {
        self.current_range
    }

    /// The range uploaded and not yet swapped in.
    pub closed spec fn next(&self) -> Option<BufferRange> {
        self.next_range
    }

    /// The old ranges waiting to be given back, oldest first.
    pub closed spec fn queue(&self) -> Seq<PendingFaceCleanup> {
        self.cleanup_queue@
    }

    /// The run counts per face of the layout drawn from.
    pub closed spec fn current_faces(&self) -> Seq<u32> {
        self.current_face_ranges@
    }

    /// Where each face starts in the layout drawn from.
    pub closed spec fn current_offsets(&self) -> Seq<u32> {
        self.current_face_offsets@
    }

    /// The run counts per face of the staged layout.
    pub closed spec fn next_faces(&self) -> Seq<u32> {
        self.next_face_ranges@
    }

    /// Where each face starts in the staged layout.
    pub closed spec fn next_offsets(&self) -> Seq<u32> {
        self.next_face_offsets@
    }

    /// The frame of the last upload.
    pub closed spec fn allocated_at(&self) -> u32 {
        self.frame_allocated
    }

    /// Whether the staged runs have been uploaded.
    pub closed spec fn uploaded(&self) -> bool {
        self.is_uploaded
    }

    /// Every range held ends within the address space.
    pub open spec fn wf(&self) -> bool {
        &&& (self.current() matches Some(r) ==> ends_in_bounds(r))
        &&& (self.next() matches Some(r) ==> ends_in_bounds(r))
        &&& forall|k: int| 0 <= k < self.queue().len() ==> ends_in_bounds(#[trigger] self.queue()[k].range)
    }

    /// Nothing staged, no range, nothing waiting, every face empty.
    pub fn default() -> (r: Self)
        ensures
            r.wf(),
            r.staged() == Seq::<VoxelInstance>::empty(),
            r.current() is None,
            r.next() is None,
            r.queue() == Seq::<PendingFaceCleanup>::empty(),
            r.current_faces() == seq![0u32, 0, 0, 0, 0, 0],
            r.current_offsets() == seq![0u32, 0, 0, 0, 0, 0],
            r.next_faces() == seq![0u32, 0, 0, 0, 0, 0],
            r.next_offsets() == seq![0u32, 0, 0, 0, 0, 0],
            r.allocated_at() == 0,
            !r.uploaded(),
    {
        let def_arr: [u32; 6] = [0, 0, 0, 0, 0, 0];
        let r = Self {
            staged_data: Vec::new(),
            current_range: None,
            next_range: None,
            current_face_ranges: def_arr,
            current_face_offsets: def_arr,
            next_face_ranges: def_arr,
            next_face_offsets: def_arr,
            cleanup_queue: VecDeque::new(),
            frame_allocated: 0,
            is_uploaded: false,
        };
        assert(def_arr@ =~= seq![0u32, 0, 0, 0, 0, 0]);
        r
    }

    /// Stages nothing: drops the staged runs, the range waiting to be swapped in and the
    /// staged layout.
    pub fn stage_empty(&mut self)
        ensures
            final(self).staged() == Seq::<VoxelInstance>::empty(),
            final(self).next() is None,
            final(self).next_faces() == seq![0u32, 0, 0, 0, 0, 0],
            final(self).next_offsets() == seq![0u32, 0, 0, 0, 0, 0],
            !final(self).uploaded(),
            final(self).current() == old(self).current(),
            final(self).queue() == old(self).queue(),
            final(self).current_faces() == old(self).current_faces(),
            final(self).current_offsets() == old(self).current_offsets(),
            final(self).allocated_at() == old(self).allocated_at(),
            old(self).wf() ==> final(self).wf(),
    {
        self.staged_data.clear();
        self.next_range = None;
        self.next_face_ranges = [0; 6];
        self.next_face_offsets = [0; 6];
        self.is_uploaded = false;
        assert(self.next_face_ranges@ =~= seq![0u32, 0, 0, 0, 0, 0]);
        assert(self.queue() == old(self).queue());
    }

    /// Stages the six face lists one after the other, noting how many runs each has and
    /// where each starts.
    pub fn stage_face_data(&mut self, faces: &[Vec<VoxelInstance>; 6])
        requires
            face_start(*faces, 6) <= u32::MAX,
        ensures
            final(self).staged() == joined_faces(*faces, 6),
            forall|i: int| 0 <= i < 6 ==> #[trigger] final(self).next_faces()[i] == face_count(*faces, i),
            forall|i: int| 0 <= i < 6 ==> #[trigger] final(self).next_offsets()[i] == face_start(*faces, i),
            final(self).next_faces().len() == 6,
            final(self).next_offsets().len() == 6,
            final(self).next() == old(self).next(),
            final(self).uploaded() == old(self).uploaded(),
            final(self).current() == old(self).current(),
            final(self).queue() == old(self).queue(),
            final(self).current_faces() == old(self).current_faces(),
            final(self).current_offsets() == old(self).current_offsets(),
            final(self).allocated_at() == old(self).allocated_at(),
            old(self).wf() ==> final(self).wf(),
    {
        self.next_face_ranges = [0; 6];
        self.staged_data.clear();
        let mut offset: u32 = 0;
        let mut i: usize = 0;
        proof {
            assert(self.staged_data@ =~= joined_faces(*faces, 0));
            lemma_face_start_mono(*faces, 6);
        }
        while i < 6
            invariant
                i <= 6,
                offset == face_start(*faces, i as int),
                forall|j: int| 0 <= j <= 6 ==> #[trigger] face_start(*faces, j) <= face_start(*faces, 6),
                face_start(*faces, 6) <= u32::MAX,
                self.staged_data@ == joined_faces(*faces, i as int),
                forall|j: int| 0 <= j < i ==> #[trigger] self.next_face_ranges@[j] == face_count(*faces, j),
                forall|j: int| 0 <= j < i ==> #[trigger] self.next_face_offsets@[j] == face_start(*faces, j),
                self.next() == old(self).next(),
                self.uploaded() == old(self).uploaded(),
                self.current() == old(self).current(),
                self.queue() == old(self).queue(),
                self.current_faces() == old(self).current_faces(),
                self.current_offsets() == old(self).current_offsets(),
                self.allocated_at() == old(self).allocated_at(),
            decreases 6 - i,
        {
            let count = (faces[i].len() as u64 % 0x1_0000_0000) as u32;
            self.next_face_ranges[i] = count;
            self.next_face_offsets[i] = offset;
            assert(face_start(*faces, i + 1) == face_start(*faces, i as int) + count);
            offset += count;
            let face_data = &faces[i];
            let ghost before = self.staged_data@;
            let mut k: usize = 0;
            while k < face_data.len()
                invariant
                    k <= face_data@.len(),
                    self.staged_data@ == before + face_data@.take(k as int),
                    before == joined_faces(*faces, i as int),
                    face_data == faces@[i as int],
                    i < 6,
                    forall|j: int| 0 <= j <= i ==> #[trigger] self.next_face_ranges@[j] == face_count(*faces, j),
                    forall|j: int| 0 <= j <= i ==> #[trigger] self.next_face_offsets@[j] == face_start(*faces, j),
                    self.next() == old(self).next(),
                    self.uploaded() == old(self).uploaded(),
                    self.current() == old(self).current(),
                    self.queue() == old(self).queue(),
                    self.current_faces() == old(self).current_faces(),
                    self.current_offsets() == old(self).current_offsets(),
                    self.allocated_at() == old(self).allocated_at(),
                decreases face_data@.len() - k,
            {
                self.staged_data.push(face_data[k]);
                k = k + 1;
                assert(face_data@.take(k as int) =~= face_data@.take(k - 1).push(face_data@[k - 1]));
            }
            assert(face_data@.take(face_data@.len() as int) =~= face_data@);
            i = i + 1;
        }
    }
}

/// The starts of the face lists only grow.
proof fn lemma_face_start_mono(faces: [Vec<VoxelInstance>; 6], n: int)
    requires
        0 <= n,
    ensures
        forall|j: int| 0 <= j <= n ==> #[trigger] face_start(faces, j) <= face_start(faces, n),
    decreases n,
{
    if n > 0 {
        lemma_face_start_mono(faces, n - 1);
    }
}

/// The byte size of `n` runs, as the upload computes it: the count cut to 32 bits times
/// the run size.
pub open spec fn staged_bytes(n: nat) -> int {
    (n as int % 0x1_0000_0000) * instance_size()
}

/// The bytes an upload asks for are the staged runs times the size of a run, when both
/// fit in 32 bits.
pub proof fn lemma_staged_bytes(n: nat)
    ensures
        n < 0x1_0000_0000 && size_of::<VoxelInstance>() < 0x1_0000_0000 ==> staged_bytes(n) == n * size_of::<
            VoxelInstance,
        >(),
{
}

/// A range handed out for `size` bytes holds at least `size` bytes, a multiple of 256,
/// and less than 256 more than asked for.
pub proof fn lemma_allocation256_fits(free: Seq<BufferRange>, size: u32)
    requires
        size <= u32::MAX - 255,
    ensures
        allocation256(free, size) matches Some(r) ==> r.size >= size && r.size % 256 == 0 && r.size < size + 256,
{
}

/// `new_q` is `old_q` with, when a range was drawn from, that range and its layout
/// added for frame `frame + 3`.
pub open spec fn queued_face_cleanup(
    new_q: Seq<PendingFaceCleanup>,
    old_q: Seq<PendingFaceCleanup>,
    current: Option<BufferRange>,
    faces: Seq<u32>,
    offsets: Seq<u32>,
    frame: u32,
) -> bool {
    match current {
        Some(c) => {
            &&& new_q.len() == old_q.len() + 1
            &&& new_q.take(old_q.len() as int) == old_q
            &&& new_q.last().range == c
            &&& new_q.last().face_ranges@ == faces
            &&& new_q.last().face_offsets@ == offsets
            &&& new_q.last().frame_index == frame + 3
        },
        None => new_q == old_q,
    }
}

/// The frames the queued ranges wait for.
pub open spec fn cleanup_frames(q: Seq<PendingFaceCleanup>) -> Seq<u32> {
    q.map_values(|p: PendingFaceCleanup| p.frame_index)
}

/// The queued ranges.
pub open spec fn cleanup_ranges(q: Seq<PendingFaceCleanup>) -> Seq<BufferRange> {
    q.map_values(|p: PendingFaceCleanup| p.range)
}

impl ChunkMeshRange {
    /// Swaps the uploaded range and the staged layout in, queueing the range and layout
    /// drawn from until then to be given back three frames from `current_frame`;
    /// `false`, with nothing changed, when no range waits to be swapped in.
    pub fn try_swap(&mut self, current_frame: u32) -> (r: bool)
        requires
            old(self).next() is Some && old(self).current() is Some ==> current_frame <= u32::MAX - 3,
        ensures
            r == old(self).next() is Some,
            r ==> final(self).current() == old(self).next() && final(self).next() is None
                && final(self).current_faces() == old(self).next_faces() && final(self).current_offsets()
                == old(self).next_offsets() && queued_face_cleanup(
                final(self).queue(),
                old(self).queue(),
                old(self).current(),
                old(self).current_faces(),
                old(self).current_offsets(),
                current_frame,
            ),
            !r ==> *final(self) == *old(self),
            final(self).staged() == old(self).staged(),
            final(self).next_faces() == old(self).next_faces(),
            final(self).next_offsets() == old(self).next_offsets(),
            final(self).uploaded() == old(self).uploaded(),
            final(self).allocated_at() == old(self).allocated_at(),
            old(self).wf() ==> final(self).wf(),
    {
        if let Some(next) = self.next_range.take() {
            let ghost q0 = self.cleanup_queue@;
            if let Some(prev) = self.current_range.take() {
                self.cleanup_queue.push_back(
                    PendingFaceCleanup {
                        range: prev,
                        face_ranges: self.current_face_ranges,
                        face_offsets: self.current_face_offsets,
                        frame_index: current_frame + 3,
                    },
                );
                assert(self.cleanup_queue@.take(q0.len() as int) =~= q0);
                proof {
                    if old(self).wf() {
                        assert(q0 == old(self).queue());
                        assert(ends_in_bounds(prev));
                        assert forall|k: int| 0 <= k < self.cleanup_queue@.len() implies ends_in_bounds(
                            #[trigger] self.cleanup_queue@[k].range,
                        ) by {
                            if k < q0.len() {
                                assert(self.cleanup_queue@[k] == q0[k]);
                                assert(ends_in_bounds(old(self).queue()[k].range));
                            } else {
                                assert(self.cleanup_queue@[k].range == prev);
                            }
                        }
                    }
                }
            }
            self.current_range = Some(next);
            self.current_face_ranges = self.next_face_ranges;
            self.current_face_offsets = self.next_face_offsets;
            true
        } else {
            false
        }
    }

    /// Allocates a range for the staged runs and hands them out to be written there,
    /// then swaps the range and the staged layout in at once (see `try_swap`). `None`,
    /// with nothing changed, when nothing is staged or no range is free.
    pub fn upload(&mut self, global_pool: &mut GlobalBufferPool, current_frame: u32) -> (r: Option<
        (BufferRange, Vec<VoxelInstance>),
    >)
        requires
            old(self).wf(),
            old(global_pool).range_allocator.wf(),
            old(self).staged().len() > 0 ==> staged_bytes(old(self).staged().len()) <= u32::MAX - 255,
            old(self).current() is Some ==> current_frame <= u32::MAX - 3,
        ensures
            final(self).wf(),
            final(global_pool).range_allocator.wf(),
            final(global_pool).buffer_size == old(global_pool).buffer_size,
            r is Some <==> old(self).staged().len() > 0 && allocation256(
                old(global_pool).range_allocator.free(),
                staged_bytes(old(self).staged().len()) as u32,
            ) is Some,
            r matches Some(x) ==> Some(x.0) == allocation256(
                old(global_pool).range_allocator.free(),
                staged_bytes(old(self).staged().len()) as u32,
            ) && x.1@ == old(self).staged() && final(global_pool).range_allocator.free() == free_after256(
                old(global_pool).range_allocator.free(),
                staged_bytes(old(self).staged().len()) as u32,
            ),
            r is Some ==> final(self).staged() == Seq::<VoxelInstance>::empty() && final(self).current() == Some(
                r->Some_0.0,
            ) && final(self).next() is None && final(self).current_faces() == old(self).next_faces()
                && final(self).current_offsets() == old(self).next_offsets() && final(self).uploaded()
                && final(self).allocated_at() == current_frame && queued_face_cleanup(
                final(self).queue(),
                old(self).queue(),
                old(self).current(),
                old(self).current_faces(),
                old(self).current_offsets(),
                current_frame,
            ),
            r is None ==> *final(self) == *old(self) && final(global_pool).range_allocator.free() == old(
                global_pool,
            ).range_allocator.free(),
            old(self).staged().len() < 0x1_0000_0000 && size_of::<VoxelInstance>() < 0x1_0000_0000 ==> {
                let bytes = (old(self).staged().len() * size_of::<VoxelInstance>()) as u32;
                &&& r is Some <==> old(self).staged().len() > 0 && allocation256(
                    old(global_pool).range_allocator.free(),
                    bytes,
                ) is Some
                &&& r matches Some(x) ==> Some(x.0) == allocation256(old(global_pool).range_allocator.free(), bytes)
                    && x.0.size >= old(self).staged().len() * size_of::<VoxelInstance>()
            },
    {
        proof {
            lemma_staged_bytes(self.staged_data@.len());
            if self.staged_data@.len() > 0 {
                lemma_allocation256_fits(global_pool.range_allocator.free(), staged_bytes(self.staged_data@.len()) as u32);
            }
        }
        if self.staged_data.len() == 0 {
            return None;
        }
        let element_size = instance_size_exec();
        let count = (self.staged_data.len() as u64 % 0x1_0000_0000) as u32;
        let total_size = count * element_size;
        proof {
            lemma_first_fit(global_pool.range_allocator.free(), aligned256(total_size));
            lemma_round_up_256(total_size);
        }
        if let Some(new_range) = global_pool.allocate_range(total_size) {
            proof {
                let i = first_fit(old(global_pool).range_allocator.free(), aligned256(total_size));
                assert(ends_in_bounds(old(global_pool).range_allocator.free()[i]));
            }
            let mut data: Vec<VoxelInstance> = Vec::new();
            std::mem::swap(&mut self.staged_data, &mut data);
            self.next_range = Some(new_range);
            self.frame_allocated = current_frame;
            self.is_uploaded = true;
            assert(self.queue() == old(self).queue());
            let swapped = self.try_swap(current_frame);
            if swapped {
                return Some((new_range, data));
            }
        }
        None
    }

    /// Gives back, oldest first, the queued ranges whose frame has come by
    /// `current_frame`, stopping at the first whose frame has not.
    pub fn cleanup_old_ranges(&mut self, global_pool: &mut GlobalBufferPool, current_frame: u32)
        requires
            old(self).wf(),
            old(global_pool).range_allocator.wf(),
        ensures
            final(self).wf(),
            final(global_pool).range_allocator.wf(),
            final(global_pool).buffer_size == old(global_pool).buffer_size,
            final(self).queue() == old(self).queue().skip(
                due_frames(cleanup_frames(old(self).queue()), current_frame) as int,
            ),
            final(global_pool).range_allocator.free() == give_back_ranges(
                old(global_pool).range_allocator.free(),
                cleanup_ranges(old(self).queue()).take(
                    due_frames(cleanup_frames(old(self).queue()), current_frame) as int,
                ),
            ),
            final(self).staged() == old(self).staged(),
            final(self).current() == old(self).current(),
            final(self).next() == old(self).next(),
            final(self).current_faces() == old(self).current_faces(),
            final(self).current_offsets() == old(self).current_offsets(),
            final(self).next_faces() == old(self).next_faces(),
            final(self).next_offsets() == old(self).next_offsets(),
            final(self).allocated_at() == old(self).allocated_at(),
            final(self).uploaded() == old(self).uploaded(),
    {
        let ghost q0 = self.cleanup_queue@;
        let ghost frames = cleanup_frames(q0);
        let ghost ranges = cleanup_ranges(q0);
        let ghost free0 = global_pool.range_allocator.free();
        let ghost mut j: int = 0;
        proof {
            lemma_due_frames(frames, current_frame);
            assert(q0 == old(self).queue());
            assert(q0.skip(0) =~= q0);
            assert(ranges.take(0) =~= Seq::<BufferRange>::empty());
        }
        while self.cleanup_queue.len() > 0 && current_frame >= self.cleanup_queue[0].frame_index
            invariant
                0 <= j <= due_frames(frames, current_frame),
                due_frames(frames, current_frame) <= frames.len(),
                forall|k: int| 0 <= k < due_frames(frames, current_frame) ==> current_frame >= #[trigger] frames[k],
                due_frames(frames, current_frame) < frames.len() ==> current_frame < frames[due_frames(
                    frames,
                    current_frame,
                ) as int],
                frames == cleanup_frames(q0),
                ranges == cleanup_ranges(q0),
                self.cleanup_queue@ == q0.skip(j),
                forall|k: int| 0 <= k < q0.len() ==> ends_in_bounds(#[trigger] q0[k].range),
                global_pool.range_allocator.wf(),
                global_pool.buffer_size == old(global_pool).buffer_size,
                global_pool.range_allocator.free() == give_back_ranges(free0, ranges.take(j)),
                self.staged() == old(self).staged(),
                self.current() == old(self).current(),
                self.next() == old(self).next(),
                self.current_faces() == old(self).current_faces(),
                self.current_offsets() == old(self).current_offsets(),
                self.next_faces() == old(self).next_faces(),
                self.next_offsets() == old(self).next_offsets(),
                self.allocated_at() == old(self).allocated_at(),
                self.uploaded() == old(self).uploaded(),
                q0 == old(self).queue(),
                free0 == old(global_pool).range_allocator.free(),
                old(self).wf(),
            decreases q0.len() - j,
        {
            proof {
                assert(self.cleanup_queue@[0] == q0[j]);
                assert(frames[j] == q0[j].frame_index);
                if j >= due_frames(frames, current_frame) {
                    assert(j == due_frames(frames, current_frame));
                }
            }
            match self.cleanup_queue.pop_front() {
                Some(cleanup) => {
                    proof {
                        lemma_give_back_ranges_push(free0, ranges.take(j), q0[j].range);
                        assert(ranges.take(j + 1) =~= ranges.take(j).push(q0[j].range));
                        assert(q0.skip(j).subrange(1, q0.skip(j).len() as int) =~= q0.skip(j + 1));
                    }
                    global_pool.deallocate_range(cleanup.range);
                    proof {
                        j = j + 1;
                    }
                },
                None => {},
            }
        }
        proof {
            if j < due_frames(frames, current_frame) {
                assert(self.cleanup_queue@.len() > 0 && self.cleanup_queue@[0] == q0[j]);
                assert(frames[j] == q0[j].frame_index);
            }
            assert forall|k: int| 0 <= k < self.queue().len() implies ends_in_bounds(#[trigger] self.queue()[k].range) by {
                assert(self.queue()[k] == q0[k + j]);
            }
        }
    }

    /// The first instance of the range drawn from, counted in runs.
    pub fn base_instance(&self) -> (r: Option<u32>)
        requires
            instance_size() != 0,
        ensures
            r == match self.current() {
                Some(range) => Some((range.offset / instance_size()) as u32),
                None => None,
            },
    {
        match self.current_range {
            Some(range) => Some(range.offset / instance_size_exec()),
            None => None,
        }
    }

    /// Whether the GPU has a range to draw from.
    pub fn has_active_data(&self) -> (r: bool)
        ensures
            r == self.current() is Some,
    {
        self.current_range.is_some()
    }

    /// The number of runs the range drawn from holds; 0 when there is none.
    pub fn element_count(&self) -> (r: u32)
        requires
            instance_size() != 0,
        ensures
            r == match self.current() {
                Some(range) => (range.size / instance_size()) as u32,
                None => 0,
            },
    {
        match self.current_range {
            Some(range) => range.size / instance_size_exec(),
            None => 0,
        }
    }

    /// One draw command per face of the layout drawn from that has runs: four vertices
    /// per instance, the face's runs as instances from the range's first instance plus
    /// the face's start. No command when there is no range.
    pub fn draw_buffer(&self) -> (r: IndirectDrawBuffer)
        requires
            instance_size() != 0,
            self.current() matches Some(range) ==> forall|i: int|
                0 <= i < 6 ==> range.offset / instance_size() + #[trigger] self.current_offsets()[i] <= u32::MAX,
        ensures
            r.buffer@ == match self.current() {
                Some(range) => draw_commands(
                    (range.offset / instance_size()) as int,
                    self.current_faces(),
                    self.current_offsets(),
                    6,
                ),
                None => Seq::<DrawIndirectCommand>::empty(),
            },
            self.current() matches Some(range) ==> r.buffer@.len() == faces_with_runs(self.current_faces(), 6)
                && forall|f: int|
                0 <= f < 6 && #[trigger] self.current_faces()[f] > 0 ==> r.buffer@[faces_with_runs(
                    self.current_faces(),
                    f,
                ) as int] == (DrawIndirectCommand {
                    vertex_count: 4,
                    instance_count: self.current_faces()[f],
                    first_vertex: 0,
                    first_instance: (range.offset / instance_size() + self.current_offsets()[f]) as u32,
                }),
    {
        proof {
            if let Some(range) = self.current() {
                lemma_draw_commands(
                    (range.offset / instance_size()) as int,
                    self.current_faces(),
                    self.current_offsets(),
                    6,
                );
            }
        }
        let mut commands = IndirectDrawBuffer { buffer: Vec::new() };
        if let Some(range) = &self.current_range {
            let element_size = instance_size_exec();
            let base_instance = range.offset / element_size;
            let mut face_idx: usize = 0;
            while face_idx < 6
                invariant
                    face_idx <= 6,
                    element_size == instance_size(),
                    element_size != 0,
                    self.current() == Some(*range),
                    base_instance == range.offset / instance_size(),
                    forall|i: int| 0 <= i < 6 ==> base_instance + #[trigger] self.current_offsets()[i] <= u32::MAX,
                    commands.buffer@ == draw_commands(
                        base_instance as int,
                        self.current_faces(),
                        self.current_offsets(),
                        face_idx as int,
                    ),
                decreases 6 - face_idx,
            {
                let face_size = self.current_face_ranges[face_idx];
                if face_size > 0 {
                    assert(base_instance + self.current_offsets()[face_idx as int] <= u32::MAX);
                    let first_instance = base_instance + self.current_face_offsets[face_idx];
                    commands.push(
                        DrawIndirectCommand { vertex_count: 4, instance_count: face_size, first_vertex: 0, first_instance },
                    );
                }
                face_idx = face_idx + 1;
            }
        }
        commands
    }

    /// The first instance of the range drawn from, with one entry per run of the layout
    /// drawn from, face by face, naming the chunk `index` and the run's face; `None`
    /// when there is no range.
    pub fn face_metas(&self, index: ChunkIndex) -> (r: Option<(u32, Vec<InstanceMetaBuffer>)>)
        requires
            instance_size() != 0,
        ensures
            r is Some == self.current() is Some,
            r matches Some(x) ==> Some(x.0) == (match self.current() {
                Some(range) => Some((range.offset / instance_size()) as u32),
                None => None,
            }) && x.1@ == face_meta_entries(index.0, self.current_faces(), 6),
    {
        let chunk_id = index.0;
        let base_instance = match self.base_instance() {
            Some(b) => b,
            None => {
                return None;
            },
        };
        let mut meta: Vec<InstanceMetaBuffer> = Vec::with_capacity(self.element_count() as usize);
        let mut face_idx: usize = 0;
        while face_idx < 6
            invariant
                face_idx <= 6,
                meta@ == face_meta_entries(chunk_id, self.current_faces(), face_idx as int),
            decreases 6 - face_idx,
        {
            let face_size = self.current_face_ranges[face_idx];
            let ghost before = meta@;
            let mut k: u32 = 0;
            while k < face_size
                invariant
                    k <= face_size,
                    face_idx < 6,
                    face_size == self.current_faces()[face_idx as int],
                    meta@ == before + Seq::new(
                        k as nat,
                        |t: int| InstanceMetaBuffer { chunk_index: chunk_id, face_id: face_idx as u32 },
                    ),
                decreases face_size - k,
            {
                meta.push(InstanceMetaBuffer { chunk_index: chunk_id, face_id: face_idx as u32 });
                k = k + 1;
                assert(meta@ =~= before + Seq::new(
                    k as nat,
                    |t: int| InstanceMetaBuffer { chunk_index: chunk_id, face_id: face_idx as u32 },
                ));
            }
            face_idx = face_idx + 1;
            assert(meta@ =~= face_meta_entries(chunk_id, self.current_faces(), face_idx as int));
        }
        Some((base_instance, meta))
    }
}

/// A range swapped out at frame `frame` is not given back by a cleanup at any frame
/// before `frame + 3`: the cleanup stops before it.
pub proof fn lemma_face_range_waits(
    new_q: Seq<PendingFaceCleanup>,
    old_q: Seq<PendingFaceCleanup>,
    old_range: BufferRange,
    faces: Seq<u32>,
    offsets: Seq<u32>,
    frame: u32,
    cleanup_frame: u32,
)
    requires
        queued_face_cleanup(new_q, old_q, Some(old_range), faces, offsets, frame),
        cleanup_frame < frame + 3,
    ensures
        due_frames(cleanup_frames(new_q), cleanup_frame) <= old_q.len(),
{
    let frames = cleanup_frames(new_q);
    lemma_due_frames(frames, cleanup_frame);
    if due_frames(frames, cleanup_frame) > old_q.len() {
        assert(frames[old_q.len() as int] == new_q.last().frame_index);
        assert(cleanup_frame >= frames[old_q.len() as int]);
    }
}

} // verus!
