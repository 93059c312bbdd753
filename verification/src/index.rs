//! Positions counted back from the end of a buffer.

use vstd::prelude::*;

verus! {

/// A distance from the end of a buffer. Moving "forward" (toward the end) makes it
/// smaller: `i + n` is `n` elements later, `i - n` is `n` elements earlier.
#[derive(Clone, Copy, Debug, PartialEq, Eq, Structural)]
pub struct ReverseIndex(pub usize);

/// The elements from one reverse index to another, as a range `start..end`.
#[derive(Clone, Copy, Debug, PartialEq, Eq, Structural)]
pub struct ReverseIndexRange(pub ReverseIndex, pub ReverseIndex);

impl ReverseIndex {
    /// The index of the end of the buffer (one past the last element).
    pub fn end() -> (r: Self)
        ensures
            r.0 == 0,
    {
        Self(0)
    }

    /// The range `self..`.
    pub fn range_to_end(self) -> (r: ReverseIndexRange)
        ensures
            r.0 == self,
            r.1.0 == 0,
    {
        ReverseIndexRange(self, ReverseIndex::end())
    }

    /// The range `self..end`.
    pub fn range_to(self, end: ReverseIndex) -> (r: ReverseIndexRange)
        ensures
            r.0 == self,
            r.1 == end,
    {
        ReverseIndexRange(self, end)
    }

    /// The ordinary index that this reverse index denotes in `buf`.
    pub fn invert<T>(self, buf: &[T]) -> (r: usize)
        requires
            self.0 <= buf@.len(),
        ensures
            r == buf@.len() - self.0,
    {
        buf.len() - self.0
    }

    /// The number of elements from this index to the end.
    pub fn val(&self) -> (r: usize)
        ensures
            r == self.0,
    {
        self.0
    }

    /// The element of `buf` at this index.
    pub fn index_in<T>(self, buf: &[T]) -> (r: &T)
        requires
            0 < self.0 <= buf@.len(),
        ensures
            *r == buf@[buf@.len() - self.0],
    {
        let i = self.invert(buf);
        &buf[i]
    }
}

impl ReverseIndexRange {
    /// The elements of `buf` in this range.
    pub fn slice_in<'a, T>(self, buf: &'a [T]) -> (r: &'a [T])
        requires
            self.1.0 <= self.0.0 <= buf@.len(),
        ensures
            r@ == buf@.subrange(buf@.len() - self.0.0, buf@.len() - self.1.0),
    {
        let start = self.0.invert(buf);
        let end = self.1.invert(buf);
        vstd::slice::slice_subrange(buf, start, end)
    }
}

impl ReverseIndex {
    /// `rhs` elements earlier: further from the end (the `-` of a reverse index).
    pub fn minus(self, rhs: usize) -> (r: Self)
        requires
            self.0 + rhs <= usize::MAX,
        ensures
            r.0 == self.0 + rhs,
    {
        Self(self.0 + rhs)
    }

    /// Moves `rhs` elements earlier (the `-=` of a reverse index).
    pub fn minus_assign(&mut self, rhs: usize)
        requires
            old(self).0 + rhs <= usize::MAX,
        ensures
            final(self).0 == old(self).0 + rhs,
    {
        *self = self.minus(rhs);
    }

    /// `rhs` elements later: closer to the end (the `+` of a reverse index).
    pub fn plus(self, rhs: usize) -> (r: Self)
        requires
            rhs <= self.0,
        ensures
            r.0 == self.0 - rhs,
    {
        Self(self.0 - rhs)
    }

    /// Moves `rhs` elements later (the `+=` of a reverse index).
    pub fn plus_assign(&mut self, rhs: usize)
        requires
            rhs <= old(self).0,
        ensures
            final(self).0 == old(self).0 - rhs,
    {
        *self = self.plus(rhs);
    }
}

} // verus!
