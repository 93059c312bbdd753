//! Distances from the end of a buffer, kept apart from absolute positions.
//!
//! A slot (the value a serializer returns for what it wrote) is a distance from the
//! end of the buffer; it relates to an absolute position by `absolute = len - distance`.

use vstd::prelude::*;

verus! {

/// A distance from the end of a buffer.
#[derive(Clone, Copy, Debug, PartialEq, Eq, Structural)]
pub struct ReverseIndex(pub usize);

impl ReverseIndex {
    /// The end of the buffer (distance 0).
    pub fn end() -> (r: Self)
        ensures
            r.0 == 0,
    {
        Self(0)
    }

    /// Wraps a value already known to be a distance from the end.
    pub(crate) fn from_slot(slot: usize) -> (r: Self)
        ensures
            r.0 == slot,
    {
        Self(slot)
    }

    /// The distance from the end of a buffer of length `len` to the absolute
    /// position `pos`.
    pub(crate) fn from_absolute(pos: usize, len: usize) -> (r: Self)
        requires
            pos <= len,
        ensures
            r.0 == len - pos,
    {
        Self(len - pos)
    }

    /// The absolute position of this distance in a buffer of length `len`.
    pub fn invert(self, len: usize) -> (r: usize)
        requires
            self.0 <= len,
        ensures
            r == len - self.0,
    {
        len - self.0
    }

    /// The raw distance from the end.
    pub fn val(&self) -> (r: usize)
        ensures
            r == self.0,
    {
        self.0
    }

    /// `rhs` bytes further from the end (the `-` of a reverse index).
    pub fn minus(self, rhs: usize) -> (r: Self)
        requires
            self.0 + rhs <= usize::MAX,
        ensures
            r.0 == self.0 + rhs,
    {
        Self(self.0 + rhs)
    }

    /// Moves `rhs` bytes further from the end (the `-=` of a reverse index).
    pub fn minus_assign(&mut self, rhs: usize)
        requires
            old(self).0 + rhs <= usize::MAX,
        ensures
            final(self).0 == old(self).0 + rhs,
    {
        *self = self.minus(rhs);
    }

    /// `rhs` bytes closer to the end (the `+` of a reverse index).
    pub fn plus(self, rhs: usize) -> (r: Self)
        requires
            rhs <= self.0,
        ensures
            r.0 == self.0 - rhs,
    {
        Self(self.0 - rhs)
    }

    /// Moves `rhs` bytes closer to the end (the `+=` of a reverse index).
    pub fn plus_assign(&mut self, rhs: usize)
        requires
            rhs <= old(self).0,
        ensures
            final(self).0 == old(self).0 - rhs,
    {
        *self = self.plus(rhs);
    }
}

/// Converting an absolute position to a distance from the end and back gives the
/// position again, and the other way round.
pub proof fn lemma_absolute_round_trip(pos: nat, dist: nat, len: nat)
    requires
        pos <= len,
        dist <= len,
    ensures
        len - (len - pos) == pos,
        len - (len - dist) == dist,
{
}

} // verus!
