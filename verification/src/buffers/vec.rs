use vstd::prelude::*;

pub use crate::buffers::error::Error;

verus! {

pub type Result<T> = core::result::Result<T, Error>;

/// Largest argument for which `usize::next_power_of_two` does not overflow.
pub open spec fn pow2_limit() -> nat {
    (usize::MAX as nat) / 2 + 1
}

/// Doubling `p` until it reaches `n`.
pub open spec fn pow2_from(n: nat, p: nat) -> nat
    decreases (if p >= n { 0 } else { n - p }),
{
    if p == 0 || p >= n {
        p
    } else {
        pow2_from(n, p * 2)
    }
}

/// The smallest power of two that is at least `n` (1 for 0), as
/// `usize::next_power_of_two` computes it.
pub open spec fn next_pow2(n: nat) -> nat {
    pow2_from(n, 1)
}

pub open spec fn is_power_of_two(p: nat) -> bool
    decreases p,
{
    if p == 1 {
        true
    } else if p < 2 || p % 2 != 0 {
        false
    } else {
        is_power_of_two(p / 2)
    }
}

proof fn lemma_pow2_from(n: nat, p: nat)
    requires
        p >= 1,
        is_power_of_two(p),
    ensures
        pow2_from(n, p) >= n,
        pow2_from(n, p) >= p,
        is_power_of_two(pow2_from(n, p)),
        p < n ==> pow2_from(n, p) < 2 * n,
    decreases (if p >= n { 0 } else { n - p }),
{
    if p < n {
        assert(is_power_of_two(p * 2)) by {
            assert((p * 2) / 2 == p);
        }
        lemma_pow2_from(n, p * 2);
    }
}

/// What `next_power_of_two` returns: a power of two, at least `n`, below `2n` when `n > 1`.
pub proof fn lemma_next_pow2(n: nat)
    ensures
        next_pow2(n) >= n,
        next_pow2(n) >= 1,
        is_power_of_two(next_pow2(n)),
        n >= 1 ==> next_pow2(n) < 2 * n,
{
    lemma_pow2_from(n, 1);
}

/// Rounds `n` up to a power of two, as `usize::next_power_of_two` does.
pub fn next_power_of_two(n: usize) -> (r: usize)
    requires
        n <= pow2_limit(),
    ensures
        r as nat == next_pow2(n as nat),
{
    let mut p: usize = 1;
    while p < n
        invariant
            1 <= p,
            n <= pow2_limit(),
            pow2_from(n as nat, p as nat) == next_pow2(n as nat),
        decreases usize::MAX - p,
    {
        p = p * 2;
    }
    p
}

/// Distance of a written record from the end (the tail) of the buffer.
/// Zero is the sentinel for "nothing was written".
#[derive(Clone, Copy)]
pub struct TailOffset(pub u32);

impl TailOffset {
    pub fn new(total_buffer_size: usize, current_head: usize) -> (r: Self)
        requires
            current_head <= total_buffer_size,
        ensures
            r.0 == (total_buffer_size - current_head) as u32,
    {
        // Handles stay compact (u32); offsets from the tail are small in practice.
        Self((total_buffer_size - current_head) as u32)
    }

    pub fn offset(&self) -> (r: usize)
        ensures
            r == self.0,
    {
        self.0 as usize
    }

    /// The absolute position that this handle denotes in a buffer of the given size.
    pub fn get_access(&self, total_buffer_size: usize) -> (r: usize)
        requires
            self.0 <= total_buffer_size,
        ensures
            r == total_buffer_size - self.0,
    {
        total_buffer_size - self.0 as usize
    }
}

/// A byte buffer that is filled backwards: `data[cursor..]` holds what has
/// been written, and `cursor` moves toward 0 as records are added, so it
/// also counts the free space in front of the payload.
#[derive(Clone)]
pub struct BufferVec {
    pub data: Vec<u8>,
    pub cursor: usize,
    pub max_size: usize,
}

impl BufferVec {
    pub open spec fn wf(&self) -> bool {
        self.cursor <= self.data@.len()
    }

    /// The size the buffer may grow to.
    pub open spec fn limit(&self) -> nat {
        self.max_size as nat
    }

    /// The bytes written so far.
    pub open spec fn payload(&self) -> Seq<u8> {
        self.data@.subrange(self.cursor as int, self.data@.len() as int)
    }

    pub open spec fn payload_len(&self) -> nat {
        (self.data@.len() - self.cursor) as nat
    }

    /// Creates a buffer of 4 bytes that may grow up to `max_size` rounded to a power of two.
    pub fn new(max_size: usize) -> (r: Self)
        requires
            max_size <= pow2_limit(),
        ensures
            r.wf(),
            r.data@.len() == 4,
            r.cursor == 4,
            r.limit() == if next_pow2(max_size as nat) < 4 { 4 } else { next_pow2(max_size as nat) },
    {
        Self::with_size(4, max_size)
    }

    /// Creates an empty buffer of `initial_size` bytes (at least 4), growable up to
    /// `max_size` rounded up to a power of two (at least 4).
    pub fn with_size(initial_size: usize, max_size: usize) -> (r: Self)
        requires
            max_size <= pow2_limit(),
        ensures
            r.wf(),
            r.data@.len() == if initial_size < 4 { 4 } else { initial_size as nat },
            r.cursor == r.data@.len(),
            r.limit() == if next_pow2(max_size as nat) < 4 { 4 } else { next_pow2(max_size as nat) },
    {
        let size = if initial_size < 4 { 4 } else { initial_size };
        let data: Vec<u8> = vec![0u8; size];
        let p = next_power_of_two(max_size);
        let max_size = if p < 4 { 4 } else { p };
        Self { data, cursor: size, max_size }
    }

    /// Total size of the allocation.
    pub fn size(&self) -> (r: usize)
        ensures
            r == self.data@.len(),
    {
        self.data.len()
    }

    /// The handle of the record that starts at the cursor.
    pub fn handle(&self) -> (r: TailOffset)
        requires
            self.wf(),
        ensures
            r.0 == (self.data@.len() - self.cursor) as u32,
    {
        TailOffset::new(self.data.len(), self.cursor)
    }

    /// Whether `needed_bytes` fit in front of the payload without growing.
    pub fn can_fit(&self, needed_bytes: usize) -> (r: bool)
        ensures
            r == (self.cursor >= needed_bytes),
    {
        self.cursor >= needed_bytes
    }

    /// Moves the payload to the end of a new zeroed allocation of `size` bytes.
    fn relocate(&mut self, size: usize)
        requires
            old(self).wf(),
            old(self).payload_len() <= size,
        ensures
            final(self).wf(),
            final(self).data@.len() == size,
            final(self).cursor == size - old(self).payload_len(),
            final(self).payload() == old(self).payload(),
            final(self).limit() == old(self).limit(),
    {
        let payload_len = self.data.len() - self.cursor;
        let mut new: Vec<u8> = vec![0u8; size];
        let base = size - payload_len;
        let mut i: usize = 0;
        while i < payload_len
            invariant
                i <= payload_len,
                payload_len == self.data@.len() - self.cursor,
                self.cursor + payload_len == self.data.len(),
                self.wf(),
                base + payload_len == size,
                new@.len() == size,
                forall|j: int| base <= j < base + i ==> #[trigger] new@[j] == self.data@[self.cursor + (j - base)],
            decreases payload_len - i,
        {
            new.set(base + i, self.data[self.cursor + i]);
            i = i + 1;
        }
        let ghost old_payload = self.payload();
        self.data = new;
        self.cursor = base;
        assert(self.payload() =~= old_payload);
    }

    /// Makes room for `needed_bytes` in front of the payload, growing the
    /// allocation to a power of two when they do not fit.
    pub fn ensure_fit(&mut self, needed_bytes: usize) -> (r: Result<()>)
        requires
            old(self).wf(),
            old(self).cursor < needed_bytes ==> old(self).payload_len() + needed_bytes
                <= pow2_limit(),
        ensures
            final(self).wf(),
            final(self).payload() == old(self).payload(),
            final(self).limit() == old(self).limit(),
            old(self).cursor >= needed_bytes ==> r is Ok && *final(self) == *old(self),
            old(self).cursor < needed_bytes ==> {
                let size = next_pow2((old(self).payload_len() + needed_bytes) as nat);
                if size > old(self).limit() {
                    r == Err::<(), Error>(Error::InsufficientSpace) && *final(self) == *old(self)
                } else {
                    &&& r is Ok
                    &&& final(self).data@.len() == size
                    &&& final(self).cursor == size - old(self).payload_len()
                    &&& final(self).cursor >= needed_bytes
                }
            },
    {
        if self.can_fit(needed_bytes) {
            return Ok(());
        }
        let payload_len = self.len();
        let size = next_power_of_two(payload_len + needed_bytes);
        if size > self.max_size {
            return Err(Error::InsufficientSpace);
        }
        proof {
            lemma_next_pow2((payload_len + needed_bytes) as nat);
        }
        self.relocate(size);
        Ok(())
    }

    /// Grows the allocation to `size() + deficit` rounded up to a power of two,
    /// keeping the payload at the end.
    pub fn grow_by(&mut self, deficit: usize) -> (r: Result<()>)
        requires
            old(self).wf(),
            old(self).data@.len() + deficit <= pow2_limit(),
        ensures
            final(self).wf(),
            final(self).payload() == old(self).payload(),
            final(self).limit() == old(self).limit(),
            ({
                let size = next_pow2((old(self).data@.len() + deficit) as nat);
                if size > old(self).limit() {
                    r == Err::<(), Error>(Error::InsufficientSpace) && *final(self) == *old(self)
                } else {
                    &&& r is Ok
                    &&& final(self).data@.len() == size
                    &&& final(self).cursor == size - old(self).payload_len()
                    &&& final(self).cursor >= old(self).cursor + deficit
                }
            }),
    {
        let size = next_power_of_two(self.data.len() + deficit);
        if size > self.max_size {
            return Err(Error::InsufficientSpace);
        }
        proof {
            lemma_next_pow2((self.data@.len() + deficit) as nat);
        }
        self.relocate(size);
        Ok(())
    }

    /// Number of bytes written.
    pub fn len(&self) -> (r: usize)
        requires
            self.wf(),
        ensures
            r == self.payload_len(),
    {
        self.data.len() - self.cursor
    }

    pub fn is_empty(&self) -> (r: bool)
        ensures
            r == (self.data@.len() == self.cursor),
    {
        self.data.len() == self.cursor
    }

    /// Forgets the payload by moving the cursor back to the end; the bytes stay.
    pub fn reset(&mut self)
        ensures
            final(self).data == old(self).data,
            final(self).cursor == old(self).data@.len(),
            final(self).limit() == old(self).limit(),
    {
        self.cursor = self.data.len();
    }

    /// Zeroes the whole allocation and forgets the payload.
    pub fn clear(&mut self)
        ensures
            final(self).data@.len() == old(self).data@.len(),
            forall|i: int| 0 <= i < final(self).data@.len() ==> final(self).data@[i] == 0,
            final(self).cursor == old(self).data@.len(),
            final(self).limit() == old(self).limit(),
    {
        let n = self.data.len();
        let mut i: usize = 0;
        while i < n
            invariant
                i <= n,
                n == self.data@.len(),
                self.max_size == old(self).max_size,
                forall|j: int| 0 <= j < i ==> self.data@[j] == 0,
            decreases n - i,
        {
            self.data.set(i, 0);
            i = i + 1;
        }
        self.cursor = n;
    }

    /// The written bytes.
    pub fn as_slice(&self) -> (r: &[u8])
        requires
            self.wf(),
        ensures
            r@ == self.payload(),
    {
        vstd::slice::slice_subrange(self.data.as_slice(), self.cursor, self.data.len())
    }

    /// The bytes written so far, to change in place.
    pub fn as_mut_slice(&mut self) -> (r: &mut [u8])
        requires
            old(self).wf(),
        ensures
            r@ == old(self).payload(),
            final(self).data@ == old(self).data@.subrange(0, old(self).cursor as int) + final(r)@,
            final(self).cursor == old(self).cursor,
            final(self).max_size == old(self).max_size,
    {
        let cursor = self.cursor;
        let (_written_before, payload) = self.data.as_mut_slice().split_at_mut(cursor);
        payload
    }
}

impl Default for BufferVec {
    /// A 4-byte buffer that may grow to 2^32 bytes (on targets where `usize`
    /// cannot hold 2^32, to the largest power of two it holds).
    fn default() -> (r: Self)
        ensures
            r.wf(),
            r.data@.len() == 4,
            r.cursor == 4,
            (u32::MAX as nat) <= pow2_limit() ==> r.limit() == next_pow2(u32::MAX as nat),
    {
        proof {
            lemma_next_pow2(u32::MAX as nat);
        }
        let max_size: usize = if (u32::MAX as usize) <= usize::MAX / 2 + 1 {
            u32::MAX as usize
        } else {
            usize::MAX / 2 + 1
        };
        Self::with_size(4, max_size)
    }
}

} // verus!
