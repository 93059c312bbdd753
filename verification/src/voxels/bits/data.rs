//! Occupancy bitmaps and material arrays of a 32×32×32 voxel chunk.
//!
//! Voxel `idx` (`0 <= idx < 32768`) sits at `y = idx % 32`, `x = (idx / 32) % 32`,
//! `z = idx / 1024`; its occupancy is bit `idx % 32` of word `idx / 32`.

use vstd::prelude::*;

use crate::voxels::utils::{bit_at, lemma_bit_clear_get, lemma_bit_set_get, lemma_index_bits};

verus! {

// ---------------------------------------------------------------------------
// Counting set bits
// ---------------------------------------------------------------------------

/// The number of set bits among the lowest `n` bits of `w`.
pub open spec fn ones_below(w: u32, n: nat) -> nat
    decreases n,
{
    if n == 0 {
        0
    } else {
        ones_below(w, (n - 1) as nat) + if bit_at(w, (n - 1) as u32) {
            1nat
        } else {
            0nat
        }
    }
}

/// The number of set bits of `w`.
pub open spec fn ones(w: u32) -> nat {
    ones_below(w, 32)
}

/// The number of set bits in the first `k` words.
pub open spec fn ones_in(words: Seq<u32>, k: nat) -> nat
    decreases k,
{
    if k == 0 {
        0
    } else {
        ones_in(words, (k - 1) as nat) + ones(words[k - 1])
    }
}

/// Whether voxel `idx` is marked: bit `idx % 32` of word `idx / 32`.
pub open spec fn marked(words: Seq<u32>, idx: int) -> bool {
    bit_at(words[idx / 32], (idx % 32) as u32)
}

/// The y coordinate of voxel `idx`.
pub open spec fn coord_y(idx: int) -> int {
    idx % 32
}

/// The x coordinate of voxel `idx`.
pub open spec fn coord_x(idx: int) -> int {
    (idx / 32) % 32
}

/// The z coordinate of voxel `idx`.
pub open spec fn coord_z(idx: int) -> int {
    idx / 1024
}

pub(crate) proof fn lemma_ones_below_bound(w: u32, n: nat)
    ensures
        ones_below(w, n) <= n,
    decreases n,
{
    if n > 0 {
        lemma_ones_below_bound(w, (n - 1) as nat);
    }
}

pub(crate) proof fn lemma_ones_in_bound(words: Seq<u32>, k: nat)
    ensures
        ones_in(words, k) <= 32 * k,
    decreases k,
{
    if k > 0 {
        lemma_ones_in_bound(words, (k - 1) as nat);
        lemma_ones_below_bound(words[k - 1], 32);
    }
}

/// Two words that differ at most in bit `b` differ in their set-bit count by that bit.
proof fn lemma_ones_one_bit(w: u32, v: u32, b: u32, n: nat)
    requires
        b < 32,
        n <= 32,
        forall|i: u32| i < 32 && i != b ==> bit_at(v, i) == bit_at(w, i),
    ensures
        ones_below(v, n) + (if n > b && bit_at(w, b) { 1nat } else { 0nat }) == ones_below(w, n)
            + (if n > b && bit_at(v, b) { 1nat } else { 0nat }),
    decreases n,
{
    if n > 0 {
        lemma_ones_one_bit(w, v, b, (n - 1) as nat);
    }
}

/// Replacing word `j` changes the count of the words before `k` by the change in that word.
pub(crate) proof fn lemma_ones_in_update(words: Seq<u32>, k: nat, j: int, v: u32)
    requires
        0 <= j < words.len(),
        k <= words.len(),
    ensures
        ones_in(words.update(j, v), k) + (if j < k { ones(words[j]) } else { 0nat }) == ones_in(
            words,
            k,
        ) + (if j < k { ones(v) } else { 0nat }),
    decreases k,
{
    if k > 0 {
        lemma_ones_in_update(words, (k - 1) as nat, j, v);
    }
}

/// Words that are all `c` hold `ones(c)` set bits each.
pub(crate) proof fn lemma_ones_in_uniform(words: Seq<u32>, k: nat, c: u32)
    requires
        k <= words.len(),
        forall|i: int| 0 <= i < words.len() ==> words[i] == c,
    ensures
        ones_in(words, k) == k * ones(c),
    decreases k,
{
    if k > 0 {
        lemma_ones_in_uniform(words, (k - 1) as nat, c);
        assert(words[k - 1] == c);
        let p = (k - 1) as nat;
        assert(k * ones(c) == p * ones(c) + ones(c)) by (nonlinear_arith)
            requires
                p == k - 1,
        ;
        assert(ones_in(words, k) == ones_in(words, p) + ones(words[k - 1]));
    } else {
        assert(0 * ones(c) == 0);
    }
}

pub(crate) proof fn lemma_ones_zero(n: nat)
    requires
        n <= 32,
    ensures
        ones_below(0, n) == 0,
    decreases n,
{
    if n > 0 {
        lemma_ones_zero((n - 1) as nat);
        let i = (n - 1) as u32;
        assert((0u32 >> i) & 1 != 1) by (bit_vector);
    }
}

proof fn lemma_ones_full(n: nat)
    requires
        n <= 32,
    ensures
        ones_below(u32::MAX, n) == n,
    decreases n,
{
    if n > 0 {
        lemma_ones_full((n - 1) as nat);
        let i = (n - 1) as u32;
        assert((0xffff_ffffu32 >> i) & 1 == 1) by (bit_vector)
            requires
                i < 32,
        ;
    }
}

/// Voxel `idx` lies at bit `idx % 32` of word `idx / 32`, as the shifts compute them.
proof fn lemma_index_split(idx: usize)
    requires
        idx < 32768,
    ensures
        idx >> 5 == idx / 32,
        idx & 31 == idx % 32,
        idx / 32 < 1024,
{
    lemma_index_bits(idx);
}

/// Setting bit `b` of a word adds one set bit unless it was set already.
pub(crate) proof fn lemma_ones_set(w: u32, b: u32)
    requires
        b < 32,
    ensures
        ones(w | (1u32 << b)) == ones(w) + if bit_at(w, b) { 0nat } else { 1nat },
        bit_at(w, b) <==> w & (1u32 << b) != 0,
{
    assert forall|i: u32| i < 32 && i != b implies bit_at(w | (1u32 << b), i) == bit_at(w, i) by {
        lemma_bit_set_get(w, b, i);
    }
    lemma_bit_set_get(w, b, b);
    lemma_ones_one_bit(w, w | (1u32 << b), b, 32);
    assert(((w >> b) & 1 == 1) <==> w & (1u32 << b) != 0) by (bit_vector)
        requires
            b < 32,
    ;
}

/// Clearing bit `b` of a word removes one set bit if it was set.
proof fn lemma_ones_clear(w: u32, b: u32)
    requires
        b < 32,
    ensures
        ones(w & !(1u32 << b)) + (if bit_at(w, b) { 1nat } else { 0nat }) == ones(w),
        bit_at(w, b) <==> w & (1u32 << b) != 0,
{
    assert forall|i: u32| i < 32 && i != b implies bit_at(w & !(1u32 << b), i) == bit_at(w, i) by {
        lemma_bit_clear_get(w, b, i);
    }
    lemma_bit_clear_get(w, b, b);
    lemma_ones_one_bit(w, w & !(1u32 << b), b, 32);
    assert(((w >> b) & 1 == 1) <==> w & (1u32 << b) != 0) by (bit_vector)
        requires
            b < 32,
    ;
}

// ---------------------------------------------------------------------------
// Occupancy bitmap
// ---------------------------------------------------------------------------

/// One bit per voxel of a chunk, with a running count of the set bits.
#[derive(Debug, Clone, Copy, PartialEq, Eq, Hash)]
pub struct OccupancyArray {
    pub count: u32,
    pub bits: [u32; 1024],
}

impl OccupancyArray {
    /// The kept count is the number of set bits.
    pub open spec fn wf(&self) -> bool {
        self.count == ones_in(self.bits@, 1024)
    }

    /// No voxel is set.
    pub fn default() -> (r: Self)
        ensures
            forall|i: int| 0 <= i < 1024 ==> r.bits@[i] == 0,
            r.count == 0,
            r.wf(),
    {
        let r = Self { bits: [0u32; 1024], count: 0 };
        proof {
            lemma_ones_zero(32);
            lemma_ones_in_uniform(r.bits@, 1024, 0);
        }
        r
    }

    /// An array of the given words and count, taken as they are.
    pub fn new(bits: [u32; 1024], count: u32) -> (r: Self)
        ensures
            r.bits == bits,
            r.count == count,
    {
        Self { bits, count }
    }

    /// Every voxel is set.
    pub fn full() -> (r: Self)
        ensures
            forall|i: int| 0 <= i < 1024 ==> r.bits@[i] == u32::MAX,
            r.count == 32768,
            r.wf(),
    {
        let r = Self { bits: [u32::MAX; 1024], count: 32768 };
        proof {
            lemma_ones_full(32);
            lemma_ones_in_uniform(r.bits@, 1024, u32::MAX);
        }
        r
    }

    pub fn count(&self) -> (r: u32)
        ensures
            r == self.count,
    {
        self.count
    }

    /// Sets voxel `idx`, counting it if it was not set.
    pub fn set_from_index(&mut self, idx: usize)
        requires
            idx < 32768,
            !marked(old(self).bits@, idx as int) ==> old(self).count < u32::MAX,
        ensures
            final(self).bits@ == old(self).bits@.update(
                (idx / 32) as int,
                old(self).bits@[(idx / 32) as int] | (1u32 << ((idx % 32) as u32)),
            ),
            final(self).count == old(self).count + if marked(old(self).bits@, idx as int) {
                0int
            } else {
                1int
            },
            old(self).wf() ==> final(self).wf(),
    {
        proof {
            lemma_index_split(idx);
        }
        let word = idx >> 5;
        let bit = (idx & 31) as u32;
        let mask: u32 = 1u32 << bit;
        let old_word = self.bits[word];
        self.bits[word] = old_word | mask;
        proof {
            lemma_ones_set(old_word, bit);
            lemma_ones_in_update(old(self).bits@, 1024, word as int, old_word | mask);
        }
        if old_word & mask == 0 {
            self.count = self.count + 1;
        }
    }

    /// Clears voxel `idx`, uncounting it if it was set.
    pub fn clear_from_index(&mut self, idx: usize)
        requires
            idx < 32768,
            marked(old(self).bits@, idx as int) ==> old(self).count > 0,
        ensures
            final(self).bits@ == old(self).bits@.update(
                (idx / 32) as int,
                old(self).bits@[(idx / 32) as int] & !(1u32 << ((idx % 32) as u32)),
            ),
            final(self).count == old(self).count - if marked(old(self).bits@, idx as int) {
                1int
            } else {
                0int
            },
            old(self).wf() ==> final(self).wf(),
    {
        proof {
            lemma_index_split(idx);
        }
        self.clear_from_word_bit(idx >> 5, idx & 31);
    }

    /// Clears bit `bit` of word `word`, uncounting it if it was set.
    pub fn clear_from_word_bit(&mut self, word: usize, bit: usize)
        requires
            word < 1024,
            bit < 32,
            bit_at(old(self).bits@[word as int], bit as u32) ==> old(self).count > 0,
        ensures
            final(self).bits@ == old(self).bits@.update(
                word as int,
                old(self).bits@[word as int] & !(1u32 << (bit as u32)),
            ),
            final(self).count == old(self).count - if bit_at(
                old(self).bits@[word as int],
                bit as u32,
            ) {
                1int
            } else {
                0int
            },
            old(self).wf() ==> final(self).wf(),
    {
        let mask: u32 = 1u32 << (bit as u32);
        let old_word = self.bits[word];
        self.bits[word] = old_word & !mask;
        proof {
            lemma_ones_clear(old_word, bit as u32);
            lemma_ones_in_update(old(self).bits@, 1024, word as int, old_word & !mask);
            lemma_ones_in_bound(old(self).bits@, 1024);
        }
        if old_word & mask != 0 {
            self.count = self.count - 1;
        }
    }

    /// Whether voxel `idx` is set.
    pub fn check_index(&self, idx: usize) -> (r: bool)
        requires
            idx < 32768,
        ensures
            r == marked(self.bits@, idx as int),
    {
        proof {
            lemma_index_split(idx);
        }
        (self.bits[idx >> 5] >> ((idx & 31) as u32)) & 1 == 1
    }

    /// Whether bit `bit` of word `word` is set.
    pub fn check_bit_from_coord(&self, word: usize, bit: usize) -> (r: bool)
        requires
            word < 1024,
            bit < 32,
        ensures
            r == bit_at(self.bits@[word as int], bit as u32),
    {
        (self.bits[word] >> (bit as u32)) & 1 == 1
    }

    pub fn read_word(&self, word_idx: usize) -> (r: u32)
        requires
            word_idx < 1024,
        ensures
            r == self.bits@[word_idx as int],
    {
        self.bits[word_idx]
    }

    /// Whether voxel `idx` is set.
    pub fn read_bit_from_index(&self, idx: usize) -> (r: bool)
        requires
            idx < 32768,
        ensures
            r == marked(self.bits@, idx as int),
    {
        proof {
            lemma_index_split(idx);
        }
        (self.bits[idx >> 5] >> ((idx & 31) as u32)) & 1 == 1
    }

    /// Whether the count says every voxel is set.
    pub fn is_full(&self) -> (r: bool)
        ensures
            r == (self.count == 32768),
    {
        self.count == 32768
    }

    /// Whether the count says no voxel is set.
    pub fn is_empty(&self) -> (r: bool)
        ensures
            r == (self.count == 0),
    {
        self.count == 0
    }
}

/// A word with no bit set has no marked voxel.
proof fn lemma_zero_word_unmarked(j: u32)
    requires
        j < 32,
    ensures
        !bit_at(0u32, j),
{
    assert((0u32 >> j) & 1 != 1) by (bit_vector);
}

impl OccupancyArray {
    /// The first set voxel, or `None` when the count is 0 or no voxel is set.
    pub fn find_first_set_bit(&self) -> (r: Option<u32>)
        ensures
            self.count == 0 ==> r is None,
            self.count != 0 ==> match r {
                None => forall|q: int| 0 <= q < 32768 ==> !marked(self.bits@, q),
                Some(p) => {
                    &&& p < 32768
                    &&& marked(self.bits@, p as int)
                    &&& forall|q: int| 0 <= q < p ==> !marked(self.bits@, q)
                },
            },
    {
        broadcast use vstd::std_specs::bits::axiom_u32_trailing_zeros;

        if self.count == 0 {
            return None;
        }
        let mut i: usize = 0;
        while i < 1024
            invariant
                i <= 1024,
                self.count != 0,
                forall|k: int| 0 <= k < i ==> self.bits@[k] == 0,
            decreases 1024 - i,
        {
            let word = self.bits[i];
            if word != 0 {
                let bit_pos = word.trailing_zeros();
                proof {
                    assert(i << 5 == i * 32) by (bit_vector)
                        requires
                            i < 1024,
                    ;
                    let p = (i * 32 + bit_pos) as int;
                    assert(p / 32 == i && p % 32 == bit_pos);
                    assert forall|q: int| 0 <= q < p implies !marked(self.bits@, q) by {
                        if q / 32 < i {
                            lemma_zero_word_unmarked((q % 32) as u32);
                        } else {
                            assert(q / 32 == i);
                            assert(((q % 32) as u32) < bit_pos);
                        }
                    }
                }
                return Some((i << 5) as u32 + bit_pos);
            }
            i = i + 1;
        }
        proof {
            assert forall|q: int| 0 <= q < 32768 implies !marked(self.bits@, q) by {
                lemma_zero_word_unmarked((q % 32) as u32);
            }
        }
        None
    }

    /// The index of the first word with a set bit; 0 when the count is 0 or no word
    /// has a set bit.
    pub fn find_first_non_zero_word(&self) -> (r: u32)
        ensures
            self.count == 0 ==> r == 0,
            self.count != 0 ==> if exists|k: int| 0 <= k < 1024 && self.bits@[k] != 0 {
                &&& r < 1024
                &&& self.bits@[r as int] != 0
                &&& forall|k: int| 0 <= k < r ==> self.bits@[k] == 0
            } else {
                r == 0
            },
    {
        if self.count == 0 {
            return 0;
        }
        let mut i: usize = 0;
        while i < 1024
            invariant
                i <= 1024,
                self.count != 0,
                forall|k: int| 0 <= k < i ==> self.bits@[k] == 0,
            decreases 1024 - i,
        {
            if self.bits[i] != 0 {
                return i as u32;
            }
            i = i + 1;
        }
        0
    }
}

/// A word whose lowest `n` bits are set (all bits from 32 on).
fn low_bits_mask(n: u32) -> (r: u32)
    ensures
        forall|j: u32| j < 32 ==> (bit_at(r, j) <==> j < n),
{
    if n == 0 {
        proof {
            assert forall|j: u32| j < 32 implies !bit_at(0u32, j) by {
                lemma_zero_word_unmarked(j);
            }
        }
        0
    } else if n >= 32 {
        proof {
            assert forall|j: u32| j < 32 implies bit_at(u32::MAX, j) by {
                assert((0xffff_ffffu32 >> j) & 1 == 1) by (bit_vector)
                    requires
                        j < 32,
                ;
            }
        }
        u32::MAX
    } else {
        proof {
            assert(1u32 << n >= 1) by (bit_vector)
                requires
                    n < 32,
            ;
        }
        let r = (1u32 << n) - 1;
        proof {
            assert forall|j: u32| j < 32 implies (bit_at(r, j) <==> j < n) by {
                assert((((((1u32 << n) - 1) as u32) >> j) & 1 == 1) <==> j < n) by (bit_vector)
                    requires
                        0 < n < 32,
                        j < 32,
                ;
            }
        }
        r
    }
}

/// A word whose bits below `n` are set and the others clear has `min(m, n)` set bits among
/// its lowest `m`.
proof fn lemma_ones_low_bits(w: u32, n: u32, m: nat)
    requires
        m <= 32,
        forall|j: u32| j < 32 ==> (bit_at(w, j) <==> j < n),
    ensures
        ones_below(w, m) == if m < n { m } else { n as nat },
    decreases m,
{
    if m > 0 {
        lemma_ones_low_bits(w, n, (m - 1) as nat);
        assert(bit_at(w, (m - 1) as u32) <==> (m - 1) < n);
    }
}

impl OccupancyArray {
    /// Every column filled from the bottom up to `height` voxels (all of it from 32 on);
    /// the count is the number of set bits, `min(height, 32) * 1024`.
    pub fn filled_to_height(height: u32) -> (r: Self)
        ensures
            forall|i: int, j: u32|
                0 <= i < 1024 && j < 32 ==> (#[trigger] bit_at(r.bits@[i], j) <==> j < height),
            forall|i: int| 0 <= i < 1024 ==> #[trigger] r.bits@[i] == r.bits@[0],
            r.count == (if height < 32 { height as nat } else { 32 }) * 1024,
            r.wf(),
    {
        let pattern = low_bits_mask(height);
        let filled: u32 = if height < 32 { height } else { 32 };
        let count = filled * 1024;
        let r = OccupancyArray { bits: [pattern; 1024], count };
        proof {
            lemma_ones_low_bits(pattern, height, 32);
            lemma_ones_in_uniform(r.bits@, 1024, pattern);
            assert(ones(pattern) == filled);
        }
        r
    }
}

// ---------------------------------------------------------------------------
// Material array
// ---------------------------------------------------------------------------

/// The material of each voxel of a chunk (0 is air), with its occupancy bitmap.
#[derive(Debug, Clone, PartialEq, Eq, Hash)]
pub struct LinearArray {
    pub data: [u8; 32768],
    pub occupancy: OccupancyArray,
}

/// `bits` marks exactly the voxels where `data` is not 0.
pub open spec fn marks_solid(bits: Seq<u32>, data: Seq<u8>) -> bool {
    forall|idx: int| 0 <= idx < 32768 ==> (#[trigger] marked(bits, idx) <==> data[idx] != 0)
}

/// The bitmap and count of the voxels of `marks` that are not 0.
fn occupancy_of(marks: &[u8; 32768]) -> (r: OccupancyArray)
    ensures
        r.wf(),
        marks_solid(r.bits@, marks@),
{
    let mut bits = [0u32; 1024];
    let mut count: u32 = 0;
    let mut i: usize = 0;
    proof {
        lemma_ones_zero(32);
        lemma_ones_in_uniform(bits@, 1024, 0);
        assert forall|q: int| 0 <= q < 32768 implies !marked(bits@, q) by {
            lemma_zero_word_unmarked((q % 32) as u32);
        }
    }
    while i < 32768
        invariant
            i <= 32768,
            bits@.len() == 1024,
            count == ones_in(bits@, 1024),
            count <= i,
            forall|q: int| 0 <= q < 32768 ==> (#[trigger] marked(bits@, q) <==> (q < i && marks@[q] != 0)),
        decreases 32768 - i,
    {
        if marks[i] != 0 {
            proof {
                lemma_index_split(i);
            }
            let w = i >> 5;
            let b = (i & 31) as u32;
            let old_word = bits[w];
            let ghost before = bits@;
            bits[w] = old_word | (1u32 << b);
            proof {
                assert(marks@[i as int] != 0);
                assert(!marked(before, i as int));
                lemma_ones_set(old_word, b);
                lemma_ones_in_update(before, 1024, w as int, old_word | (1u32 << b));
                assert forall|q: int| 0 <= q < 32768 implies (#[trigger] marked(bits@, q) <==> (q < i + 1
                    && marks@[q] != 0)) by {
                    assert(marked(before, q) <==> (q < i && marks@[q] != 0));
                    if q / 32 == w {
                        lemma_bit_set_get(old_word, b, (q % 32) as u32);
                        assert(bits@[q / 32] == old_word | (1u32 << b));
                        assert(before[q / 32] == old_word);
                        assert((q % 32 == b) <==> q == i);
                    } else {
                        assert(bits@[q / 32] == before[q / 32]);
                        assert(q != i);
                    }
                }
            }
            count = count + 1;
        } else {
            proof {
                assert(marks@[i as int] == 0);
                assert forall|q: int| 0 <= q < 32768 implies (#[trigger] marked(bits@, q) <==> (q < i + 1
                    && marks@[q] != 0)) by {
                    assert(marked(bits@, q) <==> (q < i && marks@[q] != 0));
                }
            }
        }
        i = i + 1;
    }
    OccupancyArray { bits, count }
}

/// Clearing the lowest set bit `t` of `w` (`w & (w - 1)`) clears exactly bit `t`.
pub(crate) proof fn lemma_clear_lowest(w: u32, t: u32, j: u32)
    requires
        w != 0,
        t < 32,
        j < 32,
        (w >> t) & 1 == 1,
        w << ((32 - t) as u32) == 0,
    ensures
        bit_at(w & ((w - 1) as u32), j) <==> (j != t && bit_at(w, j)),
        w & ((w - 1) as u32) < w,
{
    assert((((w & ((w - 1) as u32)) >> j) & 1 == 1) <==> (j != t && (w >> j) & 1 == 1)) by (bit_vector)
        requires
            w != 0,
            t < 32,
            j < 32,
            (w >> t) & 1 == 1,
            w << ((32 - t) as u32) == 0,
    ;
    assert(w & ((w - 1) as u32) < w) by (bit_vector)
        requires
            w != 0,
    ;
}

/// The position of bit `bit` of word `word_idx`, as `(word_idx << 5) | bit` computes it.
pub(crate) proof fn lemma_join_index(word_idx: usize, bit: usize)
    requires
        word_idx < 1024,
        bit < 32,
    ensures
        (word_idx << 5) | bit == word_idx * 32 + bit,
        word_idx * 32 + bit < 32768,
{
    assert((word_idx << 5) | bit == word_idx * 32 + bit) by (bit_vector)
        requires
            word_idx < 1024,
            bit < 32,
    ;
}

impl LinearArray {
    /// The bitmap keeps its count and marks exactly the voxels that are not air.
    pub open spec fn wf(&self) -> bool {
        &&& self.occupancy.wf()
        &&& marks_solid(self.occupancy.bits@, self.data@)
    }

    /// A chunk with the given occupancy whose set voxels are all of `material`.
    pub fn from_occupancy(occupancy: &OccupancyArray, material: u8) -> (r: Self)
        ensures
            r.occupancy == *occupancy,
            forall|idx: int|
                0 <= idx < 32768 ==> #[trigger] r.data@[idx] == if marked(occupancy.bits@, idx) {
                    material
                } else {
                    0u8
                },
    {
        broadcast use vstd::std_specs::bits::axiom_u32_trailing_zeros;

        let mut data = [0u8; 32768];
        let mut word_idx: usize = 0;
        while word_idx < 1024
            invariant
                word_idx <= 1024,
                forall|k: int|
                    0 <= k < 32768 ==> #[trigger] data@[k] == if k < word_idx * 32 {
                        if marked(occupancy.bits@, k) {
                            material
                        } else {
                            0u8
                        }
                    } else {
                        0u8
                    },
            decreases 1024 - word_idx,
        {
            let orig = occupancy.bits[word_idx];
            let mut word = orig;
            let ghost base = word_idx * 32;
            while word != 0
                invariant
                    word_idx < 1024,
                    base == word_idx * 32,
                    orig == occupancy.bits@[word_idx as int],
                    forall|j: u32| j < 32 ==> #[trigger] bit_at(word, j) ==> bit_at(orig, j),
                    forall|k: int|
                        0 <= k < 32768 ==> #[trigger] data@[k] == if k < base {
                            if marked(occupancy.bits@, k) {
                                material
                            } else {
                                0u8
                            }
                        } else if k < base + 32 && bit_at(orig, (k - base) as u32) && !bit_at(
                            word,
                            (k - base) as u32,
                        ) {
                            material
                        } else {
                            0u8
                        },
                decreases word,
            {
                let t = word.trailing_zeros();
                let bit = t as usize;
                proof {
                    lemma_join_index(word_idx, bit);
                    assert(word << ((32 - t) as u32) == 0);
                }
                let idx = (word_idx << 5) | bit;
                let ghost before = data@;
                data[idx] = material;
                let ghost prev = word;
                word = word & (word - 1);
                proof {
                    assert forall|j: u32| j < 32 implies #[trigger] bit_at(word, j) == (j != t && bit_at(
                        prev,
                        j,
                    )) by {
                        lemma_clear_lowest(prev, t, j);
                    }
                    lemma_clear_lowest(prev, t, 0);
                    assert forall|k: int| 0 <= k < 32768 implies #[trigger] data@[k] == if k < base {
                        if marked(occupancy.bits@, k) {
                            material
                        } else {
                            0u8
                        }
                    } else if k < base + 32 && bit_at(orig, (k - base) as u32) && !bit_at(
                        word,
                        (k - base) as u32,
                    ) {
                        material
                    } else {
                        0u8
                    } by {
                        assert(before[k] == if k < base {
                            if marked(occupancy.bits@, k) {
                                material
                            } else {
                                0u8
                            }
                        } else if k < base + 32 && bit_at(orig, (k - base) as u32) && !bit_at(
                            prev,
                            (k - base) as u32,
                        ) {
                            material
                        } else {
                            0u8
                        });
                        if base <= k < base + 32 {
                            assert(bit_at(word, (k - base) as u32) == ((k - base) != t && bit_at(
                                prev,
                                (k - base) as u32,
                            )));
                            if k == idx {
                                assert(bit_at(prev, t));
                                assert(bit_at(orig, t));
                            } else {
                                assert(data@[k] == before[k]);
                            }
                        } else {
                            assert(data@[k] == before[k]);
                        }
                    }
                }
            }
            proof {
                assert forall|k: int| 0 <= k < 32768 implies #[trigger] data@[k] == if k < (word_idx
                    + 1) * 32 {
                    if marked(occupancy.bits@, k) {
                        material
                    } else {
                        0u8
                    }
                } else {
                    0u8
                } by {
                    if base <= k < base + 32 {
                        lemma_zero_word_unmarked((k - base) as u32);
                        assert(k / 32 == word_idx && k % 32 == k - base);
                    }
                }
            }
            word_idx = word_idx + 1;
        }
        Self { data, occupancy: *occupancy }
    }
}

/// `v` is a material that `f` may give for voxel `idx` when it is marked in `bits`,
/// and 0 when it is not.
pub open spec fn chosen<F: Fn(usize, usize, usize) -> u8>(f: F, bits: Seq<u32>, idx: int, v: u8) -> bool {
    if marked(bits, idx) {
        f.ensures((coord_x(idx) as usize, coord_y(idx) as usize, coord_z(idx) as usize), v)
    } else {
        v == 0
    }
}

impl LinearArray {
    /// A chunk with the given occupancy whose set voxels get the material that
    /// `material_fn` gives for their `(x, y, z)`.
    pub fn from_occupancy_with<F>(occupancy: &OccupancyArray, material_fn: F) -> (r: Self) where
        F: Fn(usize, usize, usize) -> u8,
        requires
            forall|x: usize, y: usize, z: usize|
                x < 32 && y < 32 && z < 32 ==> #[trigger] material_fn.requires((x, y, z)),
        ensures
            r.occupancy == *occupancy,
            forall|idx: int|
                0 <= idx < 32768 ==> #[trigger] chosen(material_fn, occupancy.bits@, idx, r.data@[idx]),
    {
        broadcast use vstd::std_specs::bits::axiom_u32_trailing_zeros;

        let mut data = [0u8; 32768];
        let mut word_idx: usize = 0;
        while word_idx < 1024
            invariant
                word_idx <= 1024,
                forall|x: usize, y: usize, z: usize|
                    x < 32 && y < 32 && z < 32 ==> #[trigger] material_fn.requires((x, y, z)),
                forall|k: int|
                    0 <= k < 32768 ==> if k < word_idx * 32 {
                        chosen(material_fn, occupancy.bits@, k, #[trigger] data@[k])
                    } else {
                        data@[k] == 0
                    },
            decreases 1024 - word_idx,
        {
            let orig = occupancy.bits[word_idx];
            let mut word = orig;
            let ghost base = word_idx * 32;
            let z = word_idx >> 5;
            let x = word_idx & 31;
            proof {
                assert(z == word_idx / 32 && x == word_idx % 32) by (bit_vector)
                    requires
                        z == word_idx >> 5,
                        x == word_idx & 31,
                ;
            }
            while word != 0
                invariant
                    word_idx < 1024,
                    base == word_idx * 32,
                    z == word_idx / 32,
                    x == word_idx % 32,
                    orig == occupancy.bits@[word_idx as int],
                    forall|x: usize, y: usize, z: usize|
                        x < 32 && y < 32 && z < 32 ==> #[trigger] material_fn.requires((x, y, z)),
                    forall|j: u32| j < 32 ==> #[trigger] bit_at(word, j) ==> bit_at(orig, j),
                    forall|k: int|
                        0 <= k < 32768 ==> if k < base {
                            chosen(material_fn, occupancy.bits@, k, #[trigger] data@[k])
                        } else if k < base + 32 && bit_at(orig, (k - base) as u32) && !bit_at(
                            word,
                            (k - base) as u32,
                        ) {
                            material_fn.ensures(
                                (coord_x(k) as usize, coord_y(k) as usize, coord_z(k) as usize),
                                data@[k],
                            )
                        } else {
                            data@[k] == 0
                        },
                decreases word,
            {
                let t = word.trailing_zeros();
                let bit = t as usize;
                proof {
                    lemma_join_index(word_idx, bit);
                    assert(word << ((32 - t) as u32) == 0);
                }
                let idx = (word_idx << 5) | bit;
                let ghost before = data@;
                let m = material_fn(x, bit, z);
                data[idx] = m;
                let ghost prev = word;
                word = word & (word - 1);
                proof {
                    assert(coord_x(idx as int) == x && coord_y(idx as int) == bit && coord_z(idx as int)
                        == z);
                    assert forall|j: u32| j < 32 implies #[trigger] bit_at(word, j) == (j != t && bit_at(
                        prev,
                        j,
                    )) by {
                        lemma_clear_lowest(prev, t, j);
                    }
                    lemma_clear_lowest(prev, t, 0);
                    assert forall|k: int| 0 <= k < 32768 implies if k < base {
                        chosen(material_fn, occupancy.bits@, k, #[trigger] data@[k])
                    } else if k < base + 32 && bit_at(orig, (k - base) as u32) && !bit_at(
                        word,
                        (k - base) as u32,
                    ) {
                        material_fn.ensures(
                            (coord_x(k) as usize, coord_y(k) as usize, coord_z(k) as usize),
                            data@[k],
                        )
                    } else {
                        data@[k] == 0
                    } by {
                        let _ = before[k];
                        if k != idx {
                            assert(data@[k] == before[k]);
                        }
                        if base <= k < base + 32 {
                            assert(bit_at(word, (k - base) as u32) == ((k - base) != t && bit_at(
                                prev,
                                (k - base) as u32,
                            )));
                            if k == idx {
                                assert(bit_at(prev, t));
                                assert(bit_at(orig, t));
                            }
                        }
                    }
                }
            }
            proof {
                assert forall|k: int| 0 <= k < 32768 implies if k < (word_idx + 1) * 32 {
                    chosen(material_fn, occupancy.bits@, k, #[trigger] data@[k])
                } else {
                    data@[k] == 0
                } by {
                    if base <= k < base + 32 {
                        lemma_zero_word_unmarked((k - base) as u32);
                        assert(k / 32 == word_idx && k % 32 == k - base);
                    }
                }
            }
            word_idx = word_idx + 1;
        }
        Self { data, occupancy: *occupancy }
    }
}

impl LinearArray {
    /// Every voxel of material `value`, every voxel set.
    pub fn uniform(value: u8) -> (r: Self)
        ensures
            forall|idx: int| 0 <= idx < 32768 ==> #[trigger] r.data@[idx] == value,
            r.occupancy.count == 32768,
            forall|i: int| 0 <= i < 1024 ==> #[trigger] r.occupancy.bits@[i] == u32::MAX,
            value != 0 ==> r.wf(),
    {
        Self::filled(value)
    }

    /// All air.
    pub fn default() -> (r: Self)
        ensures
            forall|idx: int| 0 <= idx < 32768 ==> #[trigger] r.data@[idx] == 0,
            r.occupancy.count == 0,
            r.wf(),
    {
        Self::new()
    }

    /// All air.
    pub fn new() -> (r: Self)
        ensures
            forall|idx: int| 0 <= idx < 32768 ==> #[trigger] r.data@[idx] == 0,
            r.occupancy.count == 0,
            r.wf(),
    {
        let occupancy = OccupancyArray::default();
        let r = Self { data: [0u8; 32768], occupancy };
        proof {
            assert forall|idx: int| 0 <= idx < 32768 implies (#[trigger] marked(r.occupancy.bits@, idx)
                <==> r.data@[idx] != 0) by {
                lemma_zero_word_unmarked((idx % 32) as u32);
            }
        }
        r
    }

    /// Every voxel of material `value`, every voxel set.
    pub fn filled(value: u8) -> (r: Self)
        ensures
            forall|idx: int| 0 <= idx < 32768 ==> #[trigger] r.data@[idx] == value,
            r.occupancy.count == 32768,
            forall|i: int| 0 <= i < 1024 ==> #[trigger] r.occupancy.bits@[i] == u32::MAX,
            value != 0 ==> r.wf(),
    {
        let occupancy = OccupancyArray::full();
        let r = Self { data: [value; 32768], occupancy };
        proof {
            assert forall|idx: int| 0 <= idx < 32768 implies #[trigger] marked(r.occupancy.bits@, idx) by {
                let j = (idx % 32) as u32;
                assert((0xffff_ffffu32 >> j) & 1 == 1) by (bit_vector)
                    requires
                        j < 32,
                ;
            }
        }
        r
    }

    /// Whether the bitmap's count is 0.
    pub fn is_empty(&self) -> (r: bool)
        ensures
            r == (self.occupancy.count == 0),
    {
        self.occupancy.count == 0
    }

    /// The bitmap's count of set voxels.
    pub fn count(&self) -> (r: u32)
        ensures
            r == self.occupancy.count,
    {
        self.occupancy.count
    }

    /// Sets voxel `index` to `value`, setting its bit when it turns from air to solid
    /// and clearing it when it turns from solid to air.
    pub fn set(&mut self, index: usize, value: u8)
        requires
            index < 32768,
            old(self).data@[index as int] == 0 && value != 0 && !marked(
                old(self).occupancy.bits@,
                index as int,
            ) ==> old(self).occupancy.count < u32::MAX,
            old(self).data@[index as int] != 0 && value == 0 && marked(
                old(self).occupancy.bits@,
                index as int,
            ) ==> old(self).occupancy.count > 0,
        ensures
            final(self).data@ == old(self).data@.update(index as int, value),
            old(self).wf() ==> final(self).wf(),
            old(self).data@[index as int] == 0 && value != 0 ==> final(self).occupancy.bits@
                == old(self).occupancy.bits@.update(
                (index / 32) as int,
                old(self).occupancy.bits@[(index / 32) as int] | (1u32 << ((index % 32) as u32)),
            ),
            old(self).data@[index as int] != 0 && value == 0 ==> final(self).occupancy.bits@
                == old(self).occupancy.bits@.update(
                (index / 32) as int,
                old(self).occupancy.bits@[(index / 32) as int] & !(1u32 << ((index % 32) as u32)),
            ),
            (old(self).data@[index as int] == 0) == (value == 0) ==> final(self).occupancy
                == old(self).occupancy,
    {
        let old_value = self.data[index];
        if old_value != value {
            self.data[index] = value;
            if old_value == 0 && value != 0 {
                self.occupancy.set_from_index(index);
            } else if old_value != 0 && value == 0 {
                self.occupancy.clear_from_index(index);
            }
            proof {
                if old(self).wf() {
                    lemma_index_split(index);
                    let w = (index / 32) as int;
                    let b = (index % 32) as u32;
                    assert forall|q: int| 0 <= q < 32768 implies (#[trigger] marked(
                        self.occupancy.bits@,
                        q,
                    ) <==> self.data@[q] != 0) by {
                        assert(marked(old(self).occupancy.bits@, q) <==> old(self).data@[q] != 0);
                        if q / 32 == w {
                            lemma_bit_set_get(old(self).occupancy.bits@[w], b, (q % 32) as u32);
                            lemma_bit_clear_get(old(self).occupancy.bits@[w], b, (q % 32) as u32);
                            assert((q % 32 == b) <==> q == index);
                        }
                    }
                }
            }
        } else {
            assert(self.data@ =~= old(self).data@.update(index as int, value));
        }
    }

    /// `Some(0)` when the bitmap's count is 0; otherwise `Some(m)` when every voxel is
    /// of material `m`, and `None` when they differ.
    pub fn is_uniform(&self) -> (r: Option<u8>)
        ensures
            self.occupancy.count == 0 ==> r == Some(0u8),
            self.occupancy.count != 0 ==> r == if forall|i: int|
                0 <= i < 32768 ==> #[trigger] self.data@[i] == self.data@[0] {
                Some(self.data@[0])
            } else {
                None::<u8>
            },
    {
        if self.occupancy.is_empty() {
            return Some(0);
        }
        let first = self.data[0];
        let mut i: usize = 0;
        while i < 32768
            invariant
                i <= 32768,
                first == self.data@[0],
                self.occupancy.count != 0,
                forall|k: int| 0 <= k < i ==> #[trigger] self.data@[k] == first,
            decreases 32768 - i,
        {
            if self.data[i] != first {
                return None;
            }
            i = i + 1;
        }
        Some(first)
    }
}

/// The coordinates of voxel `i`, as the shifts and masks compute them.
proof fn lemma_coords(i: usize)
    requires
        i < 32768,
    ensures
        i & 31 == coord_y(i as int),
        (i >> 5) & 31 == coord_x(i as int),
        i >> 10 == coord_z(i as int),
        coord_z(i as int) < 32,
{
    lemma_index_bits(i);
}

/// The checkerboard pattern: 1 where `x + y + z` is odd, or even for the complement.
pub open spec fn checker(idx: int, complement: bool) -> u8 {
    if ((coord_x(idx) + coord_y(idx) + coord_z(idx)) % 2 == 1) != complement {
        1
    } else {
        0
    }
}

/// A voxel of the walls of thickness `t` of a hollow cube filling the chunk.
pub open spec fn on_wall(idx: int, t: int) -> bool {
    ||| coord_x(idx) < t
    ||| coord_x(idx) >= 32 - t
    ||| coord_y(idx) < t
    ||| coord_y(idx) >= 32 - t
    ||| coord_z(idx) < t
    ||| coord_z(idx) >= 32 - t
}

/// A voxel of a pillar: its x and z are multiples of `spacing`.
pub open spec fn on_pillar(idx: int, spacing: int) -> bool {
    coord_x(idx) % spacing == 0 && coord_z(idx) % spacing == 0
}

impl LinearArray {
    /// The chunk of the given materials, with the bitmap of its solid voxels.
    fn from_data(data: [u8; 32768]) -> (r: Self)
        ensures
            r.data == data,
            r.wf(),
    {
        let occupancy = occupancy_of(&data);
        Self { data, occupancy }
    }

    /// A 3D checkerboard of material 1: voxels where `x + y + z` is odd, or even
    /// when `complement` is set.
    pub fn test_checkerboard(complement: bool) -> (r: Self)
        ensures
            r.wf(),
            forall|idx: int| 0 <= idx < 32768 ==> #[trigger] r.data@[idx] == checker(idx, complement),
    {
        let mut data = [0u8; 32768];
        let mut i: usize = 0;
        while i < 32768
            invariant
                i <= 32768,
                forall|k: int| 0 <= k < i ==> #[trigger] data@[k] == checker(k, complement),
            decreases 32768 - i,
        {
            let y = i & 31;
            let x = (i >> 5) & 31;
            let z = i >> 10;
            proof {
                lemma_coords(i);
                assert((x ^ y ^ z) & 1 == (x + y + z) % 2) by (bit_vector)
                    requires
                        x < 32,
                        y < 32,
                        z < 32,
                ;
            }
            let mut val = ((x ^ y ^ z) & 1) as u8;
            if complement {
                proof {
                    assert(val ^ 1 == 1 - val) by (bit_vector)
                        requires
                            val <= 1,
                    ;
                }
                val = val ^ 1;
            }
            data[i] = val;
            i = i + 1;
        }
        Self::from_data(data)
    }

    /// Material 1 on odd y, air on even y: horizontal planes.
    pub fn test_y_banded() -> (r: Self)
        ensures
            r.wf(),
            forall|idx: int| 0 <= idx < 32768 ==> #[trigger] r.data@[idx] == (coord_y(idx) % 2) as u8,
    {
        let mut data = [0u8; 32768];
        let mut i: usize = 0;
        while i < 32768
            invariant
                i <= 32768,
                forall|k: int| 0 <= k < i ==> #[trigger] data@[k] == (coord_y(k) % 2) as u8,
            decreases 32768 - i,
        {
            let y = i & 31;
            proof {
                lemma_coords(i);
                lemma_index_bits(y);
            }
            data[i] = (y & 1) as u8;
            i = i + 1;
        }
        Self::from_data(data)
    }

    /// Material 1 on odd x, air on even x: vertical slices.
    pub fn test_x_banded() -> (r: Self)
        ensures
            r.wf(),
            forall|idx: int| 0 <= idx < 32768 ==> #[trigger] r.data@[idx] == (coord_x(idx) % 2) as u8,
    {
        let mut data = [0u8; 32768];
        let mut i: usize = 0;
        while i < 32768
            invariant
                i <= 32768,
                forall|k: int| 0 <= k < i ==> #[trigger] data@[k] == (coord_x(k) % 2) as u8,
            decreases 32768 - i,
        {
            let x = (i >> 5) & 31;
            proof {
                lemma_coords(i);
                lemma_index_bits(x);
            }
            data[i] = (x & 1) as u8;
            i = i + 1;
        }
        Self::from_data(data)
    }

    /// Material 1 on odd z, air on even z: vertical slices.
    pub fn test_z_banded() -> (r: Self)
        ensures
            r.wf(),
            forall|idx: int| 0 <= idx < 32768 ==> #[trigger] r.data@[idx] == (coord_z(idx) % 2) as u8,
    {
        let mut data = [0u8; 32768];
        let mut i: usize = 0;
        while i < 32768
            invariant
                i <= 32768,
                forall|k: int| 0 <= k < i ==> #[trigger] data@[k] == (coord_z(k) % 2) as u8,
            decreases 32768 - i,
        {
            let z = (i >> 10) & 31;
            proof {
                lemma_coords(i);
                lemma_index_bits(i);
                lemma_index_bits(z);
            }
            data[i] = (z & 1) as u8;
            i = i + 1;
        }
        Self::from_data(data)
    }

    /// The walls, `wall_thickness` voxels thick, of a hollow cube of material 1.
    pub fn test_hollow_cube(wall_thickness: usize) -> (r: Self)
        requires
            wall_thickness <= 32,
        ensures
            r.wf(),
            forall|idx: int|
                0 <= idx < 32768 ==> #[trigger] r.data@[idx] == if on_wall(idx, wall_thickness as int) {
                    1u8
                } else {
                    0u8
                },
    {
        let t = wall_thickness;
        let mut data = [0u8; 32768];
        let mut i: usize = 0;
        while i < 32768
            invariant
                i <= 32768,
                t <= 32,
                forall|k: int| i <= k < 32768 ==> #[trigger] data@[k] == 0,
                forall|k: int|
                    0 <= k < i ==> #[trigger] data@[k] == if on_wall(k, t as int) {
                        1u8
                    } else {
                        0u8
                    },
            decreases 32768 - i,
        {
            let y = i & 31;
            let x = (i >> 5) & 31;
            let z = i >> 10;
            proof {
                lemma_coords(i);
            }
            let is_edge = x < t || x >= 32 - t || y < t || y >= 32 - t || z < t || z >= 32 - t;
            if is_edge {
                data[i] = 1;
            }
            i = i + 1;
        }
        Self::from_data(data)
    }

    /// Columns of `material` along y at every x and z that are multiples of `spacing`.
    /// Their voxels are set in the bitmap whatever the material.
    pub fn test_pillars(spacing: usize, material: u8) -> (r: Self)
        requires
            spacing > 0,
        ensures
            r.occupancy.wf(),
            forall|idx: int|
                0 <= idx < 32768 ==> #[trigger] r.data@[idx] == if on_pillar(idx, spacing as int) {
                    material
                } else {
                    0u8
                },
            forall|idx: int|
                0 <= idx < 32768 ==> (#[trigger] marked(r.occupancy.bits@, idx) <==> on_pillar(
                    idx,
                    spacing as int,
                )),
            material != 0 ==> r.wf(),
    {
        let mut data = [0u8; 32768];
        let mut cells = [0u8; 32768];
        let mut i: usize = 0;
        while i < 32768
            invariant
                i <= 32768,
                spacing > 0,
                forall|k: int| i <= k < 32768 ==> #[trigger] data@[k] == 0,
                forall|k: int| i <= k < 32768 ==> #[trigger] cells@[k] == 0,
                forall|k: int|
                    0 <= k < i ==> #[trigger] data@[k] == if on_pillar(k, spacing as int) {
                        material
                    } else {
                        0u8
                    },
                forall|k: int|
                    0 <= k < i ==> #[trigger] cells@[k] == if on_pillar(k, spacing as int) {
                        1u8
                    } else {
                        0u8
                    },
            decreases 32768 - i,
        {
            let x = (i >> 5) & 31;
            let z = i >> 10;
            proof {
                lemma_coords(i);
            }
            if x % spacing == 0 && z % spacing == 0 {
                data[i] = material;
                cells[i] = 1;
            }
            i = i + 1;
        }
        let occupancy = occupancy_of(&cells);
        Self { data, occupancy }
    }
}

} // verus!
