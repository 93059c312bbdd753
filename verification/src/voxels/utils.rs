use vstd::prelude::*;

use crate::voxels::chunk_config::{CHUNK_SIZE, VOXEL_AXIS_BITS};

verus! {

/// How the shifts and masks on an index read its low bits: bit 0, bits 0 to 4, bits 5
/// to 9, and what lies above bits 0, 4 and 9.
pub proof fn lemma_index_bits(i: usize)
    by (bit_vector)
    ensures
        i & 31 == i % 32,
        i >> 5 == i / 32,
        (i >> 5) & 31 == (i / 32) % 32,
        i >> 10 == i / 1024,
        i & 1 == i % 2,
        i >> 1 == i / 2,
        i < 32768 ==> (i >> 10) & 31 == i >> 10,
{
}

/// The number of binary digits of `v` (0 for 0).
pub open spec fn bit_len(v: nat) -> nat
    decreases v,
{
    if v == 0 {
        0
    } else {
        1 + bit_len(v / 2)
    }
}

/// Bit `i` of `w`, counting from the lowest.
pub open spec fn bit_at(w: u32, i: u32) -> bool {
    (w >> i) & 1 == 1
}

/// The number of bits needed to write `value` in binary.
pub fn bits_of(value: usize) -> (r: usize)
    ensures
        r as nat == bit_len(value as nat),
{
    let mut v = value;
    let mut n: usize = 0;
    proof {
        lemma_bit_len_le(value as nat);
    }
    while v > 0
        invariant
            n + bit_len(v as nat) == bit_len(value as nat),
            bit_len(value as nat) <= value,
        decreases v,
    {
        n = n + 1;
        v = v / 2;
    }
    n
}

proof fn lemma_bit_len_le(v: nat)
    ensures
        bit_len(v) <= v,
    decreases v,
{
    if v > 0 {
        lemma_bit_len_le(v / 2);
    }
}

/// Whether bit `index` (taken modulo 32) of `word` is set.
pub fn bit_get(word: u32, index: usize) -> (r: bool)
    ensures
        r == bit_at(word, (index % 32) as u32),
{
    let i = (index & 31) as u32;
    proof {
        lemma_index_bits(index);
    }
    proof {
        assert(((word >> i) & 1 != 0) == ((word >> i) & 1 == 1)) by (bit_vector);
    }
    (word >> i) & 1 != 0
}

/// Sets bit `index` (taken modulo 32) of `word`.
pub fn bit_set(word: &mut u32, index: usize)
    ensures
        *final(word) == *old(word) | (1u32 << ((index % 32) as u32)),
{
    proof {
        lemma_index_bits(index);
    }
    *word = *word | (1u32 << ((index & 31) as u32));
}

/// Clears bit `index` (taken modulo 32) of `word`.
pub fn bit_clear(word: &mut u32, index: usize)
    ensures
        *final(word) == *old(word) & !(1u32 << ((index % 32) as u32)),
{
    proof {
        lemma_index_bits(index);
    }
    *word = *word & !(1u32 << ((index & 31) as u32));
}

/// Flips bit `index` (taken modulo 32) of `word`.
pub fn bit_toggle(word: &mut u32, index: usize)
    ensures
        *final(word) == *old(word) ^ (1u32 << ((index % 32) as u32)),
{
    proof {
        lemma_index_bits(index);
    }
    *word = *word ^ (1u32 << ((index & 31) as u32));
}

/// After setting bit `i`, bit `i` is set and every other bit is as it was.
pub proof fn lemma_bit_set_get(w: u32, i: u32, j: u32)
    requires
        i < 32,
        j < 32,
    ensures
        bit_at(w | (1u32 << i), j) == (j == i || bit_at(w, j)),
{
    assert(((w | (1u32 << i)) >> j) & 1 == 1 <==> (j == i || (w >> j) & 1 == 1)) by (bit_vector)
        requires
            i < 32,
            j < 32,
    ;
}

/// After clearing bit `i`, bit `i` is clear and every other bit is as it was.
pub proof fn lemma_bit_clear_get(w: u32, i: u32, j: u32)
    requires
        i < 32,
        j < 32,
    ensures
        bit_at(w & !(1u32 << i), j) == (j != i && bit_at(w, j)),
{
    assert(((w & !(1u32 << i)) >> j) & 1 == 1 <==> (j != i && (w >> j) & 1 == 1)) by (bit_vector)
        requires
            i < 32,
            j < 32,
    ;
}

/// Flipping bit `i` flips only bit `i`, and flipping it twice gives the word back.
pub proof fn lemma_bit_toggle_get(w: u32, i: u32, j: u32)
    requires
        i < 32,
        j < 32,
    ensures
        bit_at(w ^ (1u32 << i), j) == (if j == i { !bit_at(w, j) } else { bit_at(w, j) }),
        (w ^ (1u32 << i)) ^ (1u32 << i) == w,
{
    assert(((w ^ (1u32 << i)) >> j) & 1 == 1 <==> (if j == i { (w >> j) & 1 != 1 } else { (w >> j) & 1 == 1 })) by (bit_vector)
        requires
            i < 32,
            j < 32,
    ;
    assert((w ^ (1u32 << i)) ^ (1u32 << i) == w) by (bit_vector);
}

/// `min(extent, 32 - start)`: how much of a bit range from `start` fits in a word.
pub open spec fn clamped_extent(start: nat, extent: nat) -> nat {
    if extent < 32 - start {
        extent
    } else {
        (32 - start) as nat
    }
}

/// A mask of the bits `start .. start + extent` of a word, cut off at bit 32.
pub fn u32_range_mask(start: usize, extent: usize) -> (r: u32)
    requires
        start < 32,
        start > 0 || extent < 32,
    ensures
        forall|j: u32|
            j < 32 ==> (bit_at(r, j) <==> (start <= j && j < start + clamped_extent(
                start as nat,
                extent as nat,
            ))),
{
    let e = if extent < 32 - start {
        extent
    } else {
        32 - start
    };
    let valid = e != 0 && start < 32;
    let s = start as u32;
    let n = e as u32;
    proof {
        assert(1u32 << n >= 1) by (bit_vector)
            requires
                n < 32,
        ;
    }
    let m = ((1u32 << n) - 1) << s;
    let r = if valid {
        m
    } else {
        0
    };
    proof {
        assert forall|j: u32| j < 32 implies (bit_at(r, j) <==> (s <= j && j < s + n)) by {
            assert(((m >> j) & 1 == 1) <==> (s <= j && j < s + n)) by (bit_vector)
                requires
                    s < 32,
                    n < 32,
                    s + n <= 32,
                    j < 32,
                    m == (((1u32 << n) - 1) as u32) << s,
            ;
            if !valid {
                assert((r >> j) & 1 != 1) by (bit_vector)
                    requires
                        r == 0,
                ;
            }
        }
    }
    r
}

/// The number of chunks that `size` voxels span along an axis, and the voxels in the last,
/// partial chunk.
pub fn calc_grid_indices(size: usize) -> (r: (usize, usize))
    requires
        size + 31 <= usize::MAX,
    ensures
        r.0 == (size + 31) / 32,
        r.1 == size % 32,
{
    (calc_chunk_length(size), calc_voxel_remainder(size))
}

/// The number of chunks that `size` voxels span along an axis (rounded up).
pub fn calc_chunk_length(size: usize) -> (r: usize)
    requires
        size + 31 <= usize::MAX,
    ensures
        r == (size + 31) / 32,
{
    let t = size + (CHUNK_SIZE - 1);
    proof {
        lemma_index_bits(t);
    }
    t >> VOXEL_AXIS_BITS
}

/// The number of voxels past the last whole chunk.
pub fn calc_voxel_remainder(size: usize) -> (r: usize)
    ensures
        r == size % 32,
{
    proof {
        lemma_index_bits(size);
    }
    size & (CHUNK_SIZE - 1)
}

} // verus!
