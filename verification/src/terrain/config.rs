//! Sizes derived from the terrain chunk size, and the chunk settings.

use vstd::prelude::*;

verus! {

/// The height samples of a tile: the chunk and a border of one on each side.
pub fn samples_per_tile(chunk_size: usize) -> (r: usize)
    requires
        chunk_size + 2 <= usize::MAX,
        (chunk_size + 2) * (chunk_size + 2) <= usize::MAX,
    ensures
        r == (chunk_size + 2) * (chunk_size + 2),
{
    let size = chunk_size + 2;
    size * size
}

/// The vertices of one strip row: two per column plus four.
pub fn vertices_per_row(chunk_size: usize) -> (r: usize)
    requires
        2 * chunk_size + 4 <= usize::MAX,
    ensures
        r == 2 * chunk_size + 4,
{
    proof {
        vstd::arithmetic::power2::lemma2_to64();
        vstd::bits::lemma_usize_shl_is_mul(chunk_size, 1);
    }
    (chunk_size << 1usize) + 4
}

/// The vertices of a tile: one row per line of the chunk, and one between each pair
/// of rows.
pub fn vertices_per_tile(chunk_size: usize) -> (r: usize)
    requires
        chunk_size >= 1,
        (2 * chunk_size + 4) * chunk_size + chunk_size - 1 <= usize::MAX,
    ensures
        r == (2 * chunk_size + 4) * chunk_size + (chunk_size - 1),
{
    proof {
        assert(2 * chunk_size + 4 <= usize::MAX) by (nonlinear_arith)
            requires
                chunk_size >= 1,
                (2 * chunk_size + 4) * chunk_size + chunk_size - 1 <= usize::MAX,
        ;
    }
    vertices_per_row(chunk_size) * chunk_size + (chunk_size - 1)
}

/// How far the terrain reaches and how big its chunks and map are.
#[derive(Clone, Copy, Debug, PartialEq, Eq, Structural)]
pub struct ChunkSettings {
    pub view_distance: u32,
    pub chunk_size: u32,
    pub map_height: u32,
    pub map_width: u32,
}

impl Default for ChunkSettings {
    /// Four chunks of view, chunks of 32, a map of 512 by 512.
    fn default() -> (r: Self)
        ensures
            r == (ChunkSettings { view_distance: 4, chunk_size: 32, map_height: 512, map_width: 512 }),
    {
        Self { view_distance: 4, chunk_size: 32, map_height: 512, map_width: 512 }
    }
}

} // verus!
