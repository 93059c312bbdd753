//! Chunk positions in a world of 1024 chunks along each axis, packed in one word.

use vstd::prelude::*;

verus! {

/// A chunk position: `y` in bits 0 to 9, `x` in bits 10 to 19, `z` from bit 20 on.
#[derive(Debug, Clone, Copy, PartialEq, Eq, Hash, Structural)]
pub struct ChunkIndex(pub u32);

/// Packing three ten-bit coordinates and reading them back.
proof fn lemma_chunk_fields(x: u32, y: u32, z: u32)
    by (bit_vector)
    ensures
        ({
            let w = (y & 0x3FF) | ((x & 0x3FF) << 10u32) | ((z & 0x3FF) << 20u32);
            &&& (w >> 10u32) & 0x3FF == x & 0x3FF
            &&& w & 0x3FF == y & 0x3FF
            &&& (w >> 20u32) & 0x3FF == z & 0x3FF
        }),
        x < 1024 && y < 1024 && z < 1024 ==> (y | (x << 10u32) | (z << 20u32)) == (y & 0x3FF) | ((x & 0x3FF)
            << 10u32) | ((z & 0x3FF) << 20u32),
        x & 0x3FF == x % 1024,
{
}

impl ChunkIndex {
    /// The chunk holding the point at world position (`x`, `y`, `z`), whole units:
    /// each coordinate shifted down by 5 (a chunk is 32 units), taken as a `u32`, and
    /// packed without cutting. For points with coordinates in `0..32768` that is the
    /// chunk at (`x / 32`, `y / 32`, `z / 32`).
    pub fn from_transform(x: i32, y: i32, z: i32) -> (r: Self)
        ensures
            r.0 == ((y >> 5u32) as u32 | (((x >> 5u32) as u32) << 10u32) | (((z >> 5u32) as u32) << 20u32)),
            0 <= x < 32768 && 0 <= y < 32768 && 0 <= z < 32768 ==> r.x() == x / 32 && r.y() == y / 32 && r.z()
                == z / 32,
    {
        let chunk_x = (x >> 5) as u32;
        let chunk_y = (y >> 5) as u32;
        let chunk_z = (z >> 5) as u32;
        proof {
            if 0 <= x < 32768 && 0 <= y < 32768 && 0 <= z < 32768 {
                assert(0 <= x < 32768 ==> x >> 5u32 == x / 32 && 0 <= x / 32 < 1024) by (bit_vector);
                assert(0 <= y < 32768 ==> y >> 5u32 == y / 32 && 0 <= y / 32 < 1024) by (bit_vector);
                assert(0 <= z < 32768 ==> z >> 5u32 == z / 32 && 0 <= z / 32 < 1024) by (bit_vector);
                lemma_chunk_fields(chunk_x, chunk_y, chunk_z);
                lemma_chunk_fields(chunk_y, chunk_x, chunk_z);
                lemma_chunk_fields(chunk_z, chunk_y, chunk_x);
            }
        }
        Self(chunk_y | (chunk_x << 10) | (chunk_z << 20))
    }

    /// The chunk at (`x`, `y`, `z`), each coordinate cut to its low ten bits.
    pub fn from_chunk_coord(x: u32, y: u32, z: u32) -> (r: Self)
        ensures
            r.0 == (y & 0x3FF) | ((x & 0x3FF) << 10u32) | ((z & 0x3FF) << 20u32),
            r.x() == x % 1024,
            r.y() == y % 1024,
            r.z() == z % 1024,
    {
        proof {
            lemma_chunk_fields(x, y, z);
            lemma_chunk_fields(y, x, z);
            lemma_chunk_fields(z, y, x);
        }
        let y_mask: u32 = 0x3FF;
        let x_mask: u32 = 0x3FF;
        let z_mask: u32 = 0x3FF;
        Self((y & y_mask) | ((x & x_mask) << 10) | ((z & z_mask) << 20))
    }

    /// Bits 10 to 19.
    #[verifier::when_used_as_spec(spec_x)]
    pub fn x(self) -> (r: u32)
        ensures
            r == self.spec_x(),
    {
        (self.0 >> 10) & 0x3FF
    }

    /// Bits 0 to 9.
    #[verifier::when_used_as_spec(spec_y)]
    pub fn y(self) -> (r: u32)
        ensures
            r == self.spec_y(),
    {
        self.0 & 0x3FF
    }

    /// Bits 20 to 29.
    #[verifier::when_used_as_spec(spec_z)]
    pub fn z(self) -> (r: u32)
        ensures
            r == self.spec_z(),
    {
        (self.0 >> 20) & 0x3FF
    }

    /// The chunk's `x`.
    pub open spec fn spec_x(self) -> u32 {
        (self.0 >> 10u32) & 0x3FF
    }

    /// The chunk's `y`.
    pub open spec fn spec_y(self) -> u32 {
        self.0 & 0x3FF
    }

    /// The chunk's `z`.
    pub open spec fn spec_z(self) -> u32 {
        (self.0 >> 20u32) & 0x3FF
    }
}

} // verus!
