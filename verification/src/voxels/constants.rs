//! Voxel materials, face directions and the bit-packed face instance that the mesher
//! emits.
//!
//! A `VoxelInstance` word holds six fields: `y` in bits 0 to 4, `x` in bits 5 to 9, `z` in
//! bits 10 to 14, the primary extent in bits 15 to 19, the secondary extent in bits 20 to
//! 24 and the material in bits 25 to 31. The low fifteen bits are the voxel's index in its
//! chunk.

use vstd::prelude::*;

use crate::voxels::bits::data::lemma_join_index;

verus! {

/// The voxel materials.
#[derive(Clone, Copy, PartialEq, Eq, Debug, Hash, Structural)]
pub enum VoxelType {
    Air,
    Stone,
    Dirt,
    Water,
}

/// The number of a material.
pub open spec fn voxel_code(v: VoxelType) -> u8 {
    match v {
        VoxelType::Air => 0,
        VoxelType::Stone => 1,
        VoxelType::Dirt => 2,
        VoxelType::Water => 3,
    }
}

/// The material of a number; numbers without one are air.
pub open spec fn voxel_of(n: int) -> VoxelType {
    if n == 1 {
        VoxelType::Stone
    } else if n == 2 {
        VoxelType::Dirt
    } else if n == 3 {
        VoxelType::Water
    } else {
        VoxelType::Air
    }
}

impl From<u8> for VoxelType {
    fn from(value: u8) -> (r: Self) {
        match value {
            1 => VoxelType::Stone,
            2 => VoxelType::Dirt,
            3 => VoxelType::Water,
            _ => VoxelType::Air,
        }
    }
}

impl vstd::std_specs::convert::FromSpecImpl<u8> for VoxelType {
    open spec fn obeys_from_spec() -> bool {
        true
    }

    open spec fn from_spec(value: u8) -> Self {
        voxel_of(value as int)
    }
}

impl From<VoxelType> for u8 {
    fn from(value: VoxelType) -> (r: u8) {
        match value {
            VoxelType::Air => 0,
            VoxelType::Stone => 1,
            VoxelType::Dirt => 2,
            VoxelType::Water => 3,
        }
    }
}

impl vstd::std_specs::convert::FromSpecImpl<VoxelType> for u8 {
    open spec fn obeys_from_spec() -> bool {
        true
    }

    open spec fn from_spec(value: VoxelType) -> u8 {
        voxel_code(value)
    }
}

impl VoxelType {
    /// No material.
    pub const NONE: Option<VoxelType> = None;

    /// Air.
    pub fn default() -> (r: Self)
        ensures
            r == VoxelType::Air,
    {
        VoxelType::Air
    }

    /// The material numbered `index`; numbers without one give air.
    pub fn from_index(index: usize) -> (r: Self)
        ensures
            r == voxel_of(index as int),
    {
        match index {
            1 => VoxelType::Stone,
            2 => VoxelType::Dirt,
            3 => VoxelType::Water,
            _ => VoxelType::Air,
        }
    }
}

/// Numbering a material and reading the number back gives the material.
pub proof fn lemma_voxel_code_round_trip(v: VoxelType)
    ensures
        voxel_of(voxel_code(v) as int) == v,
{
}

/// Whether the span `[lhs_start, lhs_start + lhs_span]` lies inside
/// `[rhs_start, rhs_start + rhs_span]`, and, when it does, whether the outer span
/// sticks out before it and after it.
pub fn rhs_contains_lhs(lhs_start: u8, lhs_span: u8, rhs_start: u8, rhs_span: u8) -> (r: (
    bool,
    bool,
    bool,
))
    requires
        lhs_start + lhs_span <= u8::MAX,
        rhs_start + rhs_span <= u8::MAX,
    ensures
        r.0 == (lhs_start >= rhs_start && lhs_start + lhs_span <= rhs_start + rhs_span),
        r.1 == (r.0 && lhs_start > rhs_start),
        r.2 == (r.0 && lhs_start + lhs_span < rhs_start + rhs_span),
{
    let lhs_end = lhs_start + lhs_span;
    let rhs_end = rhs_start + rhs_span;
    let contained = lhs_start >= rhs_start && lhs_end <= rhs_end;
    let has_pre = contained && lhs_start > rhs_start;
    let has_post = contained && lhs_end < rhs_end;
    (contained, has_pre, has_post)
}

/// The five-bit field of `w` that starts at bit `shift`.
pub open spec fn field(w: u32, shift: u32) -> u32 {
    if shift == 0 {
        w & 31
    } else {
        (w >> shift) & 31
    }
}

/// `a` and `b` agree on every field but the one at `shift` (25 is the material).
pub open spec fn same_except(a: u32, b: u32, shift: u32) -> bool {
    &&& (shift != 0 ==> field(a, 0) == field(b, 0))
    &&& (shift != 5 ==> field(a, 5) == field(b, 5))
    &&& (shift != 10 ==> field(a, 10) == field(b, 10))
    &&& (shift != 15 ==> field(a, 15) == field(b, 15))
    &&& (shift != 20 ==> field(a, 20) == field(b, 20))
    &&& (shift != 25 ==> a >> 25 == b >> 25)
}

/// The word that packs index `idx` with the given extents and material.
pub open spec fn packed(idx: u32, primary: u32, secondary: u32, material: u32) -> u32 {
    (idx & 0x7FFF) | ((primary & 31) << 15) | ((secondary & 31) << 20) | ((material & 127) << 25)
}

/// The index of the voxel at `x`, `y`, `z`, each taken modulo 32.
pub open spec fn index_of(x: u32, y: u32, z: u32) -> u32 {
    (y & 31) | ((x & 31) << 5) | ((z & 31) << 10)
}

/// What packing puts in each field.
pub proof fn lemma_packed(idx: u32, x: u32, y: u32, z: u32, primary: u32, secondary: u32, material: u32)
    by (bit_vector)
    ensures
        field(packed(idx, primary, secondary, material), 0) == idx & 31,
        field(packed(idx, primary, secondary, material), 5) == (idx >> 5) & 31,
        field(packed(idx, primary, secondary, material), 10) == (idx >> 10) & 31,
        field(packed(idx, primary, secondary, material), 15) == primary & 31,
        field(packed(idx, primary, secondary, material), 20) == secondary & 31,
        packed(idx, primary, secondary, material) >> 25 == material & 127,
        packed(idx, primary, secondary, material) & 0x7FFF == idx & 0x7FFF,
        index_of(x, y, z) & 31 == y & 31,
        (index_of(x, y, z) >> 5) & 31 == x & 31,
        (index_of(x, y, z) >> 10) & 31 == z & 31,
        index_of(x, y, z) & 0x7FFF == index_of(x, y, z),
        idx < 0x2000000 ==> (idx | (material << 25)) & 0x1FFFFFF == idx,
        idx < 0x2000000 ==> (idx | (material << 25)) >> 25 == material & 127,
        (idx & 0x7FFF) & 31 == idx & 31,
        ((idx & 0x7FFF) >> 5) & 31 == (idx >> 5) & 31,
        ((idx & 0x7FFF) >> 10) & 31 == (idx >> 10) & 31,
{
}

/// Writing a five-bit field, or the material, changes that field alone.
pub proof fn lemma_field_write(w: u32, v: u32, shift: u32)
    by (bit_vector)
    requires
        shift == 0 || shift == 5 || shift == 10 || shift == 15 || shift == 20,
    ensures
        field(w ^ ((((w >> shift) ^ v) & 31) << shift), shift) == v & 31,
        same_except(w ^ ((((w >> shift) ^ v) & 31) << shift), w, shift),
        v & 31 == v % 32,
        v & 127 == v % 128,
        field(w, 0) < 32 && field(w, 5) < 32 && field(w, 10) < 32 && field(w, 15) < 32 && field(w, 20) < 32,
        w >> 25 < 128,
        (w ^ (((w >> 25) ^ v) << 25)) >> 25 == v & 127,
        same_except(w ^ (((w >> 25) ^ v) << 25), w, 25),
{
}

/// Writing the bits of a mask over the index fields changes those bits alone.
pub proof fn lemma_mask_write(w: u32, v: u32, mask: u32)
    by (bit_vector)
    requires
        mask == 0x7FFF || mask == 0x7FE0 || mask == 0x7C1F || mask == 0x1F,
    ensures
        mask != 0x7FE0 ==> field(w ^ ((w ^ v) & mask), 0) == field(v, 0),
        mask == 0x7FE0 ==> field(w ^ ((w ^ v) & mask), 0) == field(w, 0),
        (mask == 0x7FFF || mask == 0x7FE0) ==> field(w ^ ((w ^ v) & mask), 5) == field(v, 5),
        (mask == 0x7C1F || mask == 0x1F) ==> field(w ^ ((w ^ v) & mask), 5) == field(w, 5),
        mask != 0x1F ==> field(w ^ ((w ^ v) & mask), 10) == field(v, 10),
        mask == 0x1F ==> field(w ^ ((w ^ v) & mask), 10) == field(w, 10),
        field(w ^ ((w ^ v) & mask), 15) == field(w, 15),
        field(w ^ ((w ^ v) & mask), 20) == field(w, 20),
        (w ^ ((w ^ v) & mask)) >> 25 == w >> 25,
        mask == 0x7FFF ==> (w ^ ((w ^ v) & mask)) & 0x7FFF == v & 0x7FFF,
        v & 0x7FFF == v % 32768,
        w & 0x7FFF == field(w, 0) + 32 * field(w, 5) + 1024 * field(w, 10),
        (w ^ ((w ^ v) & mask)) & 0x7FFF == field(w ^ ((w ^ v) & mask), 0) + 32 * field(
            w ^ ((w ^ v) & mask),
            5,
        ) + 1024 * field(w ^ ((w ^ v) & mask), 10),
{
}

/// Masking the difference of two words tests the fields under the mask.
pub proof fn lemma_same_fields(a: u32, b: u32)
    by (bit_vector)
    ensures
        ((a ^ b) & 0xFE007C00 == 0) <==> (field(a, 10) == field(b, 10) && a >> 25 == b >> 25),
        ((a ^ b) & 0xFE007FE0 == 0) <==> (field(a, 5) == field(b, 5) && field(a, 10) == field(b, 10)
            && a >> 25 == b >> 25),
        ((a ^ b) & 0xFE00001F == 0) <==> (field(a, 0) == field(b, 0) && a >> 25 == b >> 25),
        ((a ^ b) & 0xFE0003E0 == 0) <==> (field(a, 5) == field(b, 5) && a >> 25 == b >> 25),
{
}

/// The three axes a face can lie across.
#[derive(Debug, Clone, Copy, PartialEq, Eq, Structural)]
pub enum FaceAxis {
    Y,
    X,
    Z,
}

/// The axis numbered `n`: 0 is Y, 1 is X, 2 is Z.
pub open spec fn axis_numbered(n: int) -> FaceAxis {
    if n == 0 {
        FaceAxis::Y
    } else if n == 1 {
        FaceAxis::X
    } else {
        FaceAxis::Z
    }
}

impl FaceAxis {
    /// The axis of face number `value`: faces come in pairs, two per axis, Y then X
    /// then Z, and the numbering repeats every six.
    pub fn from_usize(value: usize) -> (r: FaceAxis)
        ensures
            r == axis_numbered(((value / 2) % 3) as int),
    {
        let pair = (value >> 1) % 3;
        proof {
            crate::voxels::utils::lemma_index_bits(value);
        }
        if pair == 0 {
            FaceAxis::Y
        } else if pair == 1 {
            FaceAxis::X
        } else {
            FaceAxis::Z
        }
    }
}

/// The six face directions: up and down the Y, X and Z axes.
#[derive(Debug, Clone, Copy, PartialEq, Eq, Structural)]
pub enum FaceDirection {
    YP,
    YN,
    XP,
    XN,
    ZP,
    ZN,
}

/// The number of a direction, in the order the directions are declared.
pub open spec fn face_number(d: FaceDirection) -> nat {
    match d {
        FaceDirection::YP => 0,
        FaceDirection::YN => 1,
        FaceDirection::XP => 2,
        FaceDirection::XN => 3,
        FaceDirection::ZP => 4,
        FaceDirection::ZN => 5,
    }
}

/// The direction numbered `n`; numbers past five give `YP`.
pub open spec fn face_numbered(n: int) -> FaceDirection {
    if n == 1 {
        FaceDirection::YN
    } else if n == 2 {
        FaceDirection::XP
    } else if n == 3 {
        FaceDirection::XN
    } else if n == 4 {
        FaceDirection::ZP
    } else if n == 5 {
        FaceDirection::ZN
    } else {
        FaceDirection::YP
    }
}

/// The axis a direction runs along.
pub open spec fn axis_of(d: FaceDirection) -> FaceAxis {
    match d {
        FaceDirection::YP | FaceDirection::YN => FaceAxis::Y,
        FaceDirection::XP | FaceDirection::XN => FaceAxis::X,
        FaceDirection::ZP | FaceDirection::ZN => FaceAxis::Z,
    }
}

/// Whether a direction points up its axis.
pub open spec fn points_up(d: FaceDirection) -> bool {
    d == FaceDirection::YP || d == FaceDirection::XP || d == FaceDirection::ZP
}

/// The opposite direction.
pub open spec fn opposite(d: FaceDirection) -> FaceDirection {
    match d {
        FaceDirection::YP => FaceDirection::YN,
        FaceDirection::YN => FaceDirection::YP,
        FaceDirection::XP => FaceDirection::XN,
        FaceDirection::XN => FaceDirection::XP,
        FaceDirection::ZP => FaceDirection::ZN,
        FaceDirection::ZN => FaceDirection::ZP,
    }
}

impl FaceDirection {
    /// The directions in their order.
    pub const ALL: [FaceDirection; 6] = [
        FaceDirection::YP,
        FaceDirection::YN,
        FaceDirection::XP,
        FaceDirection::XN,
        FaceDirection::ZP,
        FaceDirection::ZN,
    ];

    /// `YP`.
    pub fn default() -> (r: Self)
        ensures
            r == FaceDirection::YP,
    {
        Self::YP
    }

    /// The number of the direction.
    pub fn index(&self) -> (r: usize)
        ensures
            r == face_number(*self),
    {
        match self {
            Self::YP => 0,
            Self::YN => 1,
            Self::XP => 2,
            Self::XN => 3,
            Self::ZP => 4,
            Self::ZN => 5,
        }
    }

    /// The direction along which a face's primary extent runs: X for Y faces, Y
    /// otherwise.
    pub fn primary_axis(&self) -> (r: Self)
        ensures
            r == (if axis_of(*self) == FaceAxis::Y {
                FaceDirection::XP
            } else {
                FaceDirection::YP
            }),
    {
        match self {
            Self::YP | Self::YN => Self::XP,
            Self::XP | Self::XN => Self::YP,
            Self::ZP | Self::ZN => Self::YP,
        }
    }

    /// The direction along which a face's secondary extent runs: X for Z faces, Z
    /// otherwise.
    pub fn secondary_axis(&self) -> (r: Self)
        ensures
            r == (if axis_of(*self) == FaceAxis::Z {
                FaceDirection::XP
            } else {
                FaceDirection::ZP
            }),
    {
        match self {
            Self::YP | Self::YN => Self::ZP,
            Self::XP | Self::XN => Self::ZP,
            Self::ZP | Self::ZN => Self::XP,
        }
    }

    /// The direction numbered `index`; numbers past five give `YP`.
    pub fn from_index(index: usize) -> (r: Self)
        ensures
            r == face_numbered(index as int),
    {
        match index {
            1 => Self::YN,
            2 => Self::XP,
            3 => Self::XN,
            4 => Self::ZP,
            5 => Self::ZN,
            _ => Self::YP,
        }
    }

    /// Whether the direction points up its axis.
    pub fn is_positive(&self) -> (r: bool)
        ensures
            r == points_up(*self),
    {
        match self {
            FaceDirection::YP | FaceDirection::XP | FaceDirection::ZP => true,
            FaceDirection::YN | FaceDirection::XN | FaceDirection::ZN => false,
        }
    }

    /// The axis the direction runs along.
    pub fn axis(&self) -> (r: FaceAxis)
        ensures
            r == axis_of(*self),
    {
        match self {
            FaceDirection::YP | FaceDirection::YN => FaceAxis::Y,
            FaceDirection::XP | FaceDirection::XN => FaceAxis::X,
            FaceDirection::ZP | FaceDirection::ZN => FaceAxis::Z,
        }
    }

    /// The opposite direction.
    pub fn reflect(&self) -> (r: Self)
        ensures
            r == opposite(*self),
    {
        match self {
            Self::YP => Self::YN,
            Self::YN => Self::YP,
            Self::XP => Self::XN,
            Self::XN => Self::XP,
            Self::ZP => Self::ZN,
            Self::ZN => Self::ZP,
        }
    }

    /// The directions in their order.
    pub fn iter() -> (r: Vec<FaceDirection>)
        ensures
            r@.len() == 6,
            forall|i: int| 0 <= i < 6 ==> #[trigger] r@[i] == face_numbered(i),
    {
        vec![Self::YP, Self::YN, Self::XP, Self::XN, Self::ZP, Self::ZN]
    }
}

/// Reflecting twice gives the direction back; a reflection keeps the axis and turns
/// the direction around it.
pub proof fn lemma_reflect(d: FaceDirection)
    ensures
        opposite(opposite(d)) == d,
        axis_of(opposite(d)) == axis_of(d),
        points_up(opposite(d)) == !points_up(d),
        opposite(d) != d,
{
}

/// Numbering a direction and reading the number back gives the direction; the axis of
/// a direction is the axis of its number.
pub proof fn lemma_face_numbers(d: FaceDirection)
    ensures
        face_numbered(face_number(d) as int) == d,
        face_number(d) < 6,
        axis_numbered(((face_number(d) / 2) % 3) as int) == axis_of(d),
{
}

/// `a` and `b` agree on every field but the ones at `s1` and `s2`.
pub open spec fn same_except2(a: u32, b: u32, s1: u32, s2: u32) -> bool {
    &&& (s1 != 0 && s2 != 0 ==> field(a, 0) == field(b, 0))
    &&& (s1 != 5 && s2 != 5 ==> field(a, 5) == field(b, 5))
    &&& (s1 != 10 && s2 != 10 ==> field(a, 10) == field(b, 10))
    &&& (s1 != 15 && s2 != 15 ==> field(a, 15) == field(b, 15))
    &&& (s1 != 20 && s2 != 20 ==> field(a, 20) == field(b, 20))
    &&& a >> 25 == b >> 25
}

/// A run of faces: the voxel where it starts, how far it reaches along its primary and
/// secondary directions (an extent of `n` covers `n + 1` voxels), and its material, in
/// one word.
#[derive(Clone, Copy, Default, PartialEq, Eq, Hash, Debug, Structural)]
pub struct VoxelInstance(pub u32);

impl VoxelInstance {
    /// Bits per position field.
    const BITS: u32 = 5;

    pub const Y_SHIFT: u32 = 0;

    pub const X_SHIFT: u32 = 5;

    pub const Z_SHIFT: u32 = 10;

    pub const L_SHIFT: u32 = 15;

    pub const W_SHIFT: u32 = 20;

    pub const MATERIAL_SHIFT: u32 = 25;

    pub const AXIS_MASK: u32 = 31;

    pub const MATERIAL_BITS: u32 = 0x7F;

    /// The material bits in place.
    const MATERIAL_MASK: u32 = 0xFE000000;

    pub const INDEX_MASK: u32 = 0x7FFF;

    /// `y` of the starting voxel.
    pub open spec fn spec_y(&self) -> u32 {
        field(self.0, 0)
    }

    /// `x` of the starting voxel.
    pub open spec fn spec_x(&self) -> u32 {
        field(self.0, 5)
    }

    /// `z` of the starting voxel.
    pub open spec fn spec_z(&self) -> u32 {
        field(self.0, 10)
    }

    /// The primary extent.
    pub open spec fn spec_primary(&self) -> u32 {
        field(self.0, 15)
    }

    /// The secondary extent.
    pub open spec fn spec_secondary(&self) -> u32 {
        field(self.0, 20)
    }

    /// The material.
    pub open spec fn spec_material(&self) -> u32 {
        self.0 >> 25
    }

    /// The index of the starting voxel in its chunk.
    pub open spec fn spec_index(&self) -> usize {
        (self.0 & 0x7FFF) as usize
    }

    /// The empty instance.
    pub fn default() -> (r: Self)
        ensures
            r.0 == 0,
    {
        Self(0)
    }

    /// The empty instance.
    pub fn clear() -> (r: Self)
        ensures
            r.0 == 0,
    {
        Self(0)
    }

    /// An instance starting at voxel `index` (its low fifteen bits) with the given
    /// extents and material (each cut to its field).
    pub fn create_index(index: u32, primary: u8, secondary: u8, material: u8) -> (r: Self)
        ensures
            r.0 == packed(index, primary as u32, secondary as u32, material as u32),
            r.y() == index & 31,
            r.x() == (index >> 5) & 31,
            r.z() == (index >> 10) & 31,
            r.index() == index & 0x7FFF,
            r.primary() == primary % 32,
            r.secondary() == secondary % 32,
            r.material() == material % 128,
    {
        proof {
            lemma_packed(index, 0, 0, 0, primary as u32, secondary as u32, material as u32);
            lemma_field_write(0, primary as u32, 0);
            lemma_field_write(0, secondary as u32, 0);
            lemma_field_write(0, material as u32, 0);
        }
        let value: u32 = index & Self::INDEX_MASK | ((primary as u32 & Self::AXIS_MASK) << Self::L_SHIFT)
            | ((secondary as u32 & Self::AXIS_MASK) << Self::W_SHIFT) | ((material as u32
            & Self::MATERIAL_BITS) << Self::MATERIAL_SHIFT);
        Self(value)
    }

    /// An instance starting at voxel (`x`, `y`, `z`) with the given extents and
    /// material, each cut to its field.
    pub fn new(x: u8, y: u8, z: u8, primary: u8, secondary: u8, material: u8) -> (r: Self)
        ensures
            r.0 == packed(index_of(x as u32, y as u32, z as u32), primary as u32, secondary as u32, material as u32),
            r.x() == x % 32,
            r.y() == y % 32,
            r.z() == z % 32,
            r.primary() == primary % 32,
            r.secondary() == secondary % 32,
            r.material() == material % 128,
    {
        let index: u32 = (y as u32 & Self::AXIS_MASK) | ((x as u32 & Self::AXIS_MASK) << Self::X_SHIFT)
            | ((z as u32 & Self::AXIS_MASK) << Self::Z_SHIFT);
        proof {
            lemma_packed(index, x as u32, y as u32, z as u32, 0, 0, 0);
            lemma_field_write(0, x as u32, 0);
            lemma_field_write(0, y as u32, 0);
            lemma_field_write(0, z as u32, 0);
        }
        Self::create_index(index, primary, secondary, material)
    }

    /// Bits 5 to 14: the word of the occupancy array that holds the starting voxel.
    pub fn word(&self) -> (r: u32)
        ensures
            r == (self.0 >> 5) & 1023,
    {
        (self.0 >> 5) & 1023
    }

    /// The instance that covers a whole chunk face in direction `direction`: it starts
    /// at the far corner for the upward directions, at the origin otherwise, and
    /// reaches across the whole face.
    pub fn max_instance(direction: FaceDirection, material: u8) -> (r: Self)
        ensures
            r.x() == (if direction == FaceDirection::XP { 31u32 } else { 0u32 }),
            r.y() == (if direction == FaceDirection::YP { 31u32 } else { 0u32 }),
            r.z() == (if direction == FaceDirection::ZP { 31u32 } else { 0u32 }),
            r.primary() == 31,
            r.secondary() == 31,
            r.material() == material % 128,
    {
        match direction {
            FaceDirection::YP => Self::new(0, 31, 0, 31, 31, material),
            FaceDirection::XP => Self::new(31, 0, 0, 31, 31, material),
            FaceDirection::ZP => Self::new(0, 0, 31, 31, 31, material),
            _ => Self::new(0, 0, 0, 31, 31, material),
        }
    }

    /// The instance whose word is `index`.
    pub fn from_u32_idx(index: u32) -> (r: Self)
        ensures
            r.0 == index,
    {
        Self(index)
    }

    /// The instance whose word is `index`.
    pub fn from_u16_idx(index: u16) -> (r: Self)
        ensures
            r.0 == index,
    {
        Self(index as u32)
    }

    /// The instance starting at bit `bit` of occupancy word `word`, with no extents and
    /// no material.
    pub fn from_word_bit(word: usize, bit: usize) -> (r: Self)
        requires
            word < 1024,
            bit < 32,
        ensures
            r.0 == word * 32 + bit,
            r.index() == word * 32 + bit,
    {
        proof {
            lemma_join_index(word, bit);
            lemma_mask_write(0, (word * 32 + bit) as u32, 0x7FFF);
        }
        Self(((word << 5) | bit) as u32)
    }

    /// The instance starting at voxel `index`, with no extents, in material `material`.
    pub fn from_material(index: u32, material: u8) -> (r: Self)
        ensures
            r.0 == index | ((material as u32) << 25),
            index < 0x2000000 ==> r.0 & 0x1FFFFFF == index && r.material() == material % 128,
    {
        proof {
            lemma_packed(index, 0, 0, 0, 0, 0, material as u32);
            lemma_field_write(0, material as u32, 0);
        }
        Self(index | ((material as u32) << Self::MATERIAL_SHIFT))
    }

    /// Puts the low fifteen bits of `index` in the position fields.
    pub fn set_index(&mut self, index: u32)
        ensures
            final(self).index() == index & 0x7FFF,
            final(self).y() == index & 31,
            final(self).x() == (index >> 5) & 31,
            final(self).z() == (index >> 10) & 31,
            final(self).primary() == old(self).primary(),
            final(self).secondary() == old(self).secondary(),
            final(self).material() == old(self).material(),
    {
        proof {
            lemma_mask_write(self.0, index, 0x7FFF);
        }
        let x = (self.0 ^ index) & 0x7FFF;
        self.0 = self.0 ^ x;
    }

    /// Puts bits 5 to 14 of `index` in the `x` and `z` fields.
    pub fn set_xz(&mut self, index: u32)
        ensures
            final(self).x() == (index >> 5) & 31,
            final(self).z() == (index >> 10) & 31,
            same_except2(final(self).0, old(self).0, 5, 10),
    {
        proof {
            lemma_mask_write(self.0, index, 0x7FE0);
        }
        let x = (self.0 ^ index) & 0x7FE0;
        self.0 = self.0 ^ x;
    }

    /// Puts bits 0 to 4 and 10 to 14 of `index` in the `y` and `z` fields.
    pub fn set_yz(&mut self, index: u32)
        ensures
            final(self).y() == index & 31,
            final(self).z() == (index >> 10) & 31,
            same_except2(final(self).0, old(self).0, 0, 10),
    {
        proof {
            lemma_mask_write(self.0, index, 0x7C1F);
        }
        let x = (self.0 ^ index) & 0x7C1F;
        self.0 = self.0 ^ x;
    }

    /// Sets `y` to `y` modulo 32.
    pub fn set_y(&mut self, y: u32)
        ensures
            final(self).y() == y % 32,
            same_except(final(self).0, old(self).0, 0),
    {
        proof {
            lemma_mask_write(self.0, y, 0x1F);
            lemma_field_write(self.0, y, 0);
        }
        self.0 = self.0 ^ ((self.0 ^ y) & 0x1F);
    }

    /// Sets `x` to `x_val` modulo 32.
    pub fn set_x(&mut self, x_val: u32)
        ensures
            final(self).x() == x_val % 32,
            same_except(final(self).0, old(self).0, 5),
    {
        proof {
            lemma_field_write(self.0, x_val, 5);
        }
        let x = ((self.0 >> Self::X_SHIFT) ^ x_val) & Self::AXIS_MASK;
        self.0 = self.0 ^ (x << Self::X_SHIFT);
    }

    /// Sets `z` to `z_val` modulo 32.
    pub fn set_z(&mut self, z_val: u32)
        ensures
            final(self).z() == z_val % 32,
            same_except(final(self).0, old(self).0, 10),
    {
        proof {
            lemma_field_write(self.0, z_val, 10);
        }
        let x = ((self.0 >> Self::Z_SHIFT) ^ z_val) & Self::AXIS_MASK;
        self.0 = self.0 ^ (x << Self::Z_SHIFT);
    }

    /// Sets the primary extent to `l_val` modulo 32.
    pub fn set_primary(&mut self, l_val: u32)
        ensures
            final(self).primary() == l_val % 32,
            same_except(final(self).0, old(self).0, 15),
    {
        proof {
            lemma_field_write(self.0, l_val, 15);
        }
        let x = ((self.0 >> Self::L_SHIFT) ^ l_val) & Self::AXIS_MASK;
        self.0 = self.0 ^ (x << Self::L_SHIFT);
    }

    /// Sets the secondary extent to `w_val` modulo 32.
    pub fn set_secondary(&mut self, w_val: u32)
        ensures
            final(self).secondary() == w_val % 32,
            same_except(final(self).0, old(self).0, 20),
    {
        proof {
            lemma_field_write(self.0, w_val, 20);
        }
        let x = ((self.0 >> Self::W_SHIFT) ^ w_val) & Self::AXIS_MASK;
        self.0 = self.0 ^ (x << Self::W_SHIFT);
    }

    /// Sets the material to `material_id` modulo 128.
    pub fn set_material(&mut self, material_id: u8)
        ensures
            final(self).material() == material_id % 128,
            same_except(final(self).0, old(self).0, 25),
    {
        proof {
            lemma_field_write(self.0, material_id as u32, 0);

        }
        let x = (self.0 >> Self::MATERIAL_SHIFT) ^ (material_id as u32);
        self.0 = self.0 ^ (x << Self::MATERIAL_SHIFT);
    }

    /// The index of the starting voxel in its chunk.
    #[verifier::when_used_as_spec(spec_index)]
    pub fn index(&self) -> (r: usize)
        ensures
            r == self.spec_index(),
            r < 32768,
    {
        proof {
            lemma_mask_write(0, self.0, 0x7FFF);
        }
        (self.0 & Self::INDEX_MASK) as usize
    }

    /// `y` of the starting voxel.
    #[verifier::when_used_as_spec(spec_y)]
    pub fn y(&self) -> (r: u32)
        ensures
            r == self.spec_y(),
            r < 32,
    {
        proof {
            lemma_field_write(self.0, 0, 0);
        }
        self.0 & 31
    }

    /// `x` of the starting voxel.
    #[verifier::when_used_as_spec(spec_x)]
    pub fn x(&self) -> (r: u32)
        ensures
            r == self.spec_x(),
            r < 32,
    {
        proof {
            lemma_field_write(self.0, 0, 0);
        }
        (self.0 >> 5) & 31
    }

    /// `z` of the starting voxel.
    #[verifier::when_used_as_spec(spec_z)]
    pub fn z(&self) -> (r: u32)
        ensures
            r == self.spec_z(),
            r < 32,
    {
        proof {
            lemma_field_write(self.0, 0, 0);
        }
        (self.0 >> 10) & 31
    }

    /// The primary extent.
    #[verifier::when_used_as_spec(spec_primary)]
    pub fn primary(&self) -> (r: u32)
        ensures
            r == self.spec_primary(),
            r < 32,
    {
        proof {
            lemma_field_write(self.0, 0, 0);
        }
        (self.0 >> Self::L_SHIFT) & Self::AXIS_MASK
    }

    /// The secondary extent.
    #[verifier::when_used_as_spec(spec_secondary)]
    pub fn secondary(&self) -> (r: u32)
        ensures
            r == self.spec_secondary(),
            r < 32,
    {
        proof {
            lemma_field_write(self.0, 0, 0);
        }
        (self.0 >> Self::W_SHIFT) & Self::AXIS_MASK
    }

    /// The material.
    #[verifier::when_used_as_spec(spec_material)]
    pub fn material(&self) -> (r: u32)
        ensures
            r == self.spec_material(),
    {
        self.0 >> Self::MATERIAL_SHIFT
    }
}

/// Two instances of the same slice that `merges_primary` can join: the second starts
/// right after the first ends along the primary direction, and they agree on the rest.
pub open spec fn merges_primary(a: u32, b: u32, axis: FaceAxis) -> bool {
    match axis {
        FaceAxis::Y => field(a, 10) == field(b, 10) && a >> 25 == b >> 25 && field(b, 5) == field(a, 5)
            + field(a, 15) + 1,
        _ => field(a, 5) == field(b, 5) && field(a, 10) == field(b, 10) && a >> 25 == b >> 25 && field(b, 0)
            == field(a, 0) + field(a, 15) + 1,
    }
}

/// `b` lies in the same slice and material as `a` and starts right after `a` ends
/// along the secondary direction.
pub open spec fn next_in_slice(a: u32, b: u32, axis: FaceAxis) -> bool {
    match axis {
        FaceAxis::X => field(a, 5) == field(b, 5) && a >> 25 == b >> 25 && field(b, 10) == field(a, 10)
            + field(a, 20) + 1,
        FaceAxis::Y => field(a, 0) == field(b, 0) && a >> 25 == b >> 25 && field(b, 10) == field(a, 10)
            + field(a, 20) + 1,
        FaceAxis::Z => field(a, 10) == field(b, 10) && a >> 25 == b >> 25 && field(b, 5) == field(a, 5)
            + field(a, 20) + 1,
    }
}

/// The shift of the field that holds where a run starts along its primary direction.
pub open spec fn primary_start_shift(axis: FaceAxis) -> u32 {
    match axis {
        FaceAxis::Y => 5,
        _ => 0,
    }
}

impl VoxelInstance {
    /// The stride of `y` in the index.
    const Y_STRIDE: u32 = 1;

    /// The stride of `x` in the index.
    const X_STRIDE: u32 = 32;

    /// The stride of `z` in the index.
    const Z_STRIDE: u32 = 1024;

    /// Moves the index by `step` modulo 32768.
    fn shift_index(&mut self, step: u32)
        requires
            step < 32768,
        ensures
            final(self).index() == (old(self).index() + step) % 32768,
            final(self).primary() == old(self).primary(),
            final(self).secondary() == old(self).secondary(),
            final(self).material() == old(self).material(),
    {
        let target = (self.index() as u32 + step) & Self::INDEX_MASK;
        proof {
            lemma_mask_write(0, (self.index() + step) as u32, 0x7FFF);
            lemma_mask_write(self.0, target, 0x7FFF);
            lemma_mask_write(0, target, 0x7FFF);
        }
        self.set_index(target);
    }

    /// Moves one voxel up `y`, wrapping within the chunk's index space.
    pub fn inc_y(&mut self)
        ensures
            final(self).index() == (old(self).index() + 1) % 32768,
            final(self).primary() == old(self).primary(),
            final(self).secondary() == old(self).secondary(),
            final(self).material() == old(self).material(),
    {
        self.shift_index(Self::Y_STRIDE);
    }

    /// Adds one to the word.
    pub fn inc_y_unchecked(&mut self)
        requires
            old(self).0 < u32::MAX,
        ensures
            final(self).0 == old(self).0 + 1,
    {
        self.0 = self.0 + 1;
    }

    /// Moves one voxel down `y`, wrapping within the chunk's index space.
    pub fn dec_y(&mut self)
        ensures
            final(self).index() == (old(self).index() + 32767) % 32768,
            final(self).primary() == old(self).primary(),
            final(self).secondary() == old(self).secondary(),
            final(self).material() == old(self).material(),
    {
        self.shift_index(32768 - Self::Y_STRIDE);
    }

    /// Moves one voxel up `x`, wrapping within the chunk's index space.
    pub fn inc_x(&mut self)
        ensures
            final(self).index() == (old(self).index() + 32) % 32768,
            final(self).primary() == old(self).primary(),
            final(self).secondary() == old(self).secondary(),
            final(self).material() == old(self).material(),
    {
        self.shift_index(Self::X_STRIDE);
    }

    /// Adds 32 to the word.
    pub fn inc_x_unchecked(&mut self)
        requires
            old(self).0 + 32 <= u32::MAX,
        ensures
            final(self).0 == old(self).0 + 32,
    {
        self.0 = self.0 + 32;
    }

    /// Moves one voxel down `x`, wrapping within the chunk's index space.
    pub fn dec_x(&mut self)
        ensures
            final(self).index() == (old(self).index() + 32768 - 32) % 32768,
            final(self).primary() == old(self).primary(),
            final(self).secondary() == old(self).secondary(),
            final(self).material() == old(self).material(),
    {
        self.shift_index(32768 - Self::X_STRIDE);
    }

    /// Moves one voxel up `z`, wrapping within the chunk's index space.
    pub fn inc_z(&mut self)
        ensures
            final(self).index() == (old(self).index() + 1024) % 32768,
            final(self).primary() == old(self).primary(),
            final(self).secondary() == old(self).secondary(),
            final(self).material() == old(self).material(),
    {
        self.shift_index(Self::Z_STRIDE);
    }

    /// Adds 1024 to the word.
    pub fn inc_z_unchecked(&mut self)
        requires
            old(self).0 + 1024 <= u32::MAX,
        ensures
            final(self).0 == old(self).0 + 1024,
    {
        self.0 = self.0 + 1024;
    }

    /// Moves one voxel down `z`, wrapping within the chunk's index space.
    pub fn dec_z(&mut self)
        ensures
            final(self).index() == (old(self).index() + 32768 - 1024) % 32768,
            final(self).primary() == old(self).primary(),
            final(self).secondary() == old(self).secondary(),
            final(self).material() == old(self).material(),
    {
        self.shift_index(32768 - Self::Z_STRIDE);
    }

    /// Grows the primary extent by one, modulo 32.
    pub fn inc_primary(&mut self)
        ensures
            final(self).primary() == (old(self).primary() + 1) % 32,
            same_except(final(self).0, old(self).0, 15),
    {
        let new_l = (self.primary() + 1) & Self::AXIS_MASK;
        proof {
            lemma_field_write(0, (self.primary() + 1) as u32, 0);
            lemma_field_write(0, new_l, 0);
        }
        self.set_primary(new_l);
    }

    /// Adds one to the primary extent field without a carry check.
    pub fn inc_primary_unchecked(&mut self)
        requires
            old(self).0 + 32768 <= u32::MAX,
        ensures
            final(self).0 == old(self).0 + 32768,
    {
        self.0 = self.0 + 32768;
    }

    /// Shrinks the primary extent by one, modulo 32.
    pub fn dec_primary(&mut self)
        ensures
            final(self).primary() == (old(self).primary() + 31) % 32,
            same_except(final(self).0, old(self).0, 15),
    {
        let new_l = (self.primary() + 32 - 1) & Self::AXIS_MASK;
        proof {
            lemma_field_write(0, (self.primary() + 31) as u32, 0);
            lemma_field_write(0, new_l, 0);
        }
        self.set_primary(new_l);
    }

    /// Grows the secondary extent by one, modulo 32.
    pub fn inc_secondary(&mut self)
        ensures
            final(self).secondary() == (old(self).secondary() + 1) % 32,
            same_except(final(self).0, old(self).0, 20),
    {
        let new_w = (self.secondary() + 1) & Self::AXIS_MASK;
        proof {
            lemma_field_write(0, (self.secondary() + 1) as u32, 0);
            lemma_field_write(0, new_w, 0);
        }
        self.set_secondary(new_w);
    }

    /// Shrinks the secondary extent by one, modulo 32.
    pub fn dec_secondary(&mut self)
        ensures
            final(self).secondary() == (old(self).secondary() + 31) % 32,
            same_except(final(self).0, old(self).0, 20),
    {
        let new_w = (self.secondary() + 32 - 1) & Self::AXIS_MASK;
        proof {
            lemma_field_write(0, (self.secondary() + 31) as u32, 0);
            lemma_field_write(0, new_w, 0);
        }
        self.set_secondary(new_w);
    }

    /// Whether the run can grow along its primary direction inside the chunk.
    pub fn can_extend_primary(&self, axis: FaceAxis) -> (r: bool)
        ensures
            r == (if axis == FaceAxis::Y {
                self.x() + self.primary() < 31
            } else {
                self.y() + self.primary() < 31
            }),
    {
        match axis {
            FaceAxis::Y => self.x() + self.primary() < 31,
            _ => self.y() + self.primary() < 31,
        }
    }

    /// Whether the run can grow along its secondary direction inside the chunk.
    pub fn can_extend_secondary(&self, axis: FaceAxis) -> (r: bool)
        ensures
            r == (if axis == FaceAxis::Z {
                self.x() + self.secondary() < 31
            } else {
                self.z() + self.secondary() < 31
            }),
    {
        match axis {
            FaceAxis::Z => self.x() + self.secondary() < 31,
            _ => self.z() + self.secondary() < 31,
        }
    }

    /// Whether the word, shifted down to the field of `face_axis`'s position (`y` for
    /// Y, `x` for X, `z` for Z), is below 31.
    pub fn try_next(&self, face_axis: FaceAxis) -> (r: bool)
        ensures
            r == ((self.0 >> (match face_axis {
                FaceAxis::Y => 0u32,
                FaceAxis::X => 5u32,
                FaceAxis::Z => 10u32,
            })) < 31),
    {
        let step: u32 = match face_axis {
            FaceAxis::Y => 0,
            FaceAxis::X => 5,
            FaceAxis::Z => 10,
        };
        (self.0 >> step) < 31
    }

    /// Whether `rhs` continues this run along the primary direction.
    pub fn can_merge_primary(&self, rhs: &Self, face_axis: FaceAxis) -> (r: bool)
        ensures
            r == merges_primary(self.0, rhs.0, face_axis),
    {
        proof {
            lemma_same_fields(self.0, rhs.0);
        }
        match face_axis {
            FaceAxis::X => ((self.0 ^ rhs.0) & 0xFE007FE0 == 0) && rhs.y() == self.y() + self.primary() + 1,
            FaceAxis::Y => ((self.0 ^ rhs.0) & 0xFE007C00 == 0) && rhs.x() == self.x() + self.primary() + 1,
            FaceAxis::Z => ((self.0 ^ rhs.0) & 0xFE007FE0 == 0) && rhs.y() == self.y() + self.primary() + 1,
        }
    }

    /// Grows this run over `rhs` when `rhs` continues it along the primary direction.
    pub fn try_merge_primary(&mut self, rhs: &Self, face_axis: FaceAxis) -> (r: bool)
        ensures
            r == merges_primary(old(self).0, rhs.0, face_axis),
            r ==> final(self).primary() == (old(self).primary() + 1) % 32 && same_except(
                final(self).0,
                old(self).0,
                15,
            ),
            !r ==> *final(self) == *old(self),
    {
        let can_merge = self.can_merge_primary(rhs, face_axis);
        if can_merge {
            self.inc_primary()
        }
        can_merge
    }
}

/// Where a run starts along its primary direction.
pub open spec fn primary_start(w: u32, axis: FaceAxis) -> u32 {
    field(w, primary_start_shift(axis))
}

impl VoxelInstance {
    /// Joins `rhs`, the next run of the same slice along the secondary direction, to
    /// this one where this run's primary span lies inside `rhs`'s: this run then grows
    /// by one along the secondary direction, and the parts of `rhs` before and after
    /// this run's span come back as runs of their own.
    pub fn try_merge_secondary(&mut self, rhs: &Self, face_axis: FaceAxis) -> (r: (
        bool,
        Option<VoxelInstance>,
        Option<VoxelInstance>,
    ))
        ensures
            !next_in_slice(old(self).0, rhs.0, face_axis) ==> r == (false, None::<VoxelInstance>, None::<
                VoxelInstance,
            >) && *final(self) == *old(self),
            next_in_slice(old(self).0, rhs.0, face_axis) ==> {
                let ls = primary_start(old(self).0, face_axis);
                let rs = primary_start(rhs.0, face_axis);
                let lp = field(old(self).0, 15);
                let rp = field(rhs.0, 15);
                let s = primary_start_shift(face_axis);
                &&& r.0 == (ls >= rs && ls + lp <= rs + rp)
                &&& r.0 ==> final(self).secondary() == (old(self).secondary() + 1) % 32 && same_except(
                    final(self).0,
                    old(self).0,
                    20,
                )
                &&& !r.0 ==> *final(self) == *old(self)
                &&& r.1 is Some <==> r.0 && ls > rs
                &&& r.1 is Some ==> field(r.1->Some_0.0, 15) == ls - rs - 1 && same_except(r.1->Some_0.0, rhs.0, 15)
                &&& r.2 is Some <==> r.0 && ls + lp < rs + rp
                &&& r.2 is Some ==> field(r.2->Some_0.0, 15) == (rs + rp - ls - lp - 1) % 32 && field(
                    r.2->Some_0.0,
                    s,
                ) == (ls + lp + 1) % 32 && same_except2(r.2->Some_0.0, rhs.0, 15, s)
            },
    {
        proof {
            lemma_same_fields(self.0, rhs.0);
        }
        let (is_same_slice_material_and_adjacent, lhs_start, rhs_start) = match face_axis {
            FaceAxis::X => (
                ((self.0 ^ rhs.0) & 0xFE0003E0 == 0 && rhs.z() == self.z() + self.secondary() + 1),
                self.y() as u8,
                rhs.y() as u8,
            ),
            FaceAxis::Y => (
                ((self.0 ^ rhs.0) & 0xFE00001F == 0 && rhs.z() == self.z() + self.secondary() + 1),
                self.x() as u8,
                rhs.x() as u8,
            ),
            FaceAxis::Z => (
                ((self.0 ^ rhs.0) & 0xFE007C00 == 0 && rhs.x() == self.x() + self.secondary() + 1),
                self.y() as u8,
                rhs.y() as u8,
            ),
        };
        if !is_same_slice_material_and_adjacent {
            return (false, None, None);
        }
        let lhs_span = self.primary() as u8;
        let rhs_span = rhs.primary() as u8;
        let (contains, has_head, has_tail) = rhs_contains_lhs(lhs_start, lhs_span, rhs_start, rhs_span);
        if contains {
            self.inc_secondary()
        }
        let head = if has_head {
            let mut head = VoxelInstance(rhs.0);
            let head_length = lhs_start - rhs_start;
            let head_extent = head_length - 1;
            head.set_primary(head_extent as u32);
            Some(head)
        } else {
            None
        };
        let tail = if has_tail {
            let mut tail = VoxelInstance(rhs.0);
            let tail_start = lhs_start + lhs_span + 1;
            let tail_length = (rhs_start + rhs_span + 1) - tail_start;
            let tail_extent = tail_length - 1;
            match face_axis {
                FaceAxis::X => tail.set_y(tail_start as u32),
                FaceAxis::Y => tail.set_x(tail_start as u32),
                FaceAxis::Z => tail.set_y(tail_start as u32),
            }
            tail.set_primary(tail_extent as u32);
            Some(tail)
        } else {
            None
        };
        (contains, head, tail)
    }
}

/// The runs of a chunk's mesh, one list per face direction.
#[derive(Clone, Debug)]
pub struct TempChunkMeshData {
    pub data: [Vec<VoxelInstance>; 6],
}

impl TempChunkMeshData {
    /// Six empty lists.
    pub fn new() -> (r: Self)
        ensures
            forall|i: int| 0 <= i < 6 ==> (#[trigger] r.data@[i])@.len() == 0,
    {
        TempChunkMeshData { data: [Vec::new(), Vec::new(), Vec::new(), Vec::new(), Vec::new(), Vec::new()] }
    }

    /// Six empty lists.
    pub fn default() -> (r: Self)
        ensures
            forall|i: int| 0 <= i < 6 ==> (#[trigger] r.data@[i])@.len() == 0,
    {
        Self::new()
    }

    /// Empties every list.
    pub fn clear(&mut self)
        ensures
            forall|i: int| 0 <= i < 6 ==> (#[trigger] final(self).data@[i])@.len() == 0,
    {
        let mut i: usize = 0;
        while i < 6
            invariant
                i <= 6,
                forall|j: int| 0 <= j < i ==> (#[trigger] self.data@[j])@.len() == 0,
            decreases 6 - i,
        {
            self.data[i].clear();
            i = i + 1;
        }
    }

    /// Adds `instance` to the list of direction `face`.
    pub fn push_face(&mut self, face: FaceDirection, instance: VoxelInstance)
        ensures
            final(self).data@[face_number(face) as int]@ == old(self).data@[face_number(face) as int]@.push(
                instance,
            ),
            forall|i: int|
                0 <= i < 6 && i != face_number(face) ==> #[trigger] final(self).data@[i] == old(self).data@[i],
    {
        let i = face.index();
        self.data[i].push(instance);
    }
}

/// Stepping the index up and back down, along any axis, gives it back.
pub proof fn lemma_index_step_round_trip(index: int, step: int)
    requires
        0 <= index < 32768,
        0 < step < 32768,
    ensures
        ((index + step) % 32768 + 32768 - step) % 32768 == index,
{
}

} // verus!
