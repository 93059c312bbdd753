use raw::voxels::buffers::{BufferRange, RangeAllocator};
use raw::voxels::constants::{
    rhs_contains_lhs, FaceAxis, FaceDirection, TempChunkMeshData, VoxelInstance, VoxelType,
};

#[test]
fn voxel_types_convert_both_ways() {
    assert_eq!(VoxelType::from(2u8), VoxelType::Dirt);
    assert_eq!(VoxelType::from(9u8), VoxelType::Air);
    assert_eq!(u8::from(VoxelType::Water), 3);
    assert_eq!(VoxelType::from_index(1), VoxelType::Stone);
    assert_eq!(VoxelType::from_index(100), VoxelType::Air);
    assert_eq!(VoxelType::default(), VoxelType::Air);
    assert_eq!(VoxelType::NONE, None);
}

#[test]
fn instance_fields_pack_and_unpack() {
    let v = VoxelInstance::new(3, 7, 30, 4, 9, 5);
    assert_eq!((v.x(), v.y(), v.z()), (3, 7, 30));
    assert_eq!((v.primary(), v.secondary(), v.material()), (4, 9, 5));
    assert_eq!(v.index(), 7 + 3 * 32 + 30 * 1024);
    assert_eq!(v.0, 7 | (3 << 5) | (30 << 10) | (4 << 15) | (9 << 20) | (5 << 25));
    let wrapped = VoxelInstance::new(35, 32, 63, 33, 64, 200);
    assert_eq!((wrapped.x(), wrapped.y(), wrapped.z()), (3, 0, 31));
    assert_eq!((wrapped.primary(), wrapped.secondary(), wrapped.material()), (1, 0, 72));
    assert_eq!(VoxelInstance::create_index(7 + 3 * 32, 2, 0, 1), VoxelInstance::new(3, 7, 0, 2, 0, 1));
    assert_eq!(VoxelInstance::from_word_bit(3, 7).0, 3 * 32 + 7);
    assert_eq!(VoxelInstance::from_material(100, 2).material(), 2);
    assert_eq!(VoxelInstance::from_material(100, 2).index(), 100);
    assert_eq!(VoxelInstance::from_u16_idx(9).0, 9);
    assert_eq!(VoxelInstance::from_u32_idx(0xFFFF_FFFF).material(), 127);
    assert_eq!(VoxelInstance::default().0, 0);
    assert_eq!(VoxelInstance::clear().0, 0);
    assert_eq!(v.word(), (v.0 >> 5) & 1023);
}

#[test]
fn setters_change_one_field() {
    let mut v = VoxelInstance::new(1, 2, 3, 4, 5, 6);
    v.set_x(31);
    assert_eq!((v.x(), v.y(), v.z(), v.primary(), v.secondary(), v.material()), (31, 2, 3, 4, 5, 6));
    v.set_y(40);
    assert_eq!(v.y(), 8);
    v.set_z(0);
    v.set_primary(17);
    v.set_secondary(18);
    v.set_material(127);
    assert_eq!((v.x(), v.y(), v.z(), v.primary(), v.secondary(), v.material()), (31, 8, 0, 17, 18, 127));
    v.set_index(5 + 6 * 32 + 7 * 1024);
    assert_eq!((v.x(), v.y(), v.z(), v.primary()), (6, 5, 7, 17));
    v.set_xz(1 << 5 | 2 << 10 | 31);
    assert_eq!((v.x(), v.y(), v.z()), (1, 5, 2));
    v.set_yz(9 | 9 << 5 | 4 << 10);
    assert_eq!((v.x(), v.y(), v.z()), (1, 9, 4));
}

#[test]
fn steps_wrap_within_the_chunk() {
    let mut v = VoxelInstance::new(31, 31, 31, 2, 3, 4);
    v.inc_y();
    assert_eq!(v.index(), 0);
    assert_eq!((v.primary(), v.secondary(), v.material()), (2, 3, 4));
    v.dec_y();
    assert_eq!(v.index(), 32767);
    v.inc_x();
    assert_eq!(v.index(), 31);
    v.dec_x();
    assert_eq!(v.index(), 32767);
    v.inc_z();
    assert_eq!(v.index(), 1023);
    v.dec_z();
    assert_eq!(v.index(), 32767);
    let mut e = VoxelInstance::new(0, 0, 0, 31, 0, 1);
    e.inc_primary();
    assert_eq!(e.primary(), 0);
    e.dec_primary();
    assert_eq!(e.primary(), 31);
    e.inc_secondary();
    assert_eq!(e.secondary(), 1);
    e.dec_secondary();
    e.dec_secondary();
    assert_eq!(e.secondary(), 31);
    let mut u = VoxelInstance::new(0, 0, 0, 0, 0, 0);
    u.inc_y_unchecked();
    u.inc_x_unchecked();
    u.inc_z_unchecked();
    u.inc_primary_unchecked();
    assert_eq!(u.0, 1 + 32 + 1024 + 32768);
    assert!(VoxelInstance::new(10, 0, 0, 20, 0, 0).can_extend_primary(FaceAxis::Y));
    assert!(!VoxelInstance::new(11, 0, 0, 20, 0, 0).can_extend_primary(FaceAxis::Y));
    assert!(!VoxelInstance::new(0, 31, 0, 0, 0, 0).can_extend_primary(FaceAxis::X));
    assert!(VoxelInstance::new(0, 0, 5, 0, 25, 0).can_extend_secondary(FaceAxis::X));
    assert!(!VoxelInstance::new(6, 0, 0, 0, 25, 0).can_extend_secondary(FaceAxis::Z));
    assert!(VoxelInstance::new(0, 30, 0, 0, 0, 0).try_next(FaceAxis::Y));
    assert!(!VoxelInstance::new(0, 31, 0, 0, 0, 0).try_next(FaceAxis::Y));
}

#[test]
fn primary_merges_need_an_adjacent_run() {
    let mut a = VoxelInstance::new(4, 2, 9, 1, 0, 3);
    let b = VoxelInstance::new(4, 4, 9, 0, 0, 3);
    assert!(a.can_merge_primary(&b, FaceAxis::X));
    assert!(a.try_merge_primary(&b, FaceAxis::X));
    assert_eq!(a.primary(), 2);
    let c = VoxelInstance::new(4, 6, 9, 0, 0, 3);
    assert!(!a.try_merge_primary(&c, FaceAxis::X), "a gap of one voxel");
    let other_material = VoxelInstance::new(4, 5, 9, 0, 0, 2);
    assert!(!a.can_merge_primary(&other_material, FaceAxis::X));
    let along_x = VoxelInstance::new(5, 0, 9, 0, 0, 3);
    assert!(VoxelInstance::new(4, 0, 9, 0, 0, 3).can_merge_primary(&along_x, FaceAxis::Y));
}

#[test]
fn secondary_merges_split_the_outer_run() {
    // Current run: y 5..=7 at z 3; candidate: y 2..=10 at z 4, same x and material.
    let mut cur = VoxelInstance::new(8, 5, 3, 2, 0, 1);
    let cand = VoxelInstance::new(8, 2, 4, 8, 0, 1);
    let (merged, head, tail) = cur.try_merge_secondary(&cand, FaceAxis::X);
    assert!(merged);
    assert_eq!(cur.secondary(), 1);
    let head = head.expect("the candidate starts before the run");
    assert_eq!((head.y(), head.primary(), head.z()), (2, 2, 4));
    let tail = tail.expect("the candidate ends after the run");
    assert_eq!((tail.y(), tail.primary(), tail.z()), (8, 2, 4));

    let mut cur = VoxelInstance::new(8, 5, 3, 2, 0, 1);
    let shorter = VoxelInstance::new(8, 5, 4, 1, 0, 1);
    assert_eq!(cur.try_merge_secondary(&shorter, FaceAxis::X), (false, None, None));
    assert_eq!(cur.secondary(), 0);
    let far = VoxelInstance::new(8, 5, 5, 2, 0, 1);
    assert_eq!(cur.try_merge_secondary(&far, FaceAxis::X), (false, None, None));
}

#[test]
fn span_containment() {
    assert_eq!(rhs_contains_lhs(5, 2, 2, 8), (true, true, true));
    assert_eq!(rhs_contains_lhs(2, 8, 2, 8), (true, false, false));
    assert_eq!(rhs_contains_lhs(1, 2, 2, 8), (false, false, false));
    assert_eq!(rhs_contains_lhs(2, 3, 2, 8), (true, false, true));
}

#[test]
fn face_directions() {
    for (i, d) in FaceDirection::iter().into_iter().enumerate() {
        assert_eq!(d.index(), i);
        assert_eq!(FaceDirection::from_index(i), d);
        assert_eq!(d.reflect().reflect(), d);
        assert_eq!(d.reflect().axis(), d.axis());
        assert_ne!(d.reflect().is_positive(), d.is_positive());
        assert_eq!(FaceAxis::from_usize(i), d.axis());
        assert_eq!(FaceDirection::ALL[i], d);
    }
    assert_eq!(FaceDirection::from_index(6), FaceDirection::YP);
    assert_eq!(FaceDirection::default(), FaceDirection::YP);
    assert_eq!(FaceDirection::YN.primary_axis(), FaceDirection::XP);
    assert_eq!(FaceDirection::ZP.primary_axis(), FaceDirection::YP);
    assert_eq!(FaceDirection::ZN.secondary_axis(), FaceDirection::XP);
    assert_eq!(FaceDirection::XN.secondary_axis(), FaceDirection::ZP);
    assert_eq!(FaceAxis::from_usize(7), FaceAxis::Y);
    assert_eq!(FaceAxis::from_usize(9), FaceAxis::X);
    let m = VoxelInstance::max_instance(FaceDirection::XP, 2);
    assert_eq!((m.x(), m.y(), m.z(), m.primary(), m.secondary(), m.material()), (31, 0, 0, 31, 31, 2));
    assert_eq!(VoxelInstance::max_instance(FaceDirection::YP, 1).0, 0x01FF801F | (1 << 25));
    assert_eq!(VoxelInstance::max_instance(FaceDirection::ZP, 0).0, 0x01FFFC00);
    assert_eq!(VoxelInstance::max_instance(FaceDirection::ZN, 0).0, 0x01FF8000);
}

#[test]
fn mesh_lists_per_direction() {
    let mut mesh = TempChunkMeshData::default();
    mesh.push_face(FaceDirection::XN, VoxelInstance(5));
    mesh.push_face(FaceDirection::XN, VoxelInstance(6));
    mesh.push_face(FaceDirection::ZP, VoxelInstance(7));
    assert_eq!(mesh.data[3], vec![VoxelInstance(5), VoxelInstance(6)]);
    assert_eq!(mesh.data[4], vec![VoxelInstance(7)]);
    assert!(mesh.data[0].is_empty());
    mesh.clear();
    assert!(mesh.data.iter().all(|v| v.is_empty()));
    assert!(TempChunkMeshData::new().data.iter().all(|v| v.is_empty()));
}

#[test]
fn ranges_are_handed_out_first_fit_in_pages() {
    let mut alloc = RangeAllocator::new(4096);
    let a = alloc.allocate(1).unwrap();
    assert_eq!((a.offset, a.size), (0, 256));
    let b = alloc.allocate(300).unwrap();
    assert_eq!((b.offset, b.size), (256, 512));
    let c = alloc.allocate(256).unwrap();
    assert_eq!((c.offset, c.size), (768, 256));
    assert!(alloc.allocate(4096).is_none());
    alloc.deallocate(b);
    // The freed hole comes first after sorting, and is found first.
    let d = alloc.allocate(200).unwrap();
    assert_eq!((d.offset, d.size), (256, 256));
    alloc.deallocate(a);
    alloc.deallocate(d);
    alloc.deallocate(c);
    // Everything is free again and merged into one range.
    let whole = alloc.allocate(4096).unwrap();
    assert_eq!((whole.offset, whole.size), (0, 4096));
    assert!(alloc.allocate(1).is_none());
    let cloned = alloc.clone();
    let mut cloned = cloned;
    assert!(cloned.allocate(1).is_none());
    let _ = BufferRange { offset: 0, size: 0 };
}
