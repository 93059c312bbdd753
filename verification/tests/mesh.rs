use raw::voxels::bits::data::LinearArray;
use raw::voxels::bits::mesh::{build_mesh, build_mesh_into, dgm_x, dgm_y, dgm_z, get_all_faces_simple, primary_pass, secondary_pass};
use raw::voxels::constants::{FaceDirection, TempChunkMeshData, VoxelInstance};

fn index(x: usize, y: usize, z: usize) -> usize {
    y + 32 * x + 1024 * z
}

fn chunk_of(voxels: &[(usize, usize, usize, u8)]) -> LinearArray {
    let mut a = LinearArray::new();
    for &(x, y, z, m) in voxels {
        a.set(index(x, y, z), m);
    }
    a
}

/// The voxels (x, y, z) that run `v` of direction `d` covers.
fn covered(v: &VoxelInstance, d: usize) -> Vec<(usize, usize, usize)> {
    let (x, y, z) = (v.x() as usize, v.y() as usize, v.z() as usize);
    let (p, s) = (v.primary() as usize, v.secondary() as usize);
    let mut out = Vec::new();
    for i in 0..=p {
        for j in 0..=s {
            out.push(match d / 2 {
                0 => (x + i, y, z + j),
                1 => (x, y + i, z + j),
                _ => (x + j, y + i, z),
            });
        }
    }
    out
}

/// Whether voxel (x, y, z) shows a face in direction `d`.
fn visible(a: &LinearArray, x: usize, y: usize, z: usize, d: usize) -> bool {
    if a.data[index(x, y, z)] == 0 {
        return false;
    }
    let n = match d {
        0 => (y < 31).then(|| index(x, y + 1, z)),
        1 => (y > 0).then(|| index(x, y - 1, z)),
        2 => (x < 31).then(|| index(x + 1, y, z)),
        3 => (x > 0).then(|| index(x - 1, y, z)),
        4 => (z < 31).then(|| index(x, y, z + 1)),
        _ => (z > 0).then(|| index(x, y, z - 1)),
    };
    match n {
        Some(i) => a.data[i] == 0,
        None => true,
    }
}

/// Checks that list `d` paints every visible face once, in its voxel's material, and
/// nothing else.
fn check_mesh_list(a: &LinearArray, list: &[VoxelInstance], d: usize) {
    let mut seen = vec![0u32; 32768];
    for v in list {
        for (x, y, z) in covered(v, d) {
            assert!(x < 32 && y < 32 && z < 32);
            let i = index(x, y, z);
            assert!(visible(a, x, y, z, d), "direction {} paints a hidden voxel {:?}", d, (x, y, z));
            assert_eq!(v.material(), (a.data[i] % 128) as u32);
            seen[i] += 1;
        }
    }
    for z in 0..32 {
        for x in 0..32 {
            for y in 0..32 {
                if visible(a, x, y, z, d) {
                    assert_eq!(seen[index(x, y, z)], 1, "direction {} at {:?}", d, (x, y, z));
                }
            }
        }
    }
}

fn check_mesh(a: &LinearArray) {
    let mesh = build_mesh(a);
    for d in 0..6 {
        check_mesh_list(a, &mesh[d], d);
    }
}

fn xorshift32(state: &mut u32) -> u32 {
    let mut x = *state;
    x ^= x << 13;
    x ^= x >> 17;
    x ^= x << 5;
    *state = x;
    x
}

#[test]
fn faces_of_a_single_voxel() {
    let a = chunk_of(&[(3, 4, 5, 7)]);
    let faces = get_all_faces_simple(&a.occupancy.bits, &[]);
    let word = 3 + 32 * 5;
    for d in 0..6 {
        let f = faces[d].expect("no direction is excluded");
        assert_eq!(f.count, 1);
        assert_eq!(f.bits[word], 1 << 4);
    }
    let some = get_all_faces_simple(&a.occupancy.bits, &[FaceDirection::XP, FaceDirection::ZN]);
    assert!(some[0].is_some() && some[1].is_some() && some[3].is_some() && some[4].is_some());
    assert!(some[2].is_none() && some[5].is_none());
}

#[test]
fn faces_between_neighbours_are_hidden() {
    let a = chunk_of(&[(0, 0, 0, 1), (0, 1, 0, 1)]);
    let faces = get_all_faces_simple(&a.occupancy.bits, &[]);
    assert_eq!(faces[0].unwrap().bits[0], 0b10);
    assert_eq!(faces[1].unwrap().bits[0], 0b01);
    assert_eq!(faces[2].unwrap().bits[0], 0b11);
    assert_eq!(faces[2].unwrap().count, 2);
}

#[test]
fn empty_and_uniform_chunks() {
    let empty = build_mesh(&LinearArray::default());
    assert!(empty.iter().all(|l| l.is_empty()));
    let full = build_mesh(&LinearArray::uniform(9));
    let maxi = VoxelInstance::max_instance(FaceDirection::YP, 9);
    for list in full.iter() {
        assert_eq!(list.len(), 1);
        assert_eq!(list[0], maxi);
    }
    assert_eq!((maxi.x(), maxi.y(), maxi.z(), maxi.primary(), maxi.secondary(), maxi.material()), (0, 31, 0, 31, 31, 9));
}

#[test]
fn single_voxel_mesh() {
    let a = chunk_of(&[(3, 4, 5, 7)]);
    let mesh = build_mesh(&a);
    for list in mesh.iter() {
        assert_eq!(list.len(), 1);
        let v = list[0];
        assert_eq!((v.x(), v.y(), v.z(), v.primary(), v.secondary(), v.material()), (3, 4, 5, 0, 0, 7));
    }
}

#[test]
fn square_slab_merges_into_one_run_per_direction() {
    let a = chunk_of(&[(0, 0, 0, 1), (1, 0, 0, 1), (0, 0, 1, 1), (1, 0, 1, 1)]);
    let mesh = build_mesh(&a);
    let yp = mesh[0][0];
    assert_eq!(mesh[0].len(), 1);
    assert_eq!((yp.x(), yp.y(), yp.z(), yp.primary(), yp.secondary()), (0, 0, 0, 1, 1));
    let xp = mesh[2][0];
    assert_eq!(mesh[2].len(), 1);
    assert_eq!((xp.x(), xp.y(), xp.z(), xp.primary(), xp.secondary()), (1, 0, 0, 0, 1));
    let zp = mesh[4][0];
    assert_eq!(mesh[4].len(), 1);
    assert_eq!((zp.x(), zp.y(), zp.z(), zp.primary(), zp.secondary()), (0, 0, 1, 0, 1));
    check_mesh(&a);
}

#[test]
fn wider_next_row_leaves_a_tail() {
    let mut voxels = vec![(1, 0, 0, 2), (2, 0, 0, 2)];
    for x in 1..5 {
        voxels.push((x, 0, 1, 2));
    }
    let a = chunk_of(&voxels);
    let mesh = build_mesh(&a);
    let yp = &mesh[0];
    assert_eq!(yp.len(), 2);
    assert_eq!((yp[0].x(), yp[0].z(), yp[0].primary(), yp[0].secondary()), (3, 1, 1, 0));
    assert_eq!((yp[1].x(), yp[1].z(), yp[1].primary(), yp[1].secondary()), (1, 0, 1, 1));
    check_mesh(&a);
}

#[test]
fn materials_split_runs() {
    let a = chunk_of(&[(0, 0, 0, 1), (1, 0, 0, 2), (2, 0, 0, 2)]);
    let mesh = build_mesh(&a);
    assert_eq!(mesh[0].len(), 2);
    assert_eq!((mesh[0][0].x(), mesh[0][0].primary(), mesh[0][0].material()), (0, 0, 1));
    assert_eq!((mesh[0][1].x(), mesh[0][1].primary(), mesh[0][1].material()), (1, 1, 2));
    check_mesh(&a);
}

#[test]
fn first_pass_runs_per_direction() {
    let a = chunk_of(&[(2, 3, 4, 1), (2, 4, 4, 1), (2, 5, 4, 3)]);
    let faces = get_all_faces_simple(&a.occupancy.bits, &[]);
    let along_y = dgm_x(faces[2].unwrap(), &a);
    assert_eq!(along_y[2].len(), 2);
    assert_eq!((along_y[2][0].y(), along_y[2][0].primary(), along_y[2][0].material()), (3, 1, 1));
    assert_eq!((along_y[2][1].y(), along_y[2][1].primary(), along_y[2][1].material()), (5, 0, 3));
    let by_z = dgm_z(faces[4].unwrap(), &a);
    assert_eq!(by_z[4].len(), 2);
    assert!(by_z.iter().enumerate().all(|(z, l)| z == 4 || l.is_empty()));
    let rows = dgm_y(faces[0].unwrap(), &a);
    assert_eq!(rows[5].len(), 1);
    assert_eq!(rows[5][0].material(), 3);
    let first = primary_pass(faces, &a);
    let second = secondary_pass(first.clone());
    for d in 0..6 {
        assert!(first[d].is_some() && second[d].is_some());
    }
}

#[test]
fn excluded_directions_stay_empty() {
    let a = LinearArray::test_checkerboard(false);
    let mut out = TempChunkMeshData::default();
    build_mesh_into(&a, &[FaceDirection::YP, FaceDirection::ZN], &mut out);
    assert!(out.data[0].is_empty() && out.data[5].is_empty());
    for d in [1, 2, 3, 4] {
        check_mesh_list(&a, &out.data[d], d);
    }
    build_mesh_into(&LinearArray::default(), &[], &mut out);
    assert!(out.data.iter().all(|l| l.is_empty()));
}

#[test]
fn uniform_chunk_into_meshes_its_outer_faces() {
    let a = LinearArray::uniform(4);
    let mut out = TempChunkMeshData::default();
    build_mesh_into(&a, &[], &mut out);
    for d in 0..6 {
        assert_eq!(out.data[d].len(), 1);
        check_mesh_list(&a, &out.data[d], d);
    }
}

#[test]
fn meshes_paint_exactly_the_visible_faces() {
    check_mesh(&LinearArray::test_checkerboard(false));
    check_mesh(&LinearArray::test_checkerboard(true));
    check_mesh(&LinearArray::test_y_banded());
    check_mesh(&LinearArray::test_x_banded());
    check_mesh(&LinearArray::test_z_banded());
    check_mesh(&LinearArray::test_hollow_cube(1));
    check_mesh(&LinearArray::test_hollow_cube(2));
    check_mesh(&LinearArray::test_pillars(4, 1));
    let mut state = 12345u32;
    let mut a = LinearArray::new();
    for i in 0..32768 {
        if xorshift32(&mut state) < u32::MAX / 2 {
            let m = (xorshift32(&mut state) % 3) as u8 + 1;
            a.set(i, m);
        }
    }
    check_mesh(&a);
}
