use std::hint::black_box;
use std::time::Instant;

use raw::voxels::bits::data::LinearArray;
use raw::voxels::bits::mesh::{build_mesh_into, get_all_faces_simple, primary_pass, secondary_pass};
use raw::voxels::constants::{FaceDirection, TempChunkMeshData};

/// Timing runs per measurement: few, so that each test stays quick in a debug build.
const ITERATIONS: u32 = 3;

fn set_voxel(a: &mut LinearArray, x: usize, y: usize, z: usize, material: u8) {
    a.set(y | (x << 5) | (z << 10), material);
}

fn sphere(radius: f32, material: u8) -> LinearArray {
    let mut a = LinearArray::new();
    let center = 15.5f32;
    for z in 0..32 {
        for x in 0..32 {
            for y in 0..32 {
                let dx = x as f32 - center;
                let dy = y as f32 - center;
                let dz = z as f32 - center;
                if dx * dx + dy * dy + dz * dz <= radius * radius {
                    set_voxel(&mut a, x, y, z, material);
                }
            }
        }
    }
    a
}

fn xorshift32(state: &mut u32) -> u32 {
    let mut x = *state;
    x ^= x << 13;
    x ^= x >> 17;
    x ^= x << 5;
    *state = x;
    x
}

fn sparse_random(seed: u32, fill_ratio: f32) -> LinearArray {
    let mut a = LinearArray::new();
    let mut state = seed;
    let threshold = (fill_ratio * u32::MAX as f32) as u32;
    for idx in 0..32768 {
        if xorshift32(&mut state) < threshold {
            a.set(idx, 1);
        }
    }
    a
}

fn dense_random(seed: u32, fill_ratio: f32, material_count: u8) -> LinearArray {
    let mut a = LinearArray::new();
    let mut state = seed;
    let threshold = (fill_ratio * u32::MAX as f32) as u32;
    for idx in 0..32768 {
        if xorshift32(&mut state) < threshold {
            let material = ((xorshift32(&mut state) as u8) % material_count) + 1;
            a.set(idx, material);
        }
    }
    a
}

fn hash3d(x: u32, y: u32, z: u32, seed: u32) -> f32 {
    let mut h = seed;
    h ^= x.wrapping_mul(374761393);
    h ^= y.wrapping_mul(668265263);
    h ^= z.wrapping_mul(1274126177);
    h ^= h >> 13;
    h = h.wrapping_mul(1274126177);
    h ^= h >> 16;
    (h as f32) / (u32::MAX as f32)
}

fn noise_3d(seed: u32, threshold: f32, scale: f32) -> LinearArray {
    let mut a = LinearArray::new();
    let inv_scale = 1.0 / scale;
    for z in 0..32 {
        for x in 0..32 {
            for y in 0..32 {
                let nx = (x as f32 * inv_scale) as u32;
                let ny = (y as f32 * inv_scale) as u32;
                let nz = (z as f32 * inv_scale) as u32;
                if hash3d(nx, ny, nz, seed) > threshold {
                    set_voxel(&mut a, x, y, z, 1);
                }
            }
        }
    }
    a
}

fn benchmark_test<F>(name: &str, mut setup: F, iterations: u32)
where
    F: FnMut() -> LinearArray,
{
    let data = setup();
    let mut temp = TempChunkMeshData::default();
    build_mesh_into(black_box(&data), &[], black_box(&mut temp));
    let start = Instant::now();
    for _ in 0..iterations {
        build_mesh_into(black_box(&data), &[], black_box(&mut temp));
    }
    let avg_time = start.elapsed() / iterations;
    let total_instances: usize = temp.data.iter().map(|v| v.len()).sum();
    println!("{:30} {:>10?}  ({} instances)", name, avg_time, total_instances);
}

#[test]
fn benchmark_get_all_faces_simple() {
    println!("\n{:30} {:>10}", "Component", "Avg Time");
    println!("{}", "-".repeat(45));
    let data = sphere(12.0, 1);
    let occ = &data.occupancy.bits;
    black_box(get_all_faces_simple(black_box(occ), &[]));
    let start = Instant::now();
    for _ in 0..ITERATIONS {
        black_box(get_all_faces_simple(black_box(occ), &[]));
    }
    println!("{:30} {:>10?}", "get_all_faces_simple", start.elapsed() / ITERATIONS);
    let mut temp = TempChunkMeshData::default();
    let start = Instant::now();
    for _ in 0..ITERATIONS {
        build_mesh_into(black_box(&data), &[], black_box(&mut temp));
    }
    println!("{:30} {:>10?}", "Full pipeline", start.elapsed() / ITERATIONS);
}

#[test]
fn benchmark_all_patterns() {
    println!("\n{:30} {:>10}  {}", "Pattern", "Avg Time", "Output");
    println!("{}", "-".repeat(60));
    benchmark_test("Empty (all air)", || LinearArray::default(), ITERATIONS);
    benchmark_test("Uniform (solid stone)", || LinearArray::uniform(1), ITERATIONS);
    benchmark_test("Checkerboard (worst case)", || LinearArray::test_checkerboard(false), ITERATIONS);
    benchmark_test("Checkerboard complement", || LinearArray::test_checkerboard(true), ITERATIONS);
    benchmark_test("Y-banded (horizontal planes)", || LinearArray::test_y_banded(), ITERATIONS);
    benchmark_test("X-banded (vertical slices)", || LinearArray::test_x_banded(), ITERATIONS);
    benchmark_test("Z-banded (vertical slices)", || LinearArray::test_z_banded(), ITERATIONS);
    benchmark_test("Hollow cube (1 voxel walls)", || LinearArray::test_hollow_cube(1), ITERATIONS);
    benchmark_test("Hollow cube (2 voxel walls)", || LinearArray::test_hollow_cube(2), ITERATIONS);
    benchmark_test("Sphere (radius 8)", || sphere(8.0, 1), ITERATIONS);
    benchmark_test("Sphere (radius 15)", || sphere(15.0, 1), ITERATIONS);
    benchmark_test("Sparse random (10% fill)", || sparse_random(12345, 0.1), ITERATIONS);
    benchmark_test("Sparse random (25% fill)", || sparse_random(12345, 0.25), ITERATIONS);
    benchmark_test("Sparse random (50% fill)", || sparse_random(12345, 0.5), ITERATIONS);
    benchmark_test("Sparse random (75% fill)", || sparse_random(12345, 0.75), ITERATIONS);
    benchmark_test("Dense random (90%, 4 materials)", || dense_random(54321, 0.9, 4), ITERATIONS);
    benchmark_test("Pillars (spacing 4)", || LinearArray::test_pillars(4, 1), ITERATIONS);
    benchmark_test("Pillars (spacing 8)", || LinearArray::test_pillars(8, 1), ITERATIONS);
    benchmark_test("3D Noise (threshold 0.3, scale 4)", || noise_3d(99999, 0.3, 4.0), ITERATIONS);
    benchmark_test("3D Noise (threshold 0.5, scale 8)", || noise_3d(99999, 0.5, 8.0), ITERATIONS);
}

#[test]
fn benchmark_face_exclusion() {
    println!("\n{:30} {:>10}  {}", "Exclusion Pattern", "Avg Time", "Note");
    println!("{}", "-".repeat(60));
    let data = LinearArray::test_checkerboard(false);
    let mut temp = TempChunkMeshData::default();
    let start = Instant::now();
    for _ in 0..ITERATIONS {
        build_mesh_into(black_box(&data), &[], black_box(&mut temp));
    }
    println!("{:30} {:>10?}  All 6 faces", "No exclusions", start.elapsed() / ITERATIONS);
    let start = Instant::now();
    for _ in 0..ITERATIONS {
        build_mesh_into(black_box(&data), &[FaceDirection::YP], black_box(&mut temp));
    }
    println!("{:30} {:>10?}  5 faces", "Exclude YP", start.elapsed() / ITERATIONS);
    let start = Instant::now();
    for _ in 0..ITERATIONS {
        build_mesh_into(
            black_box(&data),
            &[FaceDirection::YP, FaceDirection::YN, FaceDirection::XP],
            black_box(&mut temp),
        );
    }
    println!("{:30} {:>10?}  3 faces", "Exclude YP/YN/XP", start.elapsed() / ITERATIONS);
}

#[test]
fn benchmark_component_breakdown() {
    println!("\n{:30} {:>10}", "Component", "Avg Time");
    println!("{}", "-".repeat(45));
    let data = sphere(12.0, 1);
    let mut temp = TempChunkMeshData::default();
    let start = Instant::now();
    for _ in 0..ITERATIONS {
        build_mesh_into(black_box(&data), &[], black_box(&mut temp));
    }
    println!("{:30} {:>10?}", "Full pipeline", start.elapsed() / ITERATIONS);
    let start = Instant::now();
    for _ in 0..ITERATIONS {
        black_box(get_all_faces_simple(black_box(&data.occupancy.bits), &[]));
    }
    println!("{:30} {:>10?}", "Face extraction", start.elapsed() / ITERATIONS);
    let faces = get_all_faces_simple(&data.occupancy.bits, &[]);
    let start = Instant::now();
    for _ in 0..ITERATIONS {
        black_box(primary_pass(black_box(faces), black_box(&data)));
    }
    println!("{:30} {:>10?}", "Primary pass (1D greedy)", start.elapsed() / ITERATIONS);
    let primary_result = primary_pass(faces, &data);
    let start = Instant::now();
    for _ in 0..ITERATIONS {
        black_box(secondary_pass(primary_result.clone()));
    }
    println!("{:30} {:>10?}", "Secondary pass (2D merge)", start.elapsed() / ITERATIONS);
}

#[test]
fn benchmark_scaling() {
    println!("\n{:30} {:>10}  {:>10}", "Fill Ratio", "Avg Time", "Instances");
    println!("{}", "-".repeat(55));
    let mut temp = TempChunkMeshData::default();
    for fill_pct in [5, 10, 20, 30, 40, 50, 60, 70, 80, 90, 95, 99] {
        let fill_ratio = fill_pct as f32 / 100.0;
        let data = sparse_random(42, fill_ratio);
        let start = Instant::now();
        for _ in 0..ITERATIONS {
            build_mesh_into(black_box(&data), &[], black_box(&mut temp));
        }
        let avg_time = start.elapsed() / ITERATIONS;
        let total_instances: usize = temp.data.iter().map(|v| v.len()).sum();
        println!("{:>3}% fill {:20} {:>10?}  {:>10}", fill_pct, "", avg_time, total_instances);
    }
}
