use raw::voxels::bits::data::{LinearArray, OccupancyArray};
use raw::voxels::utils::{
    bit_clear, bit_get, bit_set, bit_toggle, bits_of, calc_chunk_length, calc_grid_indices,
    calc_voxel_remainder, u32_range_mask,
};

fn count_set_bits(o: &OccupancyArray) -> u32 {
    o.bits.iter().map(|w| w.count_ones()).sum()
}

#[test]
fn bits_of_counts_binary_digits() {
    assert_eq!(bits_of(0), 0);
    assert_eq!(bits_of(1), 1);
    assert_eq!(bits_of(2), 2);
    assert_eq!(bits_of(255), 8);
    assert_eq!(bits_of(256), 9);
    assert_eq!(bits_of(usize::MAX), usize::BITS as usize);
}

#[test]
fn single_bit_operations() {
    let mut w = 0u32;
    bit_set(&mut w, 3);
    assert!(bit_get(w, 3));
    assert_eq!(w, 8);
    bit_set(&mut w, 35); // index taken modulo 32
    assert_eq!(w, 8);
    bit_toggle(&mut w, 0);
    assert_eq!(w, 9);
    bit_toggle(&mut w, 0);
    assert_eq!(w, 8);
    bit_clear(&mut w, 3);
    assert_eq!(w, 0);
    assert!(!bit_get(w, 3));
}

#[test]
fn range_masks() {
    assert_eq!(u32_range_mask(0, 4), 0b1111);
    assert_eq!(u32_range_mask(4, 4), 0b1111_0000);
    assert_eq!(u32_range_mask(28, 10), 0xF000_0000); // cut off at bit 32
    assert_eq!(u32_range_mask(5, 0), 0);
    assert_eq!(u32_range_mask(1, 31), 0xFFFF_FFFE);
}

#[test]
fn grid_indices_round_up() {
    assert_eq!(calc_chunk_length(0), 0);
    assert_eq!(calc_chunk_length(1), 1);
    assert_eq!(calc_chunk_length(32), 1);
    assert_eq!(calc_chunk_length(33), 2);
    assert_eq!(calc_voxel_remainder(33), 1);
    assert_eq!(calc_voxel_remainder(64), 0);
    assert_eq!(calc_grid_indices(70), (3, 6));
    assert_eq!(calc_chunk_length(usize::MAX - 31), usize::MAX / 32);
}

#[test]
fn occupancy_counts_follow_sets_and_clears() {
    let mut o = OccupancyArray::default();
    assert!(o.is_empty());
    o.set_from_index(5);
    o.set_from_index(5); // already set: not counted twice
    o.set_from_index(32767);
    assert_eq!(o.count(), 2);
    assert!(o.check_index(5));
    assert!(o.read_bit_from_index(32767));
    assert!(o.check_bit_from_coord(1023, 31));
    assert_eq!(o.read_word(0), 1 << 5);
    o.clear_from_index(5);
    o.clear_from_index(5); // already clear: not uncounted twice
    assert_eq!(o.count(), 1);
    o.clear_from_word_bit(1023, 31);
    assert_eq!(o.count(), 0);
    assert_eq!(count_set_bits(&o), 0);
}

#[test]
fn occupancy_full_and_first_bits() {
    let full = OccupancyArray::full();
    assert!(full.is_full());
    assert_eq!(count_set_bits(&full), 32768);
    assert_eq!(full.find_first_set_bit(), Some(0));

    let mut o = OccupancyArray::default();
    assert_eq!(o.find_first_set_bit(), None);
    assert_eq!(o.find_first_non_zero_word(), 0);
    o.set_from_index(70);
    assert_eq!(o.find_first_set_bit(), Some(70));
    assert_eq!(o.find_first_non_zero_word(), 2);

    // A count that disagrees with the bits is taken as it is.
    let odd = OccupancyArray::new([0u32; 1024], 3);
    assert_eq!(odd.count(), 3);
    assert_eq!(odd.find_first_set_bit(), None);
}

#[test]
fn filled_to_height_sets_low_bits() {
    let o = OccupancyArray::filled_to_height(1);
    assert!(o.bits.iter().all(|&w| w == 1));
    assert_eq!(o.count(), 1024);
    let o = OccupancyArray::filled_to_height(40);
    assert!(o.bits.iter().all(|&w| w == u32::MAX));
    assert_eq!(o.count(), 32 * 1024);
    assert_eq!(OccupancyArray::filled_to_height(2).count(), 2048);
    let o = OccupancyArray::filled_to_height(0);
    assert_eq!(o.count(), 0);
    let o = OccupancyArray::filled_to_height(5);
    assert!(o.bits.iter().all(|&w| w == 0b11111));
    assert_eq!(o.count(), 5 * 1024);
}

#[test]
fn linear_array_set_keeps_occupancy() {
    let mut a = LinearArray::new();
    assert!(a.is_empty());
    assert_eq!(a.is_uniform(), Some(0));
    a.set(100, 7);
    a.set(100, 9); // solid to solid: count unchanged
    a.set(200, 1);
    assert_eq!(a.count(), 2);
    assert!(a.occupancy.check_index(100));
    assert_eq!(a.data[100], 9);
    a.set(100, 0);
    assert_eq!(a.count(), 1);
    assert!(!a.occupancy.check_index(100));
    assert_eq!(a.is_uniform(), None);
    assert_eq!(count_set_bits(&a.occupancy), a.count());
}

#[test]
fn linear_array_from_occupancy() {
    let mut o = OccupancyArray::default();
    o.set_from_index(0);
    o.set_from_index(33);
    o.set_from_index(2000);
    let a = LinearArray::from_occupancy(&o, 4);
    assert_eq!(a.data[0], 4);
    assert_eq!(a.data[33], 4);
    assert_eq!(a.data[2000], 4);
    assert_eq!(a.data.iter().filter(|&&m| m != 0).count(), 3);
    assert_eq!(a.occupancy, o);

    // Material from the coordinates: voxel 2000 is x = 30, y = 16, z = 1.
    let b = LinearArray::from_occupancy_with(&o, |x, y, z| (x + 2 * y + 3 * z + 1) as u8);
    assert_eq!(b.data[0], 1);
    assert_eq!(b.data[33], (1 + 2 + 1) as u8);
    assert_eq!(b.data[2000], (30 + 32 + 3 + 1) as u8);
    assert_eq!(b.data[1], 0);
}

#[test]
fn linear_array_uniform_and_filled() {
    let a = LinearArray::uniform(3);
    assert_eq!(a.is_uniform(), Some(3));
    assert_eq!(a.count(), 32768);
    let b = LinearArray::filled(3);
    assert_eq!(a, b);
    let c = LinearArray::default();
    assert!(c.is_empty());
}

#[test]
fn linear_array_test_patterns() {
    let c = LinearArray::test_checkerboard(false);
    assert_eq!(c.count(), 16384);
    assert_eq!(c.data[0], 0);
    assert_eq!(c.data[1], 1);
    let cc = LinearArray::test_checkerboard(true);
    assert_eq!(cc.data[0], 1);
    assert_eq!(count_set_bits(&cc.occupancy), 16384);

    let y = LinearArray::test_y_banded();
    assert_eq!(y.data[1], 1);
    assert_eq!(y.data[32], 0);
    assert_eq!(y.count(), 16384);
    let x = LinearArray::test_x_banded();
    assert_eq!(x.data[32], 1);
    assert_eq!(x.data[1], 0);
    let z = LinearArray::test_z_banded();
    assert_eq!(z.data[1024], 1);
    assert_eq!(z.data[32], 0);

    let h = LinearArray::test_hollow_cube(1);
    assert_eq!(h.count(), 32768 - 30 * 30 * 30);
    assert_eq!(h.data[0], 1);
    assert_eq!(h.data[1 | (1 << 5) | (1 << 10)], 0);

    let p = LinearArray::test_pillars(8, 2);
    assert_eq!(p.count(), 4 * 4 * 32);
    assert_eq!(p.data[5], 2);
    assert_eq!(p.data[5 | (1 << 5)], 0);
    let p0 = LinearArray::test_pillars(16, 0);
    assert_eq!(p0.count(), 2 * 2 * 32);
    assert!(p0.occupancy.check_index(0));
    assert_eq!(p0.data[0], 0);
}
