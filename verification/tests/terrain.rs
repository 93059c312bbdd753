use raw::terrain::buffer::{AllocatedBuffer, BufferRange, RangeAllocator, StagedData};
use raw::terrain::config::{samples_per_tile, vertices_per_row, vertices_per_tile, ChunkSettings};

#[test]
fn tile_sizes() {
    assert_eq!(samples_per_tile(32), 34 * 34);
    assert_eq!(samples_per_tile(0), 4);
    assert_eq!(vertices_per_row(32), 68);
    assert_eq!(vertices_per_tile(32), 68 * 32 + 31);
    assert_eq!(vertices_per_tile(1), 6);
    let s = ChunkSettings::default();
    assert_eq!((s.view_distance, s.chunk_size, s.map_height, s.map_width), (4, 32, 512, 512));
}

#[test]
fn terrain_ranges_align_to_four_bytes() {
    let mut alloc = RangeAllocator::new(100);
    assert_eq!(alloc.allocate(0).map(|r| (r.offset, r.size)), None);
    let a = alloc.allocate(5).unwrap();
    assert_eq!((a.offset, a.size), (0, 8));
    let b = alloc.allocate(8).unwrap();
    assert_eq!((b.offset, b.size), (8, 8));
    assert_eq!(alloc.free_ranges.len(), 1);
    assert_eq!((alloc.free_ranges[0].offset, alloc.free_ranges[0].size), (16, 84));
    alloc.deallocate(a);
    assert_eq!(alloc.free_ranges.len(), 2);
    assert_eq!((alloc.free_ranges[0].offset, alloc.free_ranges[0].size), (0, 8));
    alloc.deallocate(b);
    assert_eq!(alloc.free_ranges.len(), 1);
    assert_eq!((alloc.free_ranges[0].offset, alloc.free_ranges[0].size), (0, 100));
    assert!(alloc.allocate(101).is_none());
    let odd = BufferRange { offset: 200, size: 4 };
    alloc.deallocate(odd);
    assert_eq!(alloc.free_ranges.len(), 2);
}

fn pool(size: u32) -> AllocatedBuffer {
    AllocatedBuffer { range_allocator: RangeAllocator::new(size), buffer_size: size }
}

fn free_list(p: &AllocatedBuffer) -> Vec<(u32, u32)> {
    p.range_allocator.free_ranges.iter().map(|r| (r.offset, r.size)).collect()
}

#[test]
fn writes_past_the_buffer_end_are_skipped() {
    let p = pool(64);
    assert_eq!(p.write_buffer(&BufferRange { offset: 16, size: 16 }, 48), Some(16));
    assert_eq!(p.write_buffer(&BufferRange { offset: 16, size: 16 }, 49), None);
    assert_eq!(p.write_buffer(&BufferRange { offset: 0, size: 0 }, 0), Some(0));
}

#[test]
fn upload_hands_out_the_staged_data_once() {
    let mut p = pool(1024);
    let mut s: StagedData<u32> = StagedData::new();
    assert!(s.upload(&mut p, 1).is_none(), "nothing staged");
    s.stage_data(&[7, 8, 9]);
    let (range, data) = s.upload(&mut p, 2).expect("room for twelve bytes");
    assert_eq!((range.offset, range.size), (0, 12));
    assert_eq!(data, vec![7, 8, 9]);
    assert!(s.upload(&mut p, 3).is_none(), "already uploaded");
    assert_eq!(free_list(&p), vec![(12, 1012)]);
    assert!(s.current_range().is_none());
    assert!(s.try_swap(4));
    assert_eq!(s.current_range().map(|r| (r.offset, r.size)), Some((0, 12)));
    assert_eq!(s.draw_range(), Some((0, 3)));
    assert!(!s.try_swap(5), "nothing waits to be swapped in");
}

#[test]
fn upload_without_room_changes_nothing() {
    let mut p = pool(8);
    let mut s: StagedData<u64> = StagedData::default();
    s.stage_data(&[1, 2]);
    assert!(s.upload(&mut p, 0).is_none());
    assert_eq!(free_list(&p), vec![(0, 8)]);
    s.stage_data(&[3]);
    assert!(s.upload(&mut p, 0).is_some());
    s.stage_empty();
    assert!(s.upload(&mut p, 1).is_none(), "nothing staged");
}

#[test]
fn swapped_out_ranges_wait_three_frames() {
    let mut p = pool(1024);
    let mut s: StagedData<u8> = StagedData::new();
    s.stage_data(&[1, 2, 3, 4]);
    let (first, _) = s.flush(&mut p, 10).unwrap();
    assert_eq!((first.offset, first.size), (0, 4));
    s.stage_data(&[5, 6, 7, 8, 9]);
    let (second, data) = s.flush(&mut p, 20).unwrap();
    assert_eq!(data, vec![5, 6, 7, 8, 9]);
    assert_eq!((second.offset, second.size), (4, 8));
    assert_eq!(s.current_range().map(|r| r.offset), Some(4));
    s.cleanup_old_ranges(&mut p, 22);
    assert_eq!(free_list(&p), vec![(12, 1012)], "the first range waits until frame 23");
    s.cleanup_old_ranges(&mut p, 23);
    assert_eq!(free_list(&p), vec![(0, 4), (12, 1012)]);
    s.cleanup_old_ranges(&mut p, 100);
    assert_eq!(free_list(&p), vec![(0, 4), (12, 1012)]);
}
