use raw::voxels::buffers::{ChunkMeshRange, FrameCounter, GlobalBufferPool, InstanceMetaBuffer, VoxelInstancePool};
use raw::voxels::constants::VoxelInstance;
use raw::voxels::index::index::ChunkIndex;

fn free_list(p: &GlobalBufferPool) -> usize {
    p.range_allocator.clone().allocate(0).map(|r| r.offset as usize).unwrap_or(usize::MAX)
}

fn faces(counts: [usize; 6]) -> [Vec<VoxelInstance>; 6] {
    let mut out: [Vec<VoxelInstance>; 6] = Default::default();
    for (i, &n) in counts.iter().enumerate() {
        for k in 0..n {
            out[i].push(VoxelInstance((i * 100 + k) as u32));
        }
    }
    out
}

#[test]
fn chunk_index_packs_ten_bits_per_axis() {
    let c = ChunkIndex::from_chunk_coord(3, 5, 7);
    assert_eq!(c.0, 5 | (3 << 10) | (7 << 20));
    assert_eq!((c.x(), c.y(), c.z()), (3, 5, 7));
    let cut = ChunkIndex::from_chunk_coord(1024 + 1, 2048 + 2, 3);
    assert_eq!((cut.x(), cut.y(), cut.z()), (1, 2, 3));
    let t = ChunkIndex::from_transform(100, 40, 65);
    assert_eq!((t.x(), t.y(), t.z()), (3, 1, 2));
    let neg = ChunkIndex::from_transform(0, -1, 0);
    assert_eq!(neg.0, u32::MAX);
}

#[test]
fn frame_counter_counts_up() {
    let mut f = FrameCounter::new();
    f.advance_frame();
    f.advance_frame();
    assert_eq!(f.current_frame(), 2);
}

#[test]
fn upload_swaps_the_face_layout_in() {
    let mut pool = VoxelInstancePool::new(4096).0;
    let mut chunk = ChunkMeshRange::default();
    assert!(chunk.upload(&mut pool, 0).is_none(), "nothing staged");
    chunk.stage_face_data(&faces([2, 0, 3, 0, 0, 1]));
    let (range, data) = chunk.upload(&mut pool, 1).expect("room for six runs");
    assert_eq!((range.offset, range.size), (0, 256));
    assert_eq!(data.len(), 6);
    assert_eq!(data[2], VoxelInstance(200));
    assert_eq!(data[5], VoxelInstance(500));
    assert!(chunk.has_active_data());
    assert_eq!(chunk.base_instance(), Some(0));
    assert_eq!(chunk.element_count(), 64);
    let draws = chunk.draw_buffer();
    let cmds: Vec<(u32, u32, u32, u32)> =
        draws.iter().iter().map(|c| (c.vertex_count, c.instance_count, c.first_vertex, c.first_instance)).collect();
    assert_eq!(cmds, vec![(4, 2, 0, 0), (4, 3, 0, 2), (4, 1, 0, 5)]);
    let (base, metas) = chunk.face_metas(ChunkIndex(9)).unwrap();
    assert_eq!(base, 0);
    let ids: Vec<u32> = metas.iter().map(|m| m.face_id).collect();
    assert_eq!(ids, vec![0, 0, 2, 2, 2, 5]);
    assert!(metas.iter().all(|m| m.chunk_index == 9));
    assert_eq!(InstanceMetaBuffer::default(), InstanceMetaBuffer { chunk_index: 0, face_id: 0 });
}

#[test]
fn old_chunk_ranges_wait_three_frames() {
    let mut pool = GlobalBufferPool::new(4096);
    let mut chunk = ChunkMeshRange::default();
    chunk.stage_face_data(&faces([1, 0, 0, 0, 0, 0]));
    chunk.upload(&mut pool, 10).unwrap();
    chunk.stage_face_data(&faces([0, 1, 0, 0, 0, 0]));
    let (second, _) = chunk.upload(&mut pool, 20).unwrap();
    assert_eq!(second.offset, 256);
    assert_eq!(chunk.base_instance(), Some(64));
    chunk.cleanup_old_ranges(&mut pool, 22);
    assert_eq!(free_list(&pool), 512, "the first range waits until frame 23");
    chunk.cleanup_old_ranges(&mut pool, 23);
    assert_eq!(free_list(&pool), 0);
    chunk.stage_empty();
    assert!(chunk.upload(&mut pool, 30).is_none());
    assert!(!chunk.try_swap(31));
    assert!(ChunkMeshRange::default().face_metas(ChunkIndex(1)).is_none());
    assert!(ChunkMeshRange::default().draw_buffer().iter().is_empty());
}
