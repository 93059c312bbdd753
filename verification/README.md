# raw

A verified Rust library, checked with Verus, for a voxel and terrain engine and the
serialization and web-service code around it. Every function in `src/` carries a
`requires`/`ensures` contract that Verus proves; calls into `ahash` go through a small
set of trusted wrappers in `src/instances.rs` and `src/offsets.rs`, each with a doc
comment saying what is assumed of it.

## Layout

- `src/scalars.rs`, `src/push.rs`, `src/follow.rs`, `src/offsets.rs`,
  `src/index.rs`, `src/primitives.rs`, `src/work/`: little-endian scalars, a
  back-to-front buffer writer and the readers that follow offsets into a buffer.
- `src/buffers/`: the growable backward buffer (`BufferVec`), records of scalars,
  strings and arrays written into it, and their read-back.
- `src/fluffr/`: file-kind detection, a reverse index of bit masks, and table metadata.
- `src/instances.rs`: `InstanceManager`, values by `u64` id in reusable slots, with an
  entry API.
- `src/voxels/`: chunk occupancy bitmaps and material arrays, the packed
  `VoxelInstance` run format, greedy meshing (`voxels/bits/mesh.rs`), GPU range
  allocation and per-chunk buffer state, and chunk indices.
- `src/terrain/`: terrain tile sizes, a range allocator and the staged-upload state.
- `src/agentflow/`: configuration, errors, login and token parsing, request logs.
- `app/main.rs`: the web service (axum, tokio, cookies, serde), which does the I/O
  and calls the library.
- `tests/`: unit and scenario tests run against the compiled library.

## Main results

- `build_mesh` paints exactly the visible faces of a chunk, each in its voxel's
  material (`lemma_mesh_shows_visible_faces`).
- The range allocators hand out first-fit ranges and account for every byte.
- `InstanceManager` behaves as a map from id to value and reuses freed slots first.
- Records written into a `BufferVec` can be found again through their handles after
  later writes and growth (`lemma_handle_survives`).
