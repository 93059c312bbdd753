//! Greedy meshing of a chunk: the visible faces of its voxels in each direction, joined
//! into runs.

use vstd::prelude::*;

use crate::voxels::bits::data::{
    lemma_clear_lowest, lemma_join_index, lemma_ones_below_bound, lemma_ones_in_bound, lemma_ones_in_update, lemma_ones_set,
    marked, ones, ones_below, ones_in, LinearArray, OccupancyArray,
};
use crate::voxels::constants::{
    axis_of, face_number, face_numbered, field, lemma_field_write, lemma_mask_write, next_in_slice, primary_start,
    primary_start_shift, same_except, same_except2, FaceAxis, FaceDirection, TempChunkMeshData, VoxelInstance,
};
use crate::voxels::utils::{bit_at, lemma_bit_clear_get, lemma_index_bits};

verus! {

/// The number of set bits of `w`.
pub fn word_ones(w: u32) -> (r: u32)
    ensures
        r == ones(w),
{
    let mut c: u32 = 0;
    let mut b: u32 = 0;
    while b < 32
        invariant
            b <= 32,
            c == ones_below(w, b as nat),
            c <= b,
        decreases 32 - b,
    {
        if (w >> b) & 1 == 1 {
            c = c + 1;
        }
        b = b + 1;
    }
    c
}

/// The face bits of word `i` of the occupancy words `occ` in direction `d`: bit `y` is
/// set where the voxel is solid and the voxel next to it in direction `d` is empty or
/// outside the chunk. Word `i` holds the column at `x = i % 32`, `z = i / 32`.
pub open spec fn face_word(occ: Seq<u32>, i: int, d: FaceDirection) -> u32 {
    let w = occ[i];
    match d {
        FaceDirection::YP => w & !(w >> 1u32),
        FaceDirection::YN => w & !(w << 1u32),
        FaceDirection::XN => w & !(if i % 32 != 0 {
            occ[i - 1]
        } else {
            0u32
        }),
        FaceDirection::XP => w & !(if i % 32 != 31 {
            occ[i + 1]
        } else {
            0u32
        }),
        FaceDirection::ZN => w & !(if i / 32 != 0 {
            occ[i - 32]
        } else {
            0u32
        }),
        FaceDirection::ZP => w & !(if i / 32 != 31 {
            occ[i + 32]
        } else {
            0u32
        }),
    }
}

/// The voxel next to voxel `idx` in direction `d`, when it lies inside the chunk.
pub open spec fn neighbor(idx: int, d: FaceDirection) -> Option<int> {
    let y = idx % 32;
    let x = (idx / 32) % 32;
    let z = idx / 1024;
    match d {
        FaceDirection::YP => if y < 31 {
            Some(idx + 1)
        } else {
            None
        },
        FaceDirection::YN => if y > 0 {
            Some(idx - 1)
        } else {
            None
        },
        FaceDirection::XP => if x < 31 {
            Some(idx + 32)
        } else {
            None
        },
        FaceDirection::XN => if x > 0 {
            Some(idx - 32)
        } else {
            None
        },
        FaceDirection::ZP => if z < 31 {
            Some(idx + 1024)
        } else {
            None
        },
        FaceDirection::ZN => if z > 0 {
            Some(idx - 1024)
        } else {
            None
        },
    }
}

/// The face bits of every word of `occ` in direction `d`.
pub open spec fn faces_of(occ: Seq<u32>, d: FaceDirection) -> Seq<u32> {
    Seq::new(1024, |i: int| face_word(occ, i, d))
}

/// Bit `b` of a word with another word's bits cleared, or with its own bits one up or
/// one down cleared.
proof fn lemma_and_not_bits(w: u32, n: u32, b: u32)
    by (bit_vector)
    requires
        b < 32,
    ensures
        bit_at(w & !n, b) == (bit_at(w, b) && !bit_at(n, b)),
        bit_at(w & !(w >> 1u32), b) == (bit_at(w, b) && !(b < 31 && bit_at(w, (b + 1) as u32))),
        bit_at(w & !(w << 1u32), b) == (bit_at(w, b) && !(b > 0 && bit_at(w, (b - 1) as u32))),
        !bit_at(0u32, b),
{
}

/// A voxel shows a face in direction `d` exactly when it is solid and its neighbor that
/// way is empty or outside the chunk.
pub proof fn lemma_face_bits(occ: Seq<u32>, d: FaceDirection, idx: int)
    requires
        occ.len() == 1024,
        0 <= idx < 32768,
    ensures
        marked(faces_of(occ, d), idx) == (marked(occ, idx) && match neighbor(idx, d) {
            Some(n) => !marked(occ, n),
            None => true,
        }),
{
    let i = idx / 32;
    let b = (idx % 32) as u32;
    assert(faces_of(occ, d)[i] == face_word(occ, i, d));
    lemma_and_not_bits(occ[i], 0, b);
    match d {
        FaceDirection::YP => {
            lemma_and_not_bits(occ[i], 0, b);
            if b < 31 {
                assert((idx + 1) / 32 == i && (idx + 1) % 32 == b + 1);
            }
        },
        FaceDirection::YN => {
            if b > 0 {
                assert((idx - 1) / 32 == i && (idx - 1) % 32 == b - 1);
            }
        },
        FaceDirection::XN => {
            if i % 32 != 0 {
                lemma_and_not_bits(occ[i], occ[i - 1], b);
                assert((idx - 32) / 32 == i - 1 && (idx - 32) % 32 == b);
            }
        },
        FaceDirection::XP => {
            if i % 32 != 31 {
                lemma_and_not_bits(occ[i], occ[i + 1], b);
                assert((idx + 32) / 32 == i + 1 && (idx + 32) % 32 == b);
            }
        },
        FaceDirection::ZN => {
            if i / 32 != 0 {
                lemma_and_not_bits(occ[i], occ[i - 32], b);
                assert((idx - 1024) / 32 == i - 32 && (idx - 1024) % 32 == b);
            }
        },
        FaceDirection::ZP => {
            if i / 32 != 31 {
                lemma_and_not_bits(occ[i], occ[i + 32], b);
                assert((idx + 1024) / 32 == i + 32 && (idx + 1024) % 32 == b);
            }
        },
    }
}

/// The faces of the occupancy words `occ` in direction `d`, with their count.
fn face_of(occ: &[u32; 1024], d: FaceDirection) -> (r: OccupancyArray)
    ensures
        r.wf(),
        r.bits@ == faces_of(occ@, d),
{
    let mut bits = [0u32; 1024];
    let mut count: u32 = 0;
    let mut i: usize = 0;
    while i < 1024
        invariant
            i <= 1024,
            bits@.len() == 1024,
            count == ones_in(bits@, i as nat),
            forall|j: int| 0 <= j < i ==> #[trigger] bits@[j] == face_word(occ@, j, d),
        decreases 1024 - i,
    {
        let w = occ[i];
        proof {
            lemma_index_bits(i);
        }
        let x = i & 31;
        let z = i >> 5;
        let r = match d {
            FaceDirection::YP => w & !(w >> 1u32),
            FaceDirection::YN => w & !(w << 1u32),
            FaceDirection::XN => w & !(if x != 0 {
                occ[i - 1]
            } else {
                0
            }),
            FaceDirection::XP => w & !(if x != 31 {
                occ[i + 1]
            } else {
                0
            }),
            FaceDirection::ZN => w & !(if z != 0 {
                occ[i - 32]
            } else {
                0
            }),
            FaceDirection::ZP => w & !(if z != 31 {
                occ[i + 32]
            } else {
                0
            }),
        };
        let ones_r = word_ones(r);
        proof {
            lemma_ones_in_update(bits@, i as nat, i as int, r);
            lemma_ones_in_update(bits@, (i + 1) as nat, i as int, r);
            lemma_ones_in_bound(bits@.update(i as int, r), i as nat);
            lemma_ones_below_bound(r, 32);
        }
        bits[i] = r;
        count = count + ones_r;
        i = i + 1;
    }
    proof {
        assert(bits@ =~= faces_of(occ@, d));
    }
    OccupancyArray { count, bits }
}

/// The faces of the chunk with occupancy words `occupancy_array` in each of the six
/// directions, in the order of `FaceDirection`; `None` for the directions in `exclude`.
pub fn get_all_faces_simple(occupancy_array: &[u32; 1024], exclude: &[FaceDirection]) -> (r: [Option<
    OccupancyArray,
>; 6])
    ensures
        forall|k: int|
            0 <= k < 6 ==> ((#[trigger] r@[k]) is None <==> exclude@.contains(face_numbered(k))),
        forall|k: int|
            0 <= k < 6 && (#[trigger] r@[k]) is Some ==> r@[k]->Some_0.wf() && r@[k]->Some_0.bits@ == faces_of(
                occupancy_array@,
                face_numbered(k),
            ),
{
    let mut excluded = [false; 6];
    let mut j: usize = 0;
    while j < exclude.len()
        invariant
            j <= exclude@.len(),
            forall|k: int|
                0 <= k < 6 ==> (#[trigger] excluded@[k] <==> exclude@.take(j as int).contains(face_numbered(k))),
        decreases exclude@.len() - j,
    {
        let n = exclude[j].index();
        excluded[n] = true;
        proof {
            assert(exclude@.take(j + 1) =~= exclude@.take(j as int).push(exclude@[j as int]));
            assert forall|k: int| 0 <= k < 6 implies (#[trigger] excluded@[k] <==> exclude@.take(j + 1).contains(
                face_numbered(k),
            )) by {
                if excluded@[k] && k != n {
                    assert(exclude@.take(j as int).contains(face_numbered(k)));
                    let w = choose|w: int| 0 <= w < j && #[trigger] exclude@.take(j as int)[w] == face_numbered(k);
                    assert(exclude@.take(j + 1)[w] == face_numbered(k));
                }
                if k == n {
                    assert(face_numbered(face_number(exclude@[j as int]) as int) == exclude@[j as int]);
                    assert(exclude@.take(j + 1)[j as int] == face_numbered(k));
                }
                if exclude@.take(j + 1).contains(face_numbered(k)) && k != n {
                    let w = choose|w: int| 0 <= w < j + 1 && #[trigger] exclude@.take(j + 1)[w] == face_numbered(k);
                    if w == j {
                        assert(face_numbered(face_number(exclude@[j as int]) as int) == exclude@[j as int]);
                        assert(face_numbered(k) == face_numbered(n as int));
                        assert(k == n);
                    } else {
                        assert(exclude@.take(j as int)[w] == face_numbered(k));
                    }
                }
            }
        }
        j = j + 1;
    }
    proof {
        assert(exclude@.take(exclude@.len() as int) =~= exclude@);
    }
    let faces: [Option<OccupancyArray>; 6] = [
        if excluded[0] {
            None
        } else {
            Some(face_of(occupancy_array, FaceDirection::YP))
        },
        if excluded[1] {
            None
        } else {
            Some(face_of(occupancy_array, FaceDirection::YN))
        },
        if excluded[2] {
            None
        } else {
            Some(face_of(occupancy_array, FaceDirection::XP))
        },
        if excluded[3] {
            None
        } else {
            Some(face_of(occupancy_array, FaceDirection::XN))
        },
        if excluded[4] {
            None
        } else {
            Some(face_of(occupancy_array, FaceDirection::ZP))
        },
        if excluded[5] {
            None
        } else {
            Some(face_of(occupancy_array, FaceDirection::ZN))
        },
    ];
    faces
}

/// Run `v` lies in column `col` of the face bits `word`: it starts at a set bit, covers
/// set bits of one material, and stops at the chunk's edge, at an unset bit or where
/// the material changes.
pub open spec fn column_run(v: VoxelInstance, word: u32, col: int, data: Seq<u8>) -> bool {
    let y = v.spec_y() as int;
    let p = v.spec_primary() as int;
    &&& v.spec_index() == col * 32 + y
    &&& v.spec_secondary() == 0
    &&& v.spec_material() == data[col * 32 + y] % 128
    &&& y + p <= 31
    &&& forall|t: int|
        0 <= t <= p ==> #[trigger] bit_at(word, (y + t) as u32) && data[col * 32 + y + t] == data[col * 32 + y]
    &&& (y + p == 31 || !bit_at(word, (y + p + 1) as u32) || data[col * 32 + y + p + 1] != data[col * 32 + y])
}

/// `rs` are the runs of the set bits of `word` in column `col`: each a `column_run`, in
/// order and apart, and together covering every set bit.
pub open spec fn column_runs(rs: Seq<VoxelInstance>, word: u32, col: int, data: Seq<u8>) -> bool {
    &&& forall|k: int| 0 <= k < rs.len() ==> column_run(#[trigger] rs[k], word, col, data)
    &&& forall|k1: int, k2: int|
        0 <= k1 < k2 < rs.len() ==> #[trigger] rs[k1].spec_y() + rs[k1].spec_primary() < #[trigger] rs[k2].spec_y()
    &&& forall|y: u32|
        y < 32 && #[trigger] bit_at(word, y) ==> exists|k: int|
            0 <= k < rs.len() && #[trigger] rs[k].spec_y() <= y <= rs[k].spec_y() + rs[k].spec_primary()
}

/// How far a run that starts at bit `start` of column `col` reaches through the bits of
/// `word` above `start`, and what is left of `word` above the run.
fn run_end(word: u32, col: usize, data: &[u8; 32768], start: u32, mat: u8) -> (r: (u32, u32))
    requires
        col < 1024,
        start < 32,
        forall|j: u32| j < 32 && #[trigger] bit_at(word, j) ==> j > start,
    ensures
        start + r.1 <= 31,
        r.0 <= word,
        forall|s: int|
            start < s <= start + r.1 ==> #[trigger] bit_at(word, s as u32) && data@[col * 32 + s] == mat,
        forall|j: u32| j < 32 ==> #[trigger] bit_at(r.0, j) == (j > start + r.1 && bit_at(word, j)),
        start + r.1 == 31 || !bit_at(word, (start + r.1 + 1) as u32) || data@[col * 32 + start + r.1 + 1] != mat,
{
    broadcast use vstd::std_specs::bits::axiom_u32_trailing_zeros;

    let mut w = word;
    let mut last = start;
    proof {
        assert forall|j: u32| j < 32 implies !#[trigger] bit_at(0u32, j) by {
            lemma_and_not_bits(0, 0, j);
        }
    }
    while w != 0
        invariant_except_break
            col < 1024,
            start <= last < 32,
            w <= word,
            forall|j: u32| j < 32 ==> !#[trigger] bit_at(0u32, j),
            forall|j: u32|
                #![trigger bit_at(w, j)]
                #![trigger bit_at(word, j)]
                j < 32 ==> bit_at(w, j) == (j > last && bit_at(word, j)),
            forall|s: int| start < s <= last ==> #[trigger] bit_at(word, s as u32) && data@[col * 32 + s] == mat,
        ensures
            start <= last < 32,
            w <= word,
            forall|j: u32| j < 32 ==> #[trigger] bit_at(w, j) == (j > last && bit_at(word, j)),
            forall|s: int| start < s <= last ==> #[trigger] bit_at(word, s as u32) && data@[col * 32 + s] == mat,
            last == 31 || !bit_at(word, (last + 1) as u32) || data@[col * 32 + last + 1] != mat,
        decreases w,
    {
        let next = w.trailing_zeros();
        proof {
            assert(bit_at(w, next));
            if last < 31 && next != last + 1 {
                assert(!bit_at(w, (last + 1) as u32)) by {
                    if bit_at(w, (last + 1) as u32) {
                        assert(next <= last + 1) by {
                            if next > last + 1 {
                                assert((w >> ((last + 1) as u32)) & 1u32 == 0u32);
                            }
                        }
                    }
                }
            }
        }
        if next != last + 1 {
            break;
        }
        proof {
            lemma_join_index(col, next as usize);
        }
        let next_idx = (col << 5) | (next as usize);
        if data[next_idx] != mat {
            break;
        }
        let ghost prev = w;
        proof {
            assert(w << ((32 - next) as u32) == 0);
        }
        w = w & (w - 1);
        proof {
            assert forall|j: u32| j < 32 implies #[trigger] bit_at(w, j) == (j > next && bit_at(word, j)) by {
                lemma_clear_lowest(prev, next, j);
            }
            lemma_clear_lowest(prev, next, 0);
            assert(bit_at(word, next));
            assert(data@[col * 32 + next] == mat);
        }
        let ghost old_last = last;
        last = next;
        proof {
            assert forall|s: int| start < s <= last implies #[trigger] bit_at(word, s as u32) && data@[col * 32 + s]
                == mat by {
                if s == last {
                    assert(s as u32 == next);
                } else {
                    assert(s <= old_last);
                }
            }
        }
    }
    (w, last - start)
}

/// The run that `word_runs` builds from bit `t` of `orig` lies in column `col`.
#[verifier::spinoff_prover]
proof fn lemma_new_run(
    run: VoxelInstance,
    orig: u32,
    rest: u32,
    col: int,
    data: Seq<u8>,
    t: u32,
    extent: u32,
    mat: u8,
)
    requires
        0 <= col < 1024,
        data.len() == 32768,
        t < 32,
        t + extent <= 31,
        run.spec_y() == t,
        run.spec_primary() == extent,
        run.spec_index() == col * 32 + t,
        run.spec_secondary() == 0,
        run.spec_material() == mat % 128,
        mat == data[col * 32 + t],
        bit_at(orig, t),
        forall|j: u32| j < 32 ==> #[trigger] bit_at(rest, j) == (j > t && bit_at(orig, j)),
        forall|s: int| t < s <= t + extent ==> #[trigger] bit_at(rest, s as u32) && data[col * 32 + s] == mat,
        t + extent == 31 || !bit_at(rest, (t + extent + 1) as u32) || data[col * 32 + t + extent + 1] != mat,
    ensures
        column_run(run, orig, col, data),
{
    assert forall|s: int| 0 <= s <= extent implies #[trigger] bit_at(orig, (t + s) as u32) && data[col * 32 + t + s]
        == data[col * 32 + t] by {
        if s > 0 {
            assert(bit_at(rest, (t + s) as u32));
        }
    }
    if t + extent < 31 && bit_at(orig, (t + extent + 1) as u32) {
        assert(bit_at(rest, (t + extent + 1) as u32));
    }
    let y = run.spec_y() as int;
    let p = run.spec_primary() as int;
    assert(y == t && p == extent);
    assert(forall|s: int|
        0 <= s <= p ==> #[trigger] bit_at(orig, (y + s) as u32) && data[col * 32 + y + s] == data[col * 32 + y]);
    assert(y + p == 31 || !bit_at(orig, (y + p + 1) as u32) || data[col * 32 + y + p + 1] != data[col * 32 + y]);
    assert(run.spec_material() == data[col * 32 + y] % 128);
    assert(column_run(run, orig, col, data));
}

/// The runs of the set bits of `word`, column `col` of a chunk, in order: each run
/// covers set bits of one material and is as long as it can be.
#[verifier::spinoff_prover]
#[verifier::rlimit(30)]
fn word_runs(word: u32, col: usize, data: &[u8; 32768]) -> (r: Vec<VoxelInstance>)
    requires
        col < 1024,
    ensures
        column_runs(r@, word, col as int, data@),
{
    broadcast use vstd::std_specs::bits::axiom_u32_trailing_zeros;

    let orig = word;
    let mut word = word;
    let mut out: Vec<VoxelInstance> = Vec::new();
    let ghost mut done: int = 0;
    while word != 0
        invariant
            col < 1024,
            0 <= done <= 32,
            forall|j: u32| j < 32 ==> #[trigger] bit_at(word, j) == (j >= done && bit_at(orig, j)),
            forall|k: int| 0 <= k < out@.len() ==> column_run(#[trigger] out@[k], orig, col as int, data@),
            forall|k1: int, k2: int|
                0 <= k1 < k2 < out@.len() ==> #[trigger] out@[k1].spec_y() + out@[k1].spec_primary()
                    < #[trigger] out@[k2].spec_y(),
            forall|k: int| 0 <= k < out@.len() ==> #[trigger] out@[k].spec_y() + out@[k].spec_primary() < done,
            forall|y: u32|
                y < done && #[trigger] bit_at(orig, y) ==> exists|k: int|
                    0 <= k < out@.len() && #[trigger] out@[k].spec_y() <= y <= out@[k].spec_y() + out@[k].spec_primary(),
        decreases word,
    {
        let t = word.trailing_zeros();
        proof {
            assert(t == vstd::std_specs::bits::u32_trailing_zeros(word));
            assert(bit_at(word, t));
            assert(t >= done);
            assert forall|j: u32| j < 32 && done <= j < t implies !#[trigger] bit_at(orig, j) by {
                assert((word >> j) & 1u32 == 0u32);
                assert(!bit_at(word, j));
            }
            lemma_join_index(col, t as usize);
            assert(word << ((32 - t) as u32) == 0);
        }
        let idx = (col << 5) | (t as usize);
        let mat = data[idx];
        let ghost prev = word;
        word = word & (word - 1);
        proof {
            assert forall|j: u32| j < 32 implies #[trigger] bit_at(word, j) == (j > t && bit_at(orig, j)) by {
                lemma_clear_lowest(prev, t, j);
            }
            lemma_clear_lowest(prev, t, 0);
        }
        let (rest, extent) = run_end(word, col, data, t, mat);
        let run = VoxelInstance::create_index(idx as u32, extent as u8, 0, mat);
        proof {
            lemma_field_write(0, idx as u32, 0);
            lemma_mask_write(0, idx as u32, 0x7FFF);
            lemma_new_run(run, orig, word, col as int, data@, t, extent, mat);
        }
        let ghost before = out@;
        out.push(run);
        word = rest;
        proof {
            let newdone = t + extent + 1;
            assert forall|y: u32| y < newdone && #[trigger] bit_at(orig, y) implies exists|k: int|
                0 <= k < out@.len() && #[trigger] out@[k].spec_y() <= y <= out@[k].spec_y() + out@[k].spec_primary() by {
                if y < done {
                    let k = choose|k: int|
                        0 <= k < before.len() && #[trigger] before[k].spec_y() <= y <= before[k].spec_y()
                            + before[k].spec_primary();
                    assert(out@[k] == before[k]);
                } else {
                    assert(y >= t);
                    assert(out@[out@.len() - 1] == run);
                }
            }
            done = newdone;
        }
    }
    proof {
        assert forall|y: u32| y < 32 && #[trigger] bit_at(orig, y) implies exists|k: int|
            0 <= k < out@.len() && #[trigger] out@[k].spec_y() <= y <= out@[k].spec_y() + out@[k].spec_primary() by {
            if y >= done {
                assert(bit_at(word, y));
                assert(bit_at(0u32, y) == false) by {
                    lemma_and_not_bits(0, 0, y);
                }
            }
        }
    }
    out
}

/// Thirty-two empty lists.
fn empty_lists() -> (r: [Vec<VoxelInstance>; 32])
    ensures
        forall|i: int| 0 <= i < 32 ==> (#[trigger] r@[i])@ == Seq::<VoxelInstance>::empty(),
{
    [
        Vec::new(), Vec::new(), Vec::new(), Vec::new(), Vec::new(), Vec::new(), Vec::new(), Vec::new(),
        Vec::new(), Vec::new(), Vec::new(), Vec::new(), Vec::new(), Vec::new(), Vec::new(), Vec::new(),
        Vec::new(), Vec::new(), Vec::new(), Vec::new(), Vec::new(), Vec::new(), Vec::new(), Vec::new(),
        Vec::new(), Vec::new(), Vec::new(), Vec::new(), Vec::new(), Vec::new(), Vec::new(), Vec::new(),
    ]
}

/// The column (word index) of the voxel where run `v` starts.
pub open spec fn column_of(v: VoxelInstance) -> int {
    v.spec_index() as int / 32
}

/// `list` holds, column by column in increasing order and within a column in order, the
/// `column_run`s of the columns that `group` picks, covering every set bit of them.
pub open spec fn grouped_runs(list: Seq<VoxelInstance>, bits: Seq<u32>, data: Seq<u8>, group: spec_fn(int) -> bool) -> bool {
    &&& forall|k: int|
        0 <= k < list.len() ==> group(column_of(#[trigger] list[k])) && column_run(
            list[k],
            bits[column_of(list[k])],
            column_of(list[k]),
            data,
        )
    &&& forall|k1: int, k2: int|
        0 <= k1 < k2 < list.len() ==> column_of(#[trigger] list[k1]) < column_of(#[trigger] list[k2]) || (column_of(
            list[k1],
        ) == column_of(list[k2]) && list[k1].spec_y() + list[k1].spec_primary() < list[k2].spec_y())
    &&& forall|c: int, y: u32|
        0 <= c < 1024 && group(c) && y < 32 && #[trigger] bit_at(bits[c], y) ==> exists|k: int|
            0 <= k < list.len() && column_of(#[trigger] list[k]) == c && list[k].spec_y() <= y <= list[k].spec_y()
                + list[k].spec_primary()
}

/// Appending the runs of column `col`, past every column already in the list, adds that
/// column to the group.
proof fn lemma_append_column(
    list: Seq<VoxelInstance>,
    rs: Seq<VoxelInstance>,
    bits: Seq<u32>,
    data: Seq<u8>,
    g1: spec_fn(int) -> bool,
    g2: spec_fn(int) -> bool,
    col: int,
)
    requires
        0 <= col < 1024,
        bits.len() == 1024,
        grouped_runs(list, bits, data, g1),
        column_runs(rs, bits[col], col, data),
        forall|k: int| 0 <= k < list.len() ==> column_of(#[trigger] list[k]) < col,
        forall|c: int| #[trigger] g2(c) == (g1(c) || c == col),
    ensures
        grouped_runs(list + rs, bits, data, g2),
{
    let l2 = list + rs;
    assert forall|k: int| 0 <= k < rs.len() implies column_of(#[trigger] rs[k]) == col by {
        assert(column_run(rs[k], bits[col], col, data));
    }
    assert forall|k: int| 0 <= k < l2.len() implies g2(column_of(#[trigger] l2[k])) && column_run(
        l2[k],
        bits[column_of(l2[k])],
        column_of(l2[k]),
        data,
    ) by {
        if k >= list.len() {
            assert(l2[k] == rs[k - list.len()]);
            assert(column_run(rs[k - list.len()], bits[col], col, data));
        } else {
            assert(l2[k] == list[k]);
        }
    }
    assert forall|k1: int, k2: int| 0 <= k1 < k2 < l2.len() implies column_of(#[trigger] l2[k1]) < column_of(
        #[trigger] l2[k2],
    ) || (column_of(l2[k1]) == column_of(l2[k2]) && l2[k1].spec_y() + l2[k1].spec_primary() < l2[k2].spec_y()) by {
        if k1 >= list.len() {
            assert(l2[k1] == rs[k1 - list.len()] && l2[k2] == rs[k2 - list.len()]);
            assert(rs[k1 - list.len()].spec_y() + rs[k1 - list.len()].spec_primary() < rs[k2 - list.len()].spec_y());
        } else if k2 >= list.len() {
            assert(l2[k1] == list[k1] && l2[k2] == rs[k2 - list.len()]);
            assert(column_of(list[k1]) < col);
        } else {
            assert(l2[k1] == list[k1] && l2[k2] == list[k2]);
        }
    }
    assert forall|c: int, y: u32|
        0 <= c < 1024 && g2(c) && y < 32 && #[trigger] bit_at(bits[c], y) implies exists|k: int|
        0 <= k < l2.len() && column_of(#[trigger] l2[k]) == c && l2[k].spec_y() <= y <= l2[k].spec_y()
            + l2[k].spec_primary() by {
        if c == col {
            let j = choose|j: int| 0 <= j < rs.len() && #[trigger] rs[j].spec_y() <= y <= rs[j].spec_y() + rs[j].spec_primary();
            assert(l2[list.len() + j] == rs[j]);
        } else {
            assert(g1(c));
            let j = choose|j: int|
                0 <= j < list.len() && column_of(#[trigger] list[j]) == c && list[j].spec_y() <= y <= list[j].spec_y()
                    + list[j].spec_primary();
            assert(l2[j] == list[j]);
        }
    }
}

/// The columns at `x` whose `z` is below `zmax`.
pub open spec fn x_group(x: int, zmax: int) -> spec_fn(int) -> bool {
    |c: int| 0 <= c < 1024 && c % 32 == x && c / 32 < zmax
}

/// The columns at `z` whose `x` is below `xmax`.
pub open spec fn z_group(z: int, xmax: int) -> spec_fn(int) -> bool {
    |c: int| 0 <= c < 1024 && c / 32 == z && c % 32 < xmax
}


/// The runs along `y` of the face bits `bits`, for faces looking along X: list `x` holds
/// the runs of the columns at that `x`, `z` by `z`.
pub fn dgm_x(bits: OccupancyArray, data: &LinearArray) -> (r: [Vec<VoxelInstance>; 32])
    ensures
        forall|x: int| 0 <= x < 32 ==> grouped_runs((#[trigger] r@[x])@, bits.bits@, data.data@, x_group(x, 32)),
{
    let mut instances = empty_lists();
    let mut z: usize = 0;
    while z < 32
        invariant
            z <= 32,
            forall|x: int|
                0 <= x < 32 ==> grouped_runs((#[trigger] instances@[x])@, bits.bits@, data.data@, x_group(x, z as int)),
            forall|x: int, k: int|
                0 <= x < 32 && 0 <= k < instances@[x]@.len() ==> column_of(#[trigger] instances@[x]@[k]) < 32 * z,
        decreases 32 - z,
    {
        let mut x: usize = 0;
        while x < 32
            invariant
                z < 32,
                x <= 32,
                forall|xx: int|
                    0 <= xx < 32 ==> grouped_runs(
                        (#[trigger] instances@[xx])@,
                        bits.bits@,
                        data.data@,
                        x_group(xx, if xx < x { z + 1 } else { z as int }),
                    ),
                forall|xx: int, k: int|
                    0 <= xx < 32 && 0 <= k < instances@[xx]@.len() ==> column_of(#[trigger] instances@[xx]@[k]) < if xx < x {
                        32 * z + 32
                    } else {
                        32 * z
                    },
            decreases 32 - x,
        {
            let xz = x + z * 32;
            let mut runs = word_runs(bits.bits[xz], xz, &data.data);
            let ghost new_runs = runs@;
            let ghost before = instances@[x as int]@;
            proof {
                assert forall|k: int| 0 <= k < before.len() implies column_of(#[trigger] before[k]) < xz by {
                    assert(column_of(instances@[x as int]@[k]) < 32 * z);
                }
                assert forall|c: int| #[trigger] x_group(x as int, z + 1)(c) == (x_group(x as int, z as int)(c) || c == xz) by {
                }
                lemma_append_column(before, new_runs, bits.bits@, data.data@, x_group(x as int, z as int), x_group(x as int, z + 1), xz as int);
            }
            instances[x].append(&mut runs);
            proof {
                assert(instances@[x as int]@ == before + new_runs);
                assert forall|k: int| 0 <= k < new_runs.len() implies column_of(#[trigger] new_runs[k]) == xz by {
                    assert(column_run(new_runs[k], bits.bits@[xz as int], xz as int, data.data@));
                }
                assert forall|k: int| 0 <= k < instances@[x as int]@.len() implies column_of(#[trigger] instances@[x as int]@[k]) < 32 * z + 32 by {
                    if k >= before.len() {
                        assert(instances@[x as int]@[k] == new_runs[k - before.len()]);
                    } else {
                        assert(instances@[x as int]@[k] == before[k]);
                    }
                }
            }
            x = x + 1;
        }
        z = z + 1;
    }
    instances
}

/// The runs along `y` of the face bits `bits`, for faces looking along Z: list `z` holds
/// the runs of the columns at that `z`, `x` by `x`.
pub fn dgm_z(bits: OccupancyArray, data: &LinearArray) -> (r: [Vec<VoxelInstance>; 32])
    ensures
        forall|z: int| 0 <= z < 32 ==> grouped_runs((#[trigger] r@[z])@, bits.bits@, data.data@, z_group(z, 32)),
{
    let mut instances = empty_lists();
    let mut z: usize = 0;
    while z < 32
        invariant
            z <= 32,
            forall|zz: int|
                0 <= zz < 32 ==> grouped_runs(
                    (#[trigger] instances@[zz])@,
                    bits.bits@,
                    data.data@,
                    z_group(zz, if zz < z { 32 } else { 0int }),
                ),
        decreases 32 - z,
    {
        let mut x: usize = 0;
        while x < 32
            invariant
                z < 32,
                x <= 32,
                forall|zz: int|
                    0 <= zz < 32 ==> grouped_runs(
                        (#[trigger] instances@[zz])@,
                        bits.bits@,
                        data.data@,
                        z_group(zz, if zz < z { 32 } else if zz == z { x as int } else { 0int }),
                    ),
                forall|k: int|
                    0 <= k < instances@[z as int]@.len() ==> column_of(#[trigger] instances@[z as int]@[k]) < 32 * z + x,
            decreases 32 - x,
        {
            let xz = x + z * 32;
            let mut runs = word_runs(bits.bits[xz], xz, &data.data);
            let ghost new_runs = runs@;
            let ghost before = instances@[z as int]@;
            proof {
                assert forall|c: int| #[trigger] z_group(z as int, x + 1)(c) == (z_group(z as int, x as int)(c) || c == xz) by {
                }
                lemma_append_column(before, new_runs, bits.bits@, data.data@, z_group(z as int, x as int), z_group(z as int, x + 1), xz as int);
            }
            instances[z].append(&mut runs);
            proof {
                assert(instances@[z as int]@ == before + new_runs);
                assert forall|k: int| 0 <= k < new_runs.len() implies column_of(#[trigger] new_runs[k]) == xz by {
                    assert(column_run(new_runs[k], bits.bits@[xz as int], xz as int, data.data@));
                }
                assert forall|k: int| 0 <= k < instances@[z as int]@.len() implies column_of(#[trigger] instances@[z as int]@[k]) < 32 * z + x + 1 by {
                    if k >= before.len() {
                        assert(instances@[z as int]@[k] == new_runs[k - before.len()]);
                    } else {
                        assert(instances@[z as int]@[k] == before[k]);
                    }
                }
            }
            x = x + 1;
        }
        z = z + 1;
    }
    instances
}

/// The index of the voxel at `x`, `y`, `z`.
pub open spec fn vidx(x: int, y: int, z: int) -> int {
    y + 32 * x + 1024 * z
}

/// How far a run along `x` that starts at column (`x`, `z`), bit `y`, reaches through the
/// set bits of the following columns of the same `z`, which it clears as it goes.
fn extend_row(bits: &mut [u32; 1024], x: usize, z: usize, y: u32, mat: u8, data: &[u8; 32768]) -> (extent: u32)
    requires
        x < 32,
        z < 32,
        y < 32,
    ensures
        x + extent <= 31,
        forall|t: int|
            1 <= t <= extent ==> #[trigger] bit_at(old(bits)@[x + 32 * z + t], y) && data@[(x + 32 * z + t) * 32 + y]
                == mat,
        x + extent == 31 || !bit_at(old(bits)@[x + 32 * z + extent + 1], y) || data@[(x + 32 * z + extent + 1) * 32 + y]
            != mat,
        forall|c: int|
            0 <= c < 1024 && !(c % 32 > x && c % 32 <= x + extent && c / 32 == z) ==> #[trigger] final(bits)@[c] == old(
                bits,
            )@[c],
        forall|c: int, j: u32|
            0 <= c < 1024 && c % 32 > x && c % 32 <= x + extent && c / 32 == z && j < 32 ==> #[trigger] bit_at(
                final(bits)@[c],
                j,
            ) == (j != y && bit_at(old(bits)@[c], j)),
{
    let lsb_mask = 1u32 << y;
    let mut i = x + 1;
    let mut extent: u32 = 0;
    while i < 32
        invariant_except_break
            x < 32,
            z < 32,
            y < 32,
            lsb_mask == 1u32 << y,
            i == x + 1 + extent,
            i <= 32,
            forall|t: int|
                1 <= t <= extent ==> #[trigger] bit_at(old(bits)@[x + 32 * z + t], y) && data@[(x + 32 * z + t) * 32 + y]
                    == mat,
            forall|c: int|
                0 <= c < 1024 && !(c % 32 > x && c % 32 <= x + extent && c / 32 == z) ==> #[trigger] bits@[c] == old(bits)@[c],
            forall|c: int, j: u32|
                0 <= c < 1024 && c % 32 > x && c % 32 <= x + extent && c / 32 == z && j < 32 ==> #[trigger] bit_at(bits@[c], j)
                    == (j != y && bit_at(old(bits)@[c], j)),
        ensures
            x + extent <= 31,
            forall|t: int|
                1 <= t <= extent ==> #[trigger] bit_at(old(bits)@[x + 32 * z + t], y) && data@[(x + 32 * z + t) * 32 + y]
                    == mat,
            x + extent == 31 || !bit_at(old(bits)@[x + 32 * z + extent + 1], y) || data@[(x + 32 * z + extent + 1) * 32 + y]
                != mat,
            forall|c: int|
                0 <= c < 1024 && !(c % 32 > x && c % 32 <= x + extent && c / 32 == z) ==> #[trigger] bits@[c] == old(bits)@[c],
            forall|c: int, j: u32|
                0 <= c < 1024 && c % 32 > x && c % 32 <= x + extent && c / 32 == z && j < 32 ==> #[trigger] bit_at(bits@[c], j)
                    == (j != y && bit_at(old(bits)@[c], j)),
        decreases 32 - i,
    {
        let next_xz = i + z * 32;
        proof {
            assert(next_xz % 32 == i && next_xz / 32 == z);
            assert(bits@[next_xz as int] == old(bits)@[next_xz as int]);
            lemma_ones_set(bits@[next_xz as int], y);
        }
        if bits[next_xz] & lsb_mask == 0 {
            break;
        }
        let next_idx = (i << 5) | (z << 10) | (y as usize);
        proof {
            assert((i << 5) | (z << 10) | (y as usize) == y + 32 * i + 1024 * z) by (bit_vector)
                requires
                    i < 32,
                    z < 32,
                    y < 32,
            ;
        }
        if data[next_idx] != mat {
            break;
        }
        let ghost before = bits@;
        let ghost old_extent = extent;
        bits[next_xz] = bits[next_xz] & !lsb_mask;
        proof {
            assert forall|j: u32| j < 32 implies #[trigger] bit_at(bits@[next_xz as int], j) == (j != y && bit_at(
                old(bits)@[next_xz as int],
                j,
            )) by {
                lemma_bit_clear_get(before[next_xz as int], y, j);
            }
            assert(bit_at(old(bits)@[x + 32 * z + old_extent + 1], y));
            assert(data@[(x + 32 * z + old_extent + 1) * 32 + y] == mat);
        }
        extent = extent + 1;
        i = i + 1;
        proof {
            assert forall|t: int| 1 <= t <= extent implies #[trigger] bit_at(old(bits)@[x + 32 * z + t], y) && data@[(x
                + 32 * z + t) * 32 + y] == mat by {
                if t < extent {
                    assert(t <= old_extent);
                }
            }
        }
    }
    extent
}

/// The place of column `c` (at `x = c % 32`, `z = c / 32`) in the order `x` by `x`, then
/// `z` by `z`.
pub open spec fn col_key(c: int) -> int {
    (c % 32) * 32 + c / 32
}

/// The column where run `v` starts.
pub open spec fn start_col(v: VoxelInstance) -> int {
    v.spec_x() + 32 * v.spec_z()
}

/// Run `v` covers column `c` of its row: `c` has its `z` and lies between its first and
/// last `x`.
pub open spec fn covers_col(v: VoxelInstance, c: int) -> bool {
    c / 32 == v.spec_z() && v.spec_x() <= c % 32 <= v.spec_x() + v.spec_primary()
}

/// Some run of `list` covers column `c`.
pub open spec fn covered(list: Seq<VoxelInstance>, c: int) -> bool {
    exists|k: int| 0 <= k < list.len() && #[trigger] covers_col(list[k], c)
}

/// Run `v` lies in row `y` of the face bits `bits`: it starts at a set bit, covers set
/// bits of one material along `x`, and stops at the chunk's edge, at an unset bit or
/// where the material changes.
pub open spec fn row_run(v: VoxelInstance, bits: Seq<u32>, data: Seq<u8>, y: int) -> bool {
    let c0 = start_col(v);
    let p = v.spec_primary() as int;
    &&& v.spec_y() == y
    &&& v.spec_secondary() == 0
    &&& v.spec_material() == data[c0 * 32 + y] % 128
    &&& v.spec_x() + p <= 31
    &&& forall|c: int|
        0 <= c < 1024 && #[trigger] covers_col(v, c) ==> bit_at(bits[c], y as u32) && data[c * 32 + y] == data[c0 * 32 + y]
    &&& (v.spec_x() + p == 31 || !bit_at(bits[c0 + p + 1], y as u32) || data[(c0 + p + 1) * 32 + y] != data[c0 * 32 + y])
}

/// The runs of `list` are `row_run`s of row `y`, in order of where they start (`x` by
/// `x`, then `z` by `z`), and no two of them share a column.
pub open spec fn row_runs_apart(list: Seq<VoxelInstance>, bits: Seq<u32>, data: Seq<u8>, y: int) -> bool {
    &&& forall|k: int| 0 <= k < list.len() ==> row_run(#[trigger] list[k], bits, data, y)
    &&& forall|k1: int, k2: int|
        0 <= k1 < k2 < list.len() ==> col_key(start_col(#[trigger] list[k1])) < col_key(start_col(#[trigger] list[k2]))
    &&& forall|k1: int, k2: int, c: int|
        0 <= k1 < list.len() && 0 <= k2 < list.len() && k1 != k2 && #[trigger] covers_col(list[k1], c) ==> !#[trigger] covers_col(
            list[k2],
            c,
        )
}

/// `list` holds the runs of row `y` of the face bits `bits`: `row_runs_apart`, and
/// covering every set bit of the row.
pub open spec fn row_runs(list: Seq<VoxelInstance>, bits: Seq<u32>, data: Seq<u8>, y: int) -> bool {
    &&& row_runs_apart(list, bits, data, y)
    &&& forall|c: int| 0 <= c < 1024 && #[trigger] bit_at(bits[c], y as u32) ==> covered(list, c)
}

/// Two columns with the same place in the order are the same column.
proof fn lemma_col_key(c1: int, c2: int)
    requires
        0 <= c1 < 1024,
        0 <= c2 < 1024,
    ensures
        col_key(c1) == col_key(c2) ==> c1 == c2,
        col_key(c1) < col_key(c2) ==> c1 % 32 <= c2 % 32,
        0 <= col_key(c1) < 1024,
{
}

/// Pushing the run that starts at column `cur`, bit `y`, onto the runs of row `y`: the
/// list stays in order and apart, the run is a `row_run`, and the bits after `cur` still
/// mark exactly the set bits not yet covered.
#[verifier::spinoff_prover]
#[verifier::rlimit(50)]
proof fn lemma_push_row_run(
    ls: Seq<VoxelInstance>,
    b: Seq<u32>,
    m0: Seq<u32>,
    m1: Seq<u32>,
    data: Seq<u8>,
    yy: u32,
    x: int,
    z: int,
    v: VoxelInstance,
    e: u32,
    mat: u8,
)
    requires
        b.len() == 1024,
        m0.len() == 1024,
        m1.len() == 1024,
        data.len() == 32768,
        yy < 32,
        0 <= x < 32,
        0 <= z < 32,
        row_runs_apart(ls, b, data, yy as int),
        forall|k: int| 0 <= k < ls.len() ==> col_key(start_col(#[trigger] ls[k])) <= col_key(x + 32 * z),
        bit_at(b[x + 32 * z], yy),
        !covered(ls, x + 32 * z),
        forall|c: int|
            0 <= c < 1024 && col_key(c) > col_key(x + 32 * z) ==> (#[trigger] bit_at(m0[c], yy) == (bit_at(b[c], yy)
                && !covered(ls, c))),
        v.spec_y() == yy,
        v.spec_x() == x,
        v.spec_z() == z,
        v.spec_primary() == e,
        v.spec_secondary() == 0,
        v.spec_material() == mat % 128,
        mat == data[(x + 32 * z) * 32 + yy],
        x + e <= 31,
        forall|t: int|
            1 <= t <= e ==> #[trigger] bit_at(m0[x + 32 * z + t], yy) && data[(x + 32 * z + t) * 32 + yy] == mat,
        x + e == 31 || !bit_at(m0[x + 32 * z + e + 1], yy) || data[(x + 32 * z + e + 1) * 32 + yy] != mat,
        forall|c: int|
            0 <= c < 1024 && !(c % 32 > x && c % 32 <= x + e && c / 32 == z) ==> #[trigger] m1[c] == m0[c],
        forall|c: int, j: u32|
            0 <= c < 1024 && c % 32 > x && c % 32 <= x + e && c / 32 == z && j < 32 ==> #[trigger] bit_at(m1[c], j) == (j
                != yy && bit_at(m0[c], j)),
    ensures
        row_runs_apart(ls.push(v), b, data, yy as int),
        forall|k: int| 0 <= k < ls.push(v).len() ==> col_key(start_col(#[trigger] ls.push(v)[k])) <= col_key(x + 32 * z),
        covers_col(v, x + 32 * z),
        forall|c: int| #[trigger] covered(ls.push(v), c) == (covered(ls, c) || covers_col(v, c)),
        forall|c: int|
            0 <= c < 1024 && col_key(c) > col_key(x + 32 * z) ==> (#[trigger] bit_at(m1[c], yy) == (bit_at(b[c], yy)
                && !covered(ls.push(v), c))),
{
    let y = yy as int;
    let cur = x + 32 * z;
    let l2 = ls.push(v);
    assert(start_col(v) == cur);
    assert forall|c: int| #[trigger] covered(l2, c) == (covered(ls, c) || covers_col(v, c)) by {
        if covered(l2, c) {
            let k = choose|k: int| 0 <= k < l2.len() && #[trigger] covers_col(l2[k], c);
            if k < ls.len() {
                assert(l2[k] == ls[k]);
            }
        }
        if covered(ls, c) {
            let k = choose|k: int| 0 <= k < ls.len() && #[trigger] covers_col(ls[k], c);
            assert(l2[k] == ls[k]);
        }
        if covers_col(v, c) {
            assert(l2[ls.len() as int] == v);
        }
    }
    // Every run already in the list ends before column `cur` of its row, or lies in
    // another row of `z`.
    assert forall|k: int| 0 <= k < ls.len() && (#[trigger] ls[k]).spec_z() == cur / 32 implies ls[k].spec_x()
        + ls[k].spec_primary() < cur % 32 by {
        let w = ls[k];
        assert(col_key(start_col(w)) <= col_key(cur));
        assert(w.spec_x() <= cur % 32);
        if w.spec_x() + w.spec_primary() >= cur % 32 {
            assert(covers_col(w, cur));
        }
    }
    // The run is a `row_run`.
    assert forall|c: int| 0 <= c < 1024 && #[trigger] covers_col(v, c) implies bit_at(b[c], y as u32) && data[c * 32 + y]
        == mat by {
        if c != cur {
            let t = c % 32 - cur % 32;
            assert(c == cur + t);
            assert(bit_at(m0[x + 32 * z + t], yy));
            assert(col_key(c) > col_key(cur));
        }
    }
    if cur % 32 + e < 31 && bit_at(b[cur + e + 1], y as u32) && !bit_at(m0[cur + e + 1], y as u32) {
        let c1 = cur + e + 1;
        assert(c1 / 32 == cur / 32 && c1 % 32 == cur % 32 + e + 1);
        assert(col_key(c1) > col_key(cur));
        assert(covered(ls, c1));
        let k = choose|k: int| 0 <= k < ls.len() && #[trigger] covers_col(ls[k], c1);
        assert(covers_col(ls[k], cur));
    }
    assert(row_run(v, b, data, y));
    assert forall|k: int| 0 <= k < l2.len() implies row_run(#[trigger] l2[k], b, data, y) by {
        if k < ls.len() {
            assert(l2[k] == ls[k]);
        }
    }
    assert forall|k1: int, k2: int| 0 <= k1 < k2 < l2.len() implies col_key(start_col(#[trigger] l2[k1])) < col_key(
        start_col(#[trigger] l2[k2]),
    ) by {
        assert(l2[k1] == ls[k1]);
        if k2 == ls.len() {
            let w = ls[k1];
            lemma_field_write(w.0, 0, 0);
            lemma_col_key(start_col(w), cur);
            if col_key(start_col(w)) == col_key(cur) {
                assert(covers_col(w, cur));
            }
        } else {
            assert(l2[k2] == ls[k2]);
        }
    }
    assert forall|k1: int, k2: int, c: int|
        0 <= k1 < l2.len() && 0 <= k2 < l2.len() && k1 != k2 && #[trigger] covers_col(l2[k1], c) implies !#[trigger] covers_col(
        l2[k2],
        c,
    ) by {
        if k1 == ls.len() {
            assert(l2[k2] == ls[k2]);
            if covers_col(ls[k2], c) {
                assert(ls[k2].spec_z() == cur / 32);
            }
        } else if k2 == ls.len() {
            assert(l2[k1] == ls[k1]);
            if covers_col(v, c) {
                assert(ls[k1].spec_z() == cur / 32);
            }
        } else {
            assert(l2[k1] == ls[k1] && l2[k2] == ls[k2]);
        }
    }
    assert forall|k: int| 0 <= k < l2.len() implies col_key(start_col(#[trigger] l2[k])) <= col_key(cur) by {
        if k < ls.len() {
            assert(l2[k] == ls[k]);
        }
    }
    assert forall|c: int| 0 <= c < 1024 && col_key(c) > col_key(cur) implies (#[trigger] bit_at(m1[c], y as u32) == (bit_at(
        b[c],
        y as u32,
    ) && !covered(l2, c))) by {
        if c % 32 > cur % 32 && c % 32 <= cur % 32 + e && c / 32 == cur / 32 {
            assert(covers_col(v, c));
        } else {
            assert(m1[c] == m0[c]);
            if covers_col(v, c) {
                assert(c == cur);
            }
        }
    }
}

/// The runs along `x` of the face bits `bits`, for faces looking along Y: list `y` holds
/// the runs of row `y`, in order of where they start, `x` by `x`, then `z` by `z`.
pub fn dgm_y(bits: OccupancyArray, data: &LinearArray) -> (r: [Vec<VoxelInstance>; 32])
    ensures
        forall|y: int| 0 <= y < 32 ==> row_runs((#[trigger] r@[y])@, bits.bits@, data.data@, y),
{
    broadcast use vstd::std_specs::bits::axiom_u32_trailing_zeros;

    let ghost b = bits.bits@;
    let mut m = bits.bits;
    let mut instances = empty_lists();
    let mut x: usize = 0;
    while x < 32
        invariant
            x <= 32,
            b == bits.bits@,
            b.len() == 1024,
            forall|y: int| 0 <= y < 32 ==> row_runs_apart((#[trigger] instances@[y])@, b, data.data@, y),
            forall|y: int, k: int|
                0 <= y < 32 && 0 <= k < instances@[y]@.len() ==> col_key(start_col(#[trigger] instances@[y]@[k])) < x * 32,
            forall|c: int, y: int|
                0 <= c < 1024 && 0 <= y < 32 && col_key(c) < x * 32 && #[trigger] bit_at(b[c], y as u32) ==> covered(
                    instances@[y]@,
                    c,
                ),
            forall|c: int, y: int|
                0 <= c < 1024 && 0 <= y < 32 && col_key(c) >= x * 32 ==> (#[trigger] bit_at(m@[c], y as u32) == (bit_at(
                    b[c],
                    y as u32,
                ) && !covered(instances@[y]@, c))),
        decreases 32 - x,
    {
        let mut z: usize = 0;
        while z < 32
            invariant
                x < 32,
                z <= 32,
                b == bits.bits@,
                b.len() == 1024,
                forall|y: int| 0 <= y < 32 ==> row_runs_apart((#[trigger] instances@[y])@, b, data.data@, y),
                forall|y: int, k: int|
                    0 <= y < 32 && 0 <= k < instances@[y]@.len() ==> col_key(start_col(#[trigger] instances@[y]@[k])) < x
                        * 32 + z,
                forall|c: int, y: int|
                    0 <= c < 1024 && 0 <= y < 32 && col_key(c) < x * 32 + z && #[trigger] bit_at(b[c], y as u32) ==> covered(
                        instances@[y]@,
                        c,
                    ),
                forall|c: int, y: int|
                    0 <= c < 1024 && 0 <= y < 32 && col_key(c) >= x * 32 + z ==> (#[trigger] bit_at(m@[c], y as u32) == (
                    bit_at(b[c], y as u32) && !covered(instances@[y]@, c))),
            decreases 32 - z,
        {
            let xz = x + z * 32;
            let ghost cur = xz as int;
            proof {
                assert(col_key(cur) == x * 32 + z);
            }
            let mut word = m[xz];
            proof {
                assert forall|y: u32| y < 32 implies bit_at(word, y) == (bit_at(b[cur], y) && !covered(
                    instances@[y as int]@,
                    cur,
                )) by {
                    assert(bit_at(m@[cur], (y as int) as u32) == (bit_at(b[cur], (y as int) as u32) && !covered(
                        instances@[y as int]@,
                        cur,
                    )));
                }
            }
            while word != 0
                invariant
                    x < 32,
                    z < 32,
                    cur == x + z * 32,
                    xz == cur,
                    col_key(cur) == x * 32 + z,
                    b == bits.bits@,
                    b.len() == 1024,
                    forall|y: int| 0 <= y < 32 ==> row_runs_apart((#[trigger] instances@[y])@, b, data.data@, y),
                    forall|y: int, k: int|
                        0 <= y < 32 && 0 <= k < instances@[y]@.len() ==> col_key(start_col(#[trigger] instances@[y]@[k]))
                            <= col_key(cur),
                    forall|c: int, y: int|
                        0 <= c < 1024 && 0 <= y < 32 && col_key(c) < col_key(cur) && #[trigger] bit_at(b[c], y as u32)
                            ==> covered(instances@[y]@, c),
                    forall|c: int, y: int|
                        0 <= c < 1024 && 0 <= y < 32 && col_key(c) > col_key(cur) ==> (#[trigger] bit_at(m@[c], y as u32) == (
                        bit_at(b[c], y as u32) && !covered(instances@[y]@, c))),
                    forall|y: u32|
                        y < 32 && #[trigger] bit_at(word, y) ==> bit_at(b[cur], y) && !covered(instances@[y as int]@, cur),
                    forall|y: u32|
                        y < 32 && #[trigger] bit_at(b[cur], y) && !bit_at(word, y) ==> covered(instances@[y as int]@, cur),
                decreases word,
            {
                let t = word.trailing_zeros();
                proof {
                    assert(bit_at(word, t));
                    lemma_join_index(xz, t as usize);
                    assert(word << ((32 - t) as u32) == 0);
                }
                let idx = (xz << 5) | (t as usize);
                let mat = data.data[idx];
                let ghost m0 = m@;
                let ghost ls = instances@[t as int]@;
                let e = extend_row(&mut m, x, z, t, mat, &data.data);
                let run = VoxelInstance::new(x as u8, t as u8, z as u8, e as u8, 0, mat);
                proof {
                    assert(forall|c: int|
                        0 <= c < 1024 && col_key(c) > col_key(cur) ==> (#[trigger] bit_at(m0[c], t) == (bit_at(b[c], t)
                            && !covered(ls, c))));
                    lemma_push_row_run(ls, b, m0, m@, data.data@, t, x as int, z as int, run, e, mat);
                }
                let ghost before = instances@;
                instances[t as usize].push(run);
                let ghost prev = word;
                word = word & (word - 1);
                proof {
                    assert forall|j: u32| j < 32 implies #[trigger] bit_at(word, j) == (j != t && bit_at(prev, j)) by {
                        lemma_clear_lowest(prev, t, j);
                    }
                    lemma_clear_lowest(prev, t, 0);
                    assert forall|y: int| 0 <= y < 32 && y != t implies #[trigger] instances@[y]@ == before[y]@ by {
                    }
                    assert forall|c: int, y: int|
                        0 <= c < 1024 && 0 <= y < 32 && col_key(c) > col_key(cur) implies (#[trigger] bit_at(m@[c], y as u32)
                        == (bit_at(b[c], y as u32) && !covered(instances@[y]@, c))) by {
                        if y != t {
                            assert(instances@[y]@ == before[y]@);
                            if c % 32 > x && c % 32 <= x + e && c / 32 == z {
                                assert(bit_at(m@[c], y as u32) == bit_at(m0[c], y as u32));
                            } else {
                                assert(m@[c] == m0[c]);
                            }
                        }
                    }
                    assert forall|c: int, y: int|
                        0 <= c < 1024 && 0 <= y < 32 && col_key(c) < col_key(cur) && #[trigger] bit_at(b[c], y as u32)
                        implies covered(instances@[y]@, c) by {
                        if y == t {
                            assert(covered(ls, c));
                        } else {
                            assert(instances@[y]@ == before[y]@);
                        }
                    }
                    assert forall|y: u32| y < 32 && #[trigger] bit_at(b[cur], y) && !bit_at(word, y) implies covered(
                        instances@[y as int]@,
                        cur,
                    ) by {
                        if y != t {
                            assert(instances@[y as int]@ == before[y as int]@);
                        }
                    }
                    assert forall|y: u32| y < 32 && #[trigger] bit_at(word, y) implies bit_at(b[cur], y) && !covered(
                        instances@[y as int]@,
                        cur,
                    ) by {
                        assert(y != t);
                        assert(instances@[y as int]@ == before[y as int]@);
                    }
                }
            }
            proof {
                assert forall|c: int, y: int|
                    0 <= c < 1024 && 0 <= y < 32 && col_key(c) < col_key(cur) + 1 && #[trigger] bit_at(b[c], y as u32)
                    implies covered(instances@[y]@, c) by {
                    if col_key(c) == col_key(cur) {
                        lemma_col_key(c, cur);
                        assert(!bit_at(0u32, y as u32)) by {
                            lemma_and_not_bits(0, 0, y as u32);
                        }
                    }
                }
            }
            m[xz] = word;
            proof {
                assert forall|c: int, y: int|
                    0 <= c < 1024 && 0 <= y < 32 && col_key(c) >= col_key(cur) + 1 implies (#[trigger] bit_at(m@[c], y as u32)
                    == (bit_at(b[c], y as u32) && !covered(instances@[y]@, c))) by {
                    lemma_col_key(c, cur);
                }
            }
            z = z + 1;
        }
        x = x + 1;
    }
    proof {
        assert forall|y: int| 0 <= y < 32 implies row_runs((#[trigger] instances@[y])@, bits.bits@, data.data@, y) by {
            assert forall|c: int| 0 <= c < 1024 && #[trigger] bit_at(bits.bits@[c], y as u32) implies covered(instances@[y]@, c) by {
                lemma_col_key(c, 0);
            }
        }
    }
    instances
}

/// Where a run starts along its secondary direction: `x` for Z faces, `z` otherwise.
pub open spec fn secondary_start(v: VoxelInstance, axis: FaceAxis) -> int {
    match axis {
        FaceAxis::Z => field(v.0, 5) as int,
        _ => field(v.0, 10) as int,
    }
}

/// The coordinate that a run keeps: `y` for Y faces, `x` for X faces, `z` for Z faces.
pub open spec fn fixed_coord(v: VoxelInstance, axis: FaceAxis) -> int {
    match axis {
        FaceAxis::Y => field(v.0, 0) as int,
        FaceAxis::X => field(v.0, 5) as int,
        FaceAxis::Z => field(v.0, 10) as int,
    }
}

/// Run `v` of a face looking along `axis` covers the voxel at `p` along its primary
/// direction, `s` along its secondary direction and `f` along the axis.
pub open spec fn covers(v: VoxelInstance, axis: FaceAxis, p: int, s: int, f: int) -> bool {
    &&& fixed_coord(v, axis) == f
    &&& primary_start(v.0, axis) <= p <= primary_start(v.0, axis) + field(v.0, 15)
    &&& secondary_start(v, axis) <= s <= secondary_start(v, axis) + field(v.0, 20)
}

/// Run `v` stays inside the chunk in both its directions.
pub open spec fn in_chunk(v: VoxelInstance, axis: FaceAxis) -> bool {
    &&& primary_start(v.0, axis) + field(v.0, 15) <= 31
    &&& secondary_start(v, axis) + field(v.0, 20) <= 31
}

/// Some run of `list` covers the voxel at (`p`, `s`, `f`) in material `m`.
pub open spec fn painted(list: Seq<VoxelInstance>, axis: FaceAxis, p: int, s: int, f: int, m: u32) -> bool {
    exists|k: int| 0 <= k < list.len() && #[trigger] covers(list[k], axis, p, s, f) && list[k].spec_material() == m
}

/// Every run of `list` stays inside the chunk.
pub open spec fn all_in_chunk(list: Seq<VoxelInstance>, axis: FaceAxis) -> bool {
    forall|k: int| 0 <= k < list.len() ==> in_chunk(#[trigger] list[k], axis)
}

/// What a list paints after a run is pushed.
proof fn lemma_painted_push(list: Seq<VoxelInstance>, v: VoxelInstance, axis: FaceAxis)
    ensures
        forall|p: int, s: int, f: int, m: u32|
            #[trigger] painted(list.push(v), axis, p, s, f, m) == (painted(list, axis, p, s, f, m) || (covers(
                v,
                axis,
                p,
                s,
                f,
            ) && v.spec_material() == m)),
{
    assert forall|p: int, s: int, f: int, m: u32|
        #[trigger] painted(list.push(v), axis, p, s, f, m) == (painted(list, axis, p, s, f, m) || (covers(
            v,
            axis,
            p,
            s,
            f,
        ) && v.spec_material() == m)) by {
        let l2 = list.push(v);
        if painted(l2, axis, p, s, f, m) {
            let k = choose|k: int| 0 <= k < l2.len() && #[trigger] covers(l2[k], axis, p, s, f) && l2[k].spec_material() == m;
            if k < list.len() {
                assert(l2[k] == list[k]);
            }
        }
        if painted(list, axis, p, s, f, m) {
            let k = choose|k: int| 0 <= k < list.len() && #[trigger] covers(list[k], axis, p, s, f) && list[k].spec_material() == m;
            assert(l2[k] == list[k]);
        }
        if covers(v, axis, p, s, f) && v.spec_material() == m {
            assert(l2[list.len() as int] == v);
        }
    }
}

/// What two lists joined paint.
proof fn lemma_painted_concat(a: Seq<VoxelInstance>, b: Seq<VoxelInstance>, axis: FaceAxis)
    ensures
        forall|p: int, s: int, f: int, m: u32|
            #[trigger] painted(a + b, axis, p, s, f, m) == (painted(a, axis, p, s, f, m) || painted(b, axis, p, s, f, m)),
{
    assert forall|p: int, s: int, f: int, m: u32|
        #[trigger] painted(a + b, axis, p, s, f, m) == (painted(a, axis, p, s, f, m) || painted(b, axis, p, s, f, m)) by {
        let l2 = a + b;
        if painted(l2, axis, p, s, f, m) {
            let k = choose|k: int| 0 <= k < l2.len() && #[trigger] covers(l2[k], axis, p, s, f) && l2[k].spec_material() == m;
            if k < a.len() {
                assert(l2[k] == a[k]);
            } else {
                assert(l2[k] == b[k - a.len()]);
            }
        }
        if painted(a, axis, p, s, f, m) {
            let k = choose|k: int| 0 <= k < a.len() && #[trigger] covers(a[k], axis, p, s, f) && a[k].spec_material() == m;
            assert(l2[k] == a[k]);
        }
        if painted(b, axis, p, s, f, m) {
            let k = choose|k: int| 0 <= k < b.len() && #[trigger] covers(b[k], axis, p, s, f) && b[k].spec_material() == m;
            assert(l2[a.len() + k] == b[k]);
        }
    }
}

/// Run `v` stays inside the chunk and spans a single row along its secondary direction,
/// as the runs of the first pass do.
pub open spec fn flat_in_chunk(v: VoxelInstance, axis: FaceAxis) -> bool {
    in_chunk(v, axis) && v.spec_secondary() == 0
}

/// Every run of `list` is `flat_in_chunk`.
pub open spec fn all_flat(list: Seq<VoxelInstance>, axis: FaceAxis) -> bool {
    forall|k: int| 0 <= k < list.len() ==> flat_in_chunk(#[trigger] list[k], axis)
}

/// Run `v` covers the voxel at (`p`, `s`, `f`) in material `m`.
pub open spec fn paints(v: VoxelInstance, axis: FaceAxis, p: int, s: int, f: int, m: u32) -> bool {
    covers(v, axis, p, s, f) && v.spec_material() == m
}

/// Run `o` paints what `v` paints when there is one.
pub open spec fn paints_opt(o: Option<VoxelInstance>, axis: FaceAxis, p: int, s: int, f: int, m: u32) -> bool {
    match o {
        Some(v) => paints(v, axis, p, s, f, m),
        None => false,
    }
}

/// Run `o` stays inside the chunk when there is one.
pub open spec fn in_chunk_opt(o: Option<VoxelInstance>, axis: FaceAxis) -> bool {
    match o {
        Some(v) => in_chunk(v, axis),
        None => true,
    }
}

/// A secondary merge of `rhs` into `cur` that succeeded, as `try_merge_secondary` states
/// it, leaves `cur2`, `head` and `tail` inside the chunk, and together they paint exactly
/// what `cur` and `rhs` painted, when both were inside the chunk and `rhs` spans one row.
proof fn lemma_merge_paints(
    cur: VoxelInstance,
    rhs: VoxelInstance,
    cur2: VoxelInstance,
    head: Option<VoxelInstance>,
    tail: Option<VoxelInstance>,
    axis: FaceAxis,
)
    requires
        in_chunk(cur, axis),
        flat_in_chunk(rhs, axis),
        next_in_slice(cur.0, rhs.0, axis),
        ({
            let ls = primary_start(cur.0, axis);
            let rs = primary_start(rhs.0, axis);
            let lp = field(cur.0, 15);
            let rp = field(rhs.0, 15);
            let sh = primary_start_shift(axis);
            &&& ls >= rs && ls + lp <= rs + rp
            &&& cur2.spec_secondary() == (cur.spec_secondary() + 1) % 32
            &&& same_except(cur2.0, cur.0, 20)
            &&& head is Some <==> ls > rs
            &&& head is Some ==> field(head->Some_0.0, 15) == ls - rs - 1 && same_except(head->Some_0.0, rhs.0, 15)
            &&& tail is Some <==> ls + lp < rs + rp
            &&& tail is Some ==> field(tail->Some_0.0, 15) == (rs + rp - ls - lp - 1) % 32 && field(
                tail->Some_0.0,
                sh,
            ) == (ls + lp + 1) % 32 && same_except2(tail->Some_0.0, rhs.0, 15, sh)
        }),
    ensures
        in_chunk(cur2, axis),
        in_chunk_opt(head, axis),
        in_chunk_opt(tail, axis),
        forall|p: int, s: int, f: int, m: u32|
            (#[trigger] paints(cur2, axis, p, s, f, m) || paints_opt(head, axis, p, s, f, m) || paints_opt(
                tail,
                axis,
                p,
                s,
                f,
                m,
            )) == (paints(cur, axis, p, s, f, m) || paints(rhs, axis, p, s, f, m)),
{
    match axis {
        FaceAxis::Y => {},
        FaceAxis::X => {},
        FaceAxis::Z => {},
    }
}

/// The runs of `list` from place `i` on paint what the run at `i` and those after it
/// paint.
proof fn lemma_painted_skip(list: Seq<VoxelInstance>, i: int, axis: FaceAxis)
    requires
        0 <= i < list.len(),
    ensures
        forall|p: int, s: int, f: int, m: u32|
            #[trigger] painted(list.skip(i), axis, p, s, f, m) == (paints(list[i], axis, p, s, f, m) || painted(
                list.skip(i + 1),
                axis,
                p,
                s,
                f,
                m,
            )),
{
    let one = Seq::<VoxelInstance>::empty().push(list[i]);
    assert(list.skip(i) =~= one + list.skip(i + 1));
    lemma_painted_concat(one, list.skip(i + 1), axis);
    lemma_painted_push(Seq::<VoxelInstance>::empty(), list[i], axis);
}

/// `list` with `o` pushed when there is one.
pub open spec fn pushed_opt(list: Seq<VoxelInstance>, o: Option<VoxelInstance>) -> Seq<VoxelInstance> {
    match o {
        Some(v) => list.push(v),
        None => list,
    }
}

/// What a list paints after an optional run is pushed, and that it stays inside the
/// chunk.
proof fn lemma_pushed_opt(list: Seq<VoxelInstance>, o: Option<VoxelInstance>, axis: FaceAxis)
    ensures
        all_in_chunk(list, axis) && in_chunk_opt(o, axis) ==> all_in_chunk(pushed_opt(list, o), axis),
        forall|p: int, s: int, f: int, m: u32|
            #[trigger] painted(pushed_opt(list, o), axis, p, s, f, m) == (painted(list, axis, p, s, f, m) || paints_opt(
                o,
                axis,
                p,
                s,
                f,
                m,
            )),
{
    if let Some(v) = o {
        lemma_painted_push(list, v, axis);
        if all_in_chunk(list, axis) && in_chunk(v, axis) {
            assert forall|k: int| 0 <= k < list.len() + 1 implies in_chunk(#[trigger] list.push(v)[k], axis) by {
                if k < list.len() {
                    assert(list.push(v)[k] == list[k]);
                }
            }
        }
    }
}

/// One merge step of `merge_slice` keeps what the result, the current run and the runs
/// left to look at paint together.
#[verifier::spinoff_prover]
proof fn lemma_merge_step(
    old_r: Seq<VoxelInstance>,
    head: Option<VoxelInstance>,
    tail: Option<VoxelInstance>,
    before: VoxelInstance,
    cur2: VoxelInstance,
    cand: VoxelInstance,
    rest: Seq<VoxelInstance>,
    rest_next: Seq<VoxelInstance>,
    whole: Seq<VoxelInstance>,
    axis: FaceAxis,
)
    requires
        all_in_chunk(old_r, axis),
        in_chunk_opt(head, axis),
        in_chunk_opt(tail, axis),
        forall|p: int, s: int, f: int, m: u32|
            #![trigger painted(old_r, axis, p, s, f, m)]
            (painted(old_r, axis, p, s, f, m) || paints(before, axis, p, s, f, m) || painted(
                rest,
                axis,
                p,
                s,
                f,
                m,
            )) == painted(whole, axis, p, s, f, m),
        forall|p: int, s: int, f: int, m: u32|
            #[trigger] painted(rest, axis, p, s, f, m) == (paints(cand, axis, p, s, f, m) || painted(
                rest_next,
                axis,
                p,
                s,
                f,
                m,
            )),
        forall|p: int, s: int, f: int, m: u32|
            #![trigger paints(cur2, axis, p, s, f, m)]
            (paints(cur2, axis, p, s, f, m) || paints_opt(head, axis, p, s, f, m) || paints_opt(
                tail,
                axis,
                p,
                s,
                f,
                m,
            )) == (paints(before, axis, p, s, f, m) || paints(cand, axis, p, s, f, m)),
    ensures
        all_in_chunk(pushed_opt(pushed_opt(old_r, head), tail), axis),
        forall|p: int, s: int, f: int, m: u32|
            #![trigger painted(pushed_opt(pushed_opt(old_r, head), tail), axis, p, s, f, m)]
            (painted(pushed_opt(pushed_opt(old_r, head), tail), axis, p, s, f, m) || paints(
                cur2,
                axis,
                p,
                s,
                f,
                m,
            ) || painted(rest_next, axis, p, s, f, m)) == painted(whole, axis, p, s, f, m),
{
    let r1 = pushed_opt(old_r, head);
    let r2 = pushed_opt(r1, tail);
    lemma_pushed_opt(old_r, head, axis);
    lemma_pushed_opt(r1, tail, axis);
    assert forall|p: int, s: int, f: int, m: u32|
        #![trigger painted(r2, axis, p, s, f, m)]
        (painted(r2, axis, p, s, f, m) || paints(cur2, axis, p, s, f, m) || painted(
            rest_next,
            axis,
            p,
            s,
            f,
            m,
        )) == painted(whole, axis, p, s, f, m) by {
        let a = painted(old_r, axis, p, s, f, m);
        let b = paints(before, axis, p, s, f, m);
        let c = paints(cand, axis, p, s, f, m);
        let h = paints_opt(head, axis, p, s, f, m);
        let t = paints_opt(tail, axis, p, s, f, m);
        let g = paints(cur2, axis, p, s, f, m);
        let r = painted(rest, axis, p, s, f, m);
        let n = painted(rest_next, axis, p, s, f, m);
        let w = painted(whole, axis, p, s, f, m);
        assert((a || b || r) == w);
        assert(r == (c || n));
        assert((g || h || t) == (b || c));
        assert(painted(r1, axis, p, s, f, m) == (a || h));
        assert(painted(r2, axis, p, s, f, m) == (painted(r1, axis, p, s, f, m) || t));
    }
}

/// Closing a run of `merge_slice`: pushing the current run keeps what is painted.
proof fn lemma_close_run(
    old_r: Seq<VoxelInstance>,
    cur: VoxelInstance,
    rest: Seq<VoxelInstance>,
    whole: Seq<VoxelInstance>,
    axis: FaceAxis,
)
    requires
        all_in_chunk(old_r, axis),
        in_chunk(cur, axis),
        forall|p: int, s: int, f: int, m: u32|
            #![trigger painted(old_r, axis, p, s, f, m)]
            (painted(old_r, axis, p, s, f, m) || paints(cur, axis, p, s, f, m) || painted(
                rest,
                axis,
                p,
                s,
                f,
                m,
            )) == painted(whole, axis, p, s, f, m),
    ensures
        all_in_chunk(old_r.push(cur), axis),
        forall|p: int, s: int, f: int, m: u32|
            #![trigger painted(old_r.push(cur), axis, p, s, f, m)]
            (painted(old_r.push(cur), axis, p, s, f, m) || painted(rest, axis, p, s, f, m)) == painted(
                whole,
                axis,
                p,
                s,
                f,
                m,
            ),
{
    lemma_pushed_opt(old_r, Some(cur), axis);
    assert forall|p: int, s: int, f: int, m: u32|
        #![trigger painted(old_r.push(cur), axis, p, s, f, m)]
        (painted(old_r.push(cur), axis, p, s, f, m) || painted(rest, axis, p, s, f, m)) == painted(
            whole,
            axis,
            p,
            s,
            f,
            m,
        ) by {
        assert(painted(pushed_opt(old_r, Some(cur)), axis, p, s, f, m) == (painted(old_r, axis, p, s, f, m) || paints_opt(
            Some(cur),
            axis,
            p,
            s,
            f,
            m,
        )));
        assert((painted(old_r, axis, p, s, f, m) || paints(cur, axis, p, s, f, m) || painted(rest, axis, p, s, f, m))
            == painted(whole, axis, p, s, f, m));
    }
}

/// The second pass over one slice: each run grows along the secondary direction over
/// the runs that follow it for as long as each next one continues it and spans its
/// whole primary extent; what sticks out of such a run on either side is kept as a run
/// of its own. When the slice's runs are `flat_in_chunk`, the result stays inside the
/// chunk and paints exactly what the slice painted.
#[verifier::spinoff_prover]
fn merge_slice(slice: &Vec<VoxelInstance>, axis: FaceAxis) -> (r: Vec<VoxelInstance>)
    ensures
        all_flat(slice@, axis) ==> all_in_chunk(r@, axis),
        all_flat(slice@, axis) ==> forall|p: int, s: int, f: int, m: u32|
            #[trigger] painted(r@, axis, p, s, f, m) == painted(slice@, axis, p, s, f, m),
{
    let ghost ok = all_flat(slice@, axis);
    let mut result: Vec<VoxelInstance> = Vec::with_capacity(slice.len());
    let mut i: usize = 0;
    proof {
        assert(slice@.skip(0) =~= slice@);
    }
    while i < slice.len()
        invariant
            i <= slice.len(),
            ok == all_flat(slice@, axis),
            ok ==> all_in_chunk(result@, axis),
            ok ==> forall|p: int, s: int, f: int, m: u32|
                #![trigger painted(result@, axis, p, s, f, m)]
                (painted(result@, axis, p, s, f, m) || painted(slice@.skip(i as int), axis, p, s, f, m)) == painted(
                    slice@,
                    axis,
                    p,
                    s,
                    f,
                    m,
                ),
        decreases slice.len() - i,
    {
        let mut current = slice[i];
        proof {
            lemma_painted_skip(slice@, i as int, axis);
            if ok {
                assert(flat_in_chunk(slice@[i as int], axis));
            }
        }
        i = i + 1;
        let ghost first_after = i;
        let mut go = true;
        while go && i < slice.len()
            invariant
                first_after <= i <= slice.len(),
                ok == all_flat(slice@, axis),
                ok ==> in_chunk(current, axis),
                ok ==> all_in_chunk(result@, axis),
                forall|p: int, s: int, f: int, m: u32|
                    #![trigger painted(result@, axis, p, s, f, m)]
                    ok ==> (painted(result@, axis, p, s, f, m) || paints(current, axis, p, s, f, m) || painted(
                        slice@.skip(i as int),
                        axis,
                        p,
                        s,
                        f,
                        m,
                    )) == painted(slice@, axis, p, s, f, m),
            decreases slice.len() - i, (if go { 1int } else { 0int }),
        {
            let candidate = slice[i];
            let ghost before = current;
            let ghost old_result = result@;
            let mut grown_run = current;
            let (merged, head, tail) = grown_run.try_merge_secondary(&candidate, axis);
            if merged {
                current = grown_run;
                proof {
                    if ok {
                        assert(flat_in_chunk(slice@[i as int], axis));
                        lemma_merge_paints(before, candidate, current, head, tail, axis);
                        lemma_painted_skip(slice@, i as int, axis);
                        lemma_merge_step(
                            old_result,
                            head,
                            tail,
                            before,
                            current,
                            candidate,
                            slice@.skip(i as int),
                            slice@.skip(i + 1),
                            slice@,
                            axis,
                        );
                    }
                }
                match head {
                    Some(h) => {
                        result.push(h);
                    },
                    None => {},
                }
                match tail {
                    Some(t) => {
                        result.push(t);
                    },
                    None => {},
                }
                let ghost grown = result@;
                proof {
                    assert(grown == pushed_opt(pushed_opt(old_result, head), tail));
                }
                i = i + 1;
                proof {
                    assert forall|p: int, s: int, f: int, m: u32|
                        #![trigger painted(result@, axis, p, s, f, m)]
                        ok implies (painted(result@, axis, p, s, f, m) || paints(current, axis, p, s, f, m) || painted(
                            slice@.skip(i as int),
                            axis,
                            p,
                            s,
                            f,
                            m,
                        )) == painted(slice@, axis, p, s, f, m) by {
                        assert(painted(pushed_opt(pushed_opt(old_result, head), tail), axis, p, s, f, m) == painted(
                            grown,
                            axis,
                            p,
                            s,
                            f,
                            m,
                        ));
                    }
                }
            } else {
                proof {
                    assert(current == before);
                    assert forall|p: int, s: int, f: int, m: u32|
                        #![trigger painted(result@, axis, p, s, f, m)]
                        ok implies (painted(result@, axis, p, s, f, m) || paints(current, axis, p, s, f, m) || painted(
                            slice@.skip(i as int),
                            axis,
                            p,
                            s,
                            f,
                            m,
                        )) == painted(slice@, axis, p, s, f, m) by {
                        assert(painted(old_result, axis, p, s, f, m) == painted(result@, axis, p, s, f, m));
                        assert(paints(before, axis, p, s, f, m) == paints(current, axis, p, s, f, m));
                    }
                }
                go = false;
            }
        }
        proof {
            if ok {
                lemma_close_run(result@, current, slice@.skip(i as int), slice@, axis);
            }
        }
        result.push(current);
    }
    proof {
        assert(slice@.skip(slice@.len() as int) =~= Seq::<VoxelInstance>::empty());
    }
    result
}

/// Every list of `lists` is `all_flat`.
pub open spec fn lists_flat(lists: [Vec<VoxelInstance>; 32], axis: FaceAxis) -> bool {
    forall|j: int| 0 <= j < 32 ==> all_flat((#[trigger] lists@[j])@, axis)
}

/// Some list of `lists` paints the voxel at (`p`, `s`, `f`) in material `m`.
pub open spec fn lists_paint(lists: [Vec<VoxelInstance>; 32], axis: FaceAxis, p: int, s: int, f: int, m: u32) -> bool {
    exists|j: int| 0 <= j < 32 && #[trigger] painted(lists@[j]@, axis, p, s, f, m)
}

/// The second pass over the 32 slices of one face direction, `None` where the direction
/// was left out: each slice merged as `merge_slice` does, the results joined slice by
/// slice. When the slices' runs are `flat_in_chunk`, the joined runs stay inside the
/// chunk and paint exactly what the slices painted.
fn secondary_pass_logic(instances: Option<[Vec<VoxelInstance>; 32]>, axis: FaceAxis) -> (r: Option<Vec<VoxelInstance>>)
    ensures
        r is Some == instances is Some,
        instances is Some && lists_flat(instances->Some_0, axis) ==> all_in_chunk(r->Some_0@, axis),
        instances is Some && lists_flat(instances->Some_0, axis) ==> forall|p: int, s: int, f: int, m: u32|
            #[trigger] painted(r->Some_0@, axis, p, s, f, m) == lists_paint(instances->Some_0, axis, p, s, f, m),
{
    let lists = match instances {
        Some(lists) => lists,
        None => {
            return None;
        },
    };
    let ghost ok = lists_flat(lists, axis);
    let mut result: Vec<VoxelInstance> = Vec::new();
    let mut j: usize = 0;
    while j < 32
        invariant
            j <= 32,
            ok == lists_flat(lists, axis),
            ok ==> all_in_chunk(result@, axis),
            ok ==> forall|p: int, s: int, f: int, m: u32|
                #[trigger] painted(result@, axis, p, s, f, m) == exists|k: int|
                    0 <= k < j && #[trigger] painted(lists@[k]@, axis, p, s, f, m),
        decreases 32 - j,
    {
        let mut merged = merge_slice(&lists[j], axis);
        let ghost before = result@;
        let ghost added = merged@;
        proof {
            lemma_painted_concat(result@, merged@, axis);
            if ok {
                assert(all_flat(lists@[j as int]@, axis));
            }
        }
        result.append(&mut merged);
        proof {
            if ok {
                assert forall|k: int| 0 <= k < result@.len() implies in_chunk(#[trigger] result@[k], axis) by {
                    if k < before.len() {
                        assert(result@[k] == before[k]);
                    } else {
                        assert(result@[k] == added[k - before.len()]);
                    }
                }
                assert forall|p: int, s: int, f: int, m: u32|
                    #[trigger] painted(result@, axis, p, s, f, m) == exists|k: int|
                        0 <= k < j + 1 && #[trigger] painted(lists@[k]@, axis, p, s, f, m) by {
                    if painted(lists@[j as int]@, axis, p, s, f, m) {
                        assert(0 <= j < j + 1);
                    }
                    if exists|k: int| 0 <= k < j + 1 && #[trigger] painted(lists@[k]@, axis, p, s, f, m) {
                        let k = choose|k: int| 0 <= k < j + 1 && #[trigger] painted(lists@[k]@, axis, p, s, f, m);
                        if k < j {
                            assert(painted(before, axis, p, s, f, m));
                        }
                    }
                }
            }
        }
        j = j + 1;
    }
    Some(result)
}

/// The second pass over all six face directions; direction `i` is merged along axis
/// `i / 2` (Y, X, Z).
pub fn secondary_pass(instances: [Option<[Vec<VoxelInstance>; 32]>; 6]) -> (r: [Option<Vec<VoxelInstance>>; 6])
    ensures
        forall|i: int| 0 <= i < 6 ==> (#[trigger] r@[i] is Some) == instances@[i] is Some,
        forall|i: int|
            0 <= i < 6 && #[trigger] instances@[i] is Some && lists_flat(instances@[i]->Some_0, axis_of(face_numbered(i)))
                ==> all_in_chunk(r@[i]->Some_0@, axis_of(face_numbered(i))),
        forall|i: int, p: int, s: int, f: int, m: u32|
            0 <= i < 6 && instances@[i] is Some && lists_flat(instances@[i]->Some_0, axis_of(face_numbered(i)))
                ==> #[trigger] painted(r@[i]->Some_0@, axis_of(face_numbered(i)), p, s, f, m) == lists_paint(
                instances@[i]->Some_0,
                axis_of(face_numbered(i)),
                p,
                s,
                f,
                m,
            ),
{
    let ghost orig = instances;
    let mut instances = instances;
    let mut out: [Option<Vec<VoxelInstance>>; 6] = [None, None, None, None, None, None];
    let mut i: usize = 0;
    while i < 6
        invariant
            i <= 6,
            forall|k: int| i <= k < 6 ==> #[trigger] instances@[k] == orig@[k],
            forall|k: int| 0 <= k < i ==> (#[trigger] out@[k] is Some) == orig@[k] is Some,
            forall|k: int|
                0 <= k < i && #[trigger] orig@[k] is Some && lists_flat(orig@[k]->Some_0, axis_of(face_numbered(k)))
                    ==> all_in_chunk(out@[k]->Some_0@, axis_of(face_numbered(k))),
            forall|k: int, p: int, s: int, f: int, m: u32|
                0 <= k < i && orig@[k] is Some && lists_flat(orig@[k]->Some_0, axis_of(face_numbered(k)))
                    ==> #[trigger] painted(out@[k]->Some_0@, axis_of(face_numbered(k)), p, s, f, m) == lists_paint(
                    orig@[k]->Some_0,
                    axis_of(face_numbered(k)),
                    p,
                    s,
                    f,
                    m,
                ),
        decreases 6 - i,
    {
        let inst = instances[i].take();
        let merged = secondary_pass_logic(inst, FaceAxis::from_usize(i));
        out[i] = merged;
        i = i + 1;
    }
    out
}

/// The fields of a run lie below 32, and its index is made of the three position fields.
proof fn lemma_fields(w: u32)
    by (bit_vector)
    ensures
        field(w, 0) < 32,
        field(w, 5) < 32,
        field(w, 10) < 32,
        field(w, 15) < 32,
        field(w, 20) < 32,
        (w & 0x7FFF) == field(w, 0) + 32 * field(w, 5) + 1024 * field(w, 10),
{
}

/// The word of the face bits that holds the voxel at (`p`, `s`, `f`) of a face looking
/// along `axis` (`x + 32 * z`).
pub open spec fn face_col(axis: FaceAxis, p: int, s: int, f: int) -> int {
    match axis {
        FaceAxis::Y => p + 32 * s,
        FaceAxis::X => f + 32 * s,
        FaceAxis::Z => s + 32 * f,
    }
}

/// The bit of that word (`y`).
pub open spec fn face_bit(axis: FaceAxis, p: int, f: int) -> int {
    match axis {
        FaceAxis::Y => f,
        _ => p,
    }
}

/// The face bits `bits` hold a face at (`p`, `s`, `f`) along `axis`, and `m` is the
/// material of its voxel in `data`, cut to the seven bits a run keeps.
pub open spec fn face_at(bits: Seq<u32>, data: Seq<u8>, axis: FaceAxis, p: int, s: int, f: int, m: u32) -> bool {
    &&& 0 <= p < 32
    &&& 0 <= s < 32
    &&& 0 <= f < 32
    &&& bit_at(bits[face_col(axis, p, s, f)], face_bit(axis, p, f) as u32)
    &&& m == data[face_col(axis, p, s, f) * 32 + face_bit(axis, p, f)] % 128
}

/// A column run that covers a voxel stands for a face of its column.
proof fn lemma_columns_paint_from(
    list: Seq<VoxelInstance>,
    bits: Seq<u32>,
    data: Seq<u8>,
    ax: FaceAxis,
    g: int,
    p: int,
    s: int,
    f: int,
    m: u32,
)
    requires
        bits.len() == 1024,
        data.len() == 32768,
        0 <= g < 32,
        ax == FaceAxis::X || ax == FaceAxis::Z,
        grouped_runs(list, bits, data, if ax == FaceAxis::X { x_group(g, 32) } else { z_group(g, 32) }),
        painted(list, ax, p, s, f, m),
    ensures
        f == g && face_at(bits, data, ax, p, s, f, m),
{
    let grp = if ax == FaceAxis::X { x_group(g, 32) } else { z_group(g, 32) };
    let k = choose|k: int| 0 <= k < list.len() && #[trigger] covers(list[k], ax, p, s, f) && list[k].spec_material() == m;
    let v = list[k];
    lemma_fields(v.0);
    let c = column_of(v);
    assert(grp(c) && column_run(v, bits[c], c, data));
    assert(c == field(v.0, 5) + 32 * field(v.0, 10));
    let t = p - v.spec_y();
    assert(bit_at(bits[c], (v.spec_y() + t) as u32));
}

/// A face of a column is covered by a column run.
proof fn lemma_columns_paint_to(
    list: Seq<VoxelInstance>,
    bits: Seq<u32>,
    data: Seq<u8>,
    ax: FaceAxis,
    g: int,
    p: int,
    s: int,
    f: int,
    m: u32,
)
    requires
        bits.len() == 1024,
        data.len() == 32768,
        0 <= g < 32,
        ax == FaceAxis::X || ax == FaceAxis::Z,
        grouped_runs(list, bits, data, if ax == FaceAxis::X { x_group(g, 32) } else { z_group(g, 32) }),
        f == g,
        face_at(bits, data, ax, p, s, f, m),
    ensures
        painted(list, ax, p, s, f, m),
{
    let grp = if ax == FaceAxis::X { x_group(g, 32) } else { z_group(g, 32) };
    let c = face_col(ax, p, s, f);
    assert(grp(c));
    assert(bit_at(bits[c], p as u32));
    let k = choose|k: int|
        0 <= k < list.len() && column_of(#[trigger] list[k]) == c && list[k].spec_y() <= p as u32 <= list[k].spec_y()
            + list[k].spec_primary();
    let v = list[k];
    lemma_fields(v.0);
    assert(column_run(v, bits[c], c, data));
    let t = p - v.spec_y();
    assert(bit_at(bits[c], (v.spec_y() + t) as u32));
    assert(data[c * 32 + v.spec_y() + t] == data[c * 32 + v.spec_y()]);
    assert(covers(list[k], ax, p, s, f));
}

/// The runs of the columns at `x = g` (X faces, as `dgm_x` lists them) or at `z = g`
/// (Z faces, as `dgm_z` lists them) are flat and inside the chunk, and paint exactly the
/// faces of those columns.
proof fn lemma_columns_paint(list: Seq<VoxelInstance>, bits: Seq<u32>, data: Seq<u8>, ax: FaceAxis, g: int)
    requires
        bits.len() == 1024,
        data.len() == 32768,
        0 <= g < 32,
        ax == FaceAxis::X || ax == FaceAxis::Z,
        grouped_runs(list, bits, data, if ax == FaceAxis::X { x_group(g, 32) } else { z_group(g, 32) }),
    ensures
        all_flat(list, ax),
        forall|p: int, s: int, f: int, m: u32|
            #[trigger] painted(list, ax, p, s, f, m) == (f == g && face_at(bits, data, ax, p, s, f, m)),
{
    assert forall|k: int| 0 <= k < list.len() implies flat_in_chunk(#[trigger] list[k], ax) by {
        lemma_fields(list[k].0);
    }
    assert forall|p: int, s: int, f: int, m: u32|
        #[trigger] painted(list, ax, p, s, f, m) == (f == g && face_at(bits, data, ax, p, s, f, m)) by {
        if painted(list, ax, p, s, f, m) {
            lemma_columns_paint_from(list, bits, data, ax, g, p, s, f, m);
        }
        if f == g && face_at(bits, data, ax, p, s, f, m) {
            lemma_columns_paint_to(list, bits, data, ax, g, p, s, f, m);
        }
    }
}

/// The runs of row `y`, as `dgm_y` lists them, are flat and inside the chunk, and paint
/// exactly the faces of that row.
proof fn lemma_y_paints(list: Seq<VoxelInstance>, bits: Seq<u32>, data: Seq<u8>, y: int)
    requires
        bits.len() == 1024,
        data.len() == 32768,
        0 <= y < 32,
        row_runs(list, bits, data, y),
    ensures
        all_flat(list, FaceAxis::Y),
        forall|p: int, s: int, f: int, m: u32|
            #[trigger] painted(list, FaceAxis::Y, p, s, f, m) == (f == y && face_at(bits, data, FaceAxis::Y, p, s, f, m)),
{
    let ax = FaceAxis::Y;
    assert forall|k: int| 0 <= k < list.len() implies flat_in_chunk(#[trigger] list[k], ax) by {
        lemma_fields(list[k].0);
        assert(row_run(list[k], bits, data, y));
    }
    assert forall|p: int, s: int, f: int, m: u32|
        #[trigger] painted(list, ax, p, s, f, m) == (f == y && face_at(bits, data, ax, p, s, f, m)) by {
        if painted(list, ax, p, s, f, m) {
            let k = choose|k: int| 0 <= k < list.len() && #[trigger] covers(list[k], ax, p, s, f) && list[k].spec_material() == m;
            let v = list[k];
            lemma_fields(v.0);
            assert(row_run(v, bits, data, y));
            let c = p + 32 * s;
            assert(covers_col(v, c));
        }
        if f == y && face_at(bits, data, ax, p, s, f, m) {
            let c = p + 32 * s;
            assert(bit_at(bits[c], y as u32));
            assert(covered(list, c));
            let k = choose|k: int| 0 <= k < list.len() && #[trigger] covers_col(list[k], c);
            let v = list[k];
            lemma_fields(v.0);
            assert(row_run(v, bits, data, y));
            assert(covers(list[k], ax, p, s, f));
        }
    }
}

/// Lists whose list `j` paints exactly the faces with fixed coordinate `j` paint, all
/// together, exactly the faces.
proof fn lemma_lists_paint(lists: [Vec<VoxelInstance>; 32], bits: Seq<u32>, data: Seq<u8>, ax: FaceAxis)
    requires
        forall|j: int, p: int, s: int, f: int, m: u32|
            0 <= j < 32 ==> #[trigger] painted(lists@[j]@, ax, p, s, f, m) == (f == j && face_at(bits, data, ax, p, s, f, m)),
    ensures
        forall|p: int, s: int, f: int, m: u32|
            #[trigger] lists_paint(lists, ax, p, s, f, m) == face_at(bits, data, ax, p, s, f, m),
{
    assert forall|p: int, s: int, f: int, m: u32|
        #[trigger] lists_paint(lists, ax, p, s, f, m) == face_at(bits, data, ax, p, s, f, m) by {
        if face_at(bits, data, ax, p, s, f, m) {
            assert(painted(lists@[f]@, ax, p, s, f, m));
        }
    }
}

/// The lists of `dgm_y` are flat and inside the chunk, and paint exactly the faces.
proof fn lemma_row_lists(lists: [Vec<VoxelInstance>; 32], bits: Seq<u32>, data: Seq<u8>)
    requires
        bits.len() == 1024,
        data.len() == 32768,
        forall|y: int| 0 <= y < 32 ==> row_runs((#[trigger] lists@[y])@, bits, data, y),
    ensures
        lists_flat(lists, FaceAxis::Y),
        forall|p: int, s: int, f: int, m: u32|
            #[trigger] lists_paint(lists, FaceAxis::Y, p, s, f, m) == face_at(bits, data, FaceAxis::Y, p, s, f, m),
{
    assert forall|j: int| 0 <= j < 32 implies all_flat((#[trigger] lists@[j])@, FaceAxis::Y) by {
        lemma_y_paints(lists@[j]@, bits, data, j);
    }
    assert forall|j: int, p: int, s: int, f: int, m: u32|
        0 <= j < 32 implies #[trigger] painted(lists@[j]@, FaceAxis::Y, p, s, f, m) == (f == j && face_at(
        bits,
        data,
        FaceAxis::Y,
        p,
        s,
        f,
        m,
    )) by {
        lemma_y_paints(lists@[j]@, bits, data, j);
    }
    lemma_lists_paint(lists, bits, data, FaceAxis::Y);
}

/// The lists of `dgm_x` (`ax` X) or `dgm_z` (`ax` Z) are flat and inside the chunk, and
/// paint exactly the faces.
proof fn lemma_column_lists(lists: [Vec<VoxelInstance>; 32], bits: Seq<u32>, data: Seq<u8>, ax: FaceAxis)
    requires
        bits.len() == 1024,
        data.len() == 32768,
        ax == FaceAxis::X || ax == FaceAxis::Z,
        forall|g: int|
            0 <= g < 32 ==> grouped_runs(
                (#[trigger] lists@[g])@,
                bits,
                data,
                if ax == FaceAxis::X { x_group(g, 32) } else { z_group(g, 32) },
            ),
    ensures
        lists_flat(lists, ax),
        forall|p: int, s: int, f: int, m: u32|
            #[trigger] lists_paint(lists, ax, p, s, f, m) == face_at(bits, data, ax, p, s, f, m),
{
    assert forall|j: int| 0 <= j < 32 implies all_flat((#[trigger] lists@[j])@, ax) by {
        lemma_columns_paint(lists@[j]@, bits, data, ax, j);
    }
    assert forall|j: int, p: int, s: int, f: int, m: u32|
        0 <= j < 32 implies #[trigger] painted(lists@[j]@, ax, p, s, f, m) == (f == j && face_at(
        bits,
        data,
        ax,
        p,
        s,
        f,
        m,
    )) by {
        lemma_columns_paint(lists@[j]@, bits, data, ax, j);
    }
    lemma_lists_paint(lists, bits, data, ax);
}

/// The first pass over the six directions' face bits (`None` where a direction was left
/// out): runs along Y faces' rows (`dgm_y`) and along the columns of X and Z faces
/// (`dgm_x`, `dgm_z`). Each direction's lists are flat and inside the chunk, and paint
/// exactly its faces, each in its voxel's material.
pub fn primary_pass(faces: [Option<OccupancyArray>; 6], arr: &LinearArray) -> (r: [Option<[Vec<VoxelInstance>; 32]>; 6])
    ensures
        forall|i: int| 0 <= i < 6 ==> (#[trigger] r@[i] is Some) == faces@[i] is Some,
        forall|i: int|
            0 <= i < 6 && #[trigger] faces@[i] is Some ==> lists_flat(r@[i]->Some_0, axis_of(face_numbered(i))),
        forall|i: int, p: int, s: int, f: int, m: u32|
            0 <= i < 6 && faces@[i] is Some ==> #[trigger] lists_paint(
                r@[i]->Some_0,
                axis_of(face_numbered(i)),
                p,
                s,
                f,
                m,
            ) == face_at(faces@[i]->Some_0.bits@, arr.data@, axis_of(face_numbered(i)), p, s, f, m),
{
    let ghost orig = faces;
    let mut faces = faces;
    let yp = match faces[0].take() {
        Some(f) => {
            let lists = dgm_y(f, arr);
            proof {
                lemma_row_lists(lists, f.bits@, arr.data@);
            }
            Some(lists)
        },
        None => None,
    };
    let yn = match faces[1].take() {
        Some(f) => {
            let lists = dgm_y(f, arr);
            proof {
                lemma_row_lists(lists, f.bits@, arr.data@);
            }
            Some(lists)
        },
        None => None,
    };
    let xp = match faces[2].take() {
        Some(f) => {
            let lists = dgm_x(f, arr);
            proof {
                lemma_column_lists(lists, f.bits@, arr.data@, FaceAxis::X);
            }
            Some(lists)
        },
        None => None,
    };
    let xn = match faces[3].take() {
        Some(f) => {
            let lists = dgm_x(f, arr);
            proof {
                lemma_column_lists(lists, f.bits@, arr.data@, FaceAxis::X);
            }
            Some(lists)
        },
        None => None,
    };
    let zp = match faces[4].take() {
        Some(f) => {
            let lists = dgm_z(f, arr);
            proof {
                lemma_column_lists(lists, f.bits@, arr.data@, FaceAxis::Z);
            }
            Some(lists)
        },
        None => None,
    };
    let zn = match faces[5].take() {
        Some(f) => {
            let lists = dgm_z(f, arr);
            proof {
                lemma_column_lists(lists, f.bits@, arr.data@, FaceAxis::Z);
            }
            Some(lists)
        },
        None => None,
    };
    let r = [yp, yn, xp, xn, zp, zn];
    proof {
        assert(r@[0] == yp && r@[1] == yn && r@[2] == xp && r@[3] == xn && r@[4] == zp && r@[5] == zn);
    }
    r
}

/// What `is_uniform` reports of chunk `a`: `Some(0)` when its bitmap counts no voxel,
/// `Some(m)` when every voxel is of material `m`, `None` otherwise.
pub open spec fn uniform_material(a: LinearArray) -> Option<u8> {
    if a.occupancy.count == 0 {
        Some(0u8)
    } else if forall|i: int| 0 <= i < 32768 ==> #[trigger] a.data@[i] == a.data@[0] {
        Some(a.data@[0])
    } else {
        None
    }
}

/// The run that `max_instance(FaceDirection::YP, m)` gives: at `x = 0`, `y = 31`,
/// `z = 0`, spanning 32 voxels both ways, in material `m` cut to seven bits.
pub open spec fn whole_face(v: VoxelInstance, m: u8) -> bool {
    &&& v.spec_x() == 0
    &&& v.spec_y() == 31
    &&& v.spec_z() == 0
    &&& v.spec_primary() == 31
    &&& v.spec_secondary() == 31
    &&& v.spec_material() == m % 128
}

/// The list of direction `d` of a mesh paints exactly the faces of `a` in direction `d`,
/// each in its voxel's material, with every run inside the chunk.
pub open spec fn meshes_faces(list: Seq<VoxelInstance>, a: LinearArray, d: int) -> bool {
    &&& all_in_chunk(list, axis_of(face_numbered(d)))
    &&& forall|p: int, s: int, f: int, m: u32|
        #[trigger] painted(list, axis_of(face_numbered(d)), p, s, f, m) == face_at(
            faces_of(a.occupancy.bits@, face_numbered(d)),
            a.data@,
            axis_of(face_numbered(d)),
            p,
            s,
            f,
            m,
        )
}

/// The faces, in the directions not excluded, through both passes.
fn mesh_pipeline(data: &LinearArray, exclude_faces: &[FaceDirection]) -> (r: [Vec<VoxelInstance>; 6])
    ensures
        forall|d: int|
            0 <= d < 6 && exclude_faces@.contains(face_numbered(d)) ==> (#[trigger] r@[d])@.len() == 0,
        forall|d: int|
            0 <= d < 6 && !exclude_faces@.contains(face_numbered(d)) ==> meshes_faces(
                (#[trigger] r@[d])@,
                *data,
                d,
            ),
{
    let faces = get_all_faces_simple(&data.occupancy.bits, exclude_faces);
    let first_pass = primary_pass(faces, data);
    let mut second = secondary_pass(first_pass);
    let ghost sec = second;
    let a = second[0].take().unwrap_or_default();
    let b = second[1].take().unwrap_or_default();
    let c = second[2].take().unwrap_or_default();
    let d = second[3].take().unwrap_or_default();
    let e = second[4].take().unwrap_or_default();
    let f = second[5].take().unwrap_or_default();
    let r = [a, b, c, d, e, f];
    proof {
        assert(r@[0] == a && r@[1] == b && r@[2] == c && r@[3] == d && r@[4] == e && r@[5] == f);
        assert forall|k: int| 0 <= k < 6 && sec@[k] is Some implies (#[trigger] r@[k]) == sec@[k]->Some_0 by {}
        assert forall|k: int| 0 <= k < 6 && sec@[k] is None implies (#[trigger] r@[k])@.len() == 0 by {}
        assert forall|k: int| 0 <= k < 6 && !exclude_faces@.contains(face_numbered(k)) implies meshes_faces(
            (#[trigger] r@[k])@,
            *data,
            k,
        ) by {
            assert(faces@[k] is Some);
            assert(first_pass@[k] is Some);
            let ax = axis_of(face_numbered(k));
            assert forall|p: int, s: int, f: int, m: u32|
                #[trigger] painted(r@[k]@, ax, p, s, f, m) == face_at(
                    faces_of(data.occupancy.bits@, face_numbered(k)),
                    data.data@,
                    ax,
                    p,
                    s,
                    f,
                    m,
                ) by {
                assert(painted(sec@[k]->Some_0@, ax, p, s, f, m) == lists_paint(first_pass@[k]->Some_0, ax, p, s, f, m));
            }
        }
    }
    r
}

/// The greedy mesh of a chunk, one list of runs per face direction in the order of
/// `FaceDirection`. An empty chunk gives no runs; a chunk of one material `m` gives in
/// every direction the single run that `max_instance(FaceDirection::YP, m)` gives;
/// any other chunk gives in each direction runs that stay inside the chunk and paint
/// exactly the chunk's faces in that direction, each in its voxel's material.
pub fn build_mesh(data: &LinearArray) -> (r: [Vec<VoxelInstance>; 6])
    ensures
        uniform_material(*data) == Some(0u8) ==> forall|d: int| 0 <= d < 6 ==> (#[trigger] r@[d])@.len() == 0,
        forall|d: int|
            0 <= d < 6 && uniform_material(*data) is Some && uniform_material(*data)->Some_0 != 0 ==> (
            #[trigger] r@[d])@.len() == 1 && whole_face(r@[d]@[0], uniform_material(*data)->Some_0),
        uniform_material(*data) is None ==> forall|d: int| 0 <= d < 6 ==> meshes_faces((#[trigger] r@[d])@, *data, d),
{
    if let Some(material) = data.is_uniform() {
        if material == 0 {
            return [Vec::new(), Vec::new(), Vec::new(), Vec::new(), Vec::new(), Vec::new()];
        }
        let maxi = VoxelInstance::max_instance(FaceDirection::YP, material);
        let r = [vec![maxi], vec![maxi], vec![maxi], vec![maxi], vec![maxi], vec![maxi]];
        proof {
            assert forall|d: int| 0 <= d < 6 implies (#[trigger] r@[d])@.len() == 1 && whole_face(r@[d]@[0], material) by {
                assert(r@[d]@[0] == maxi);
            }
        }
        return r;
    }
    let none: [FaceDirection; 0] = [];
    let r = mesh_pipeline(data, none.as_slice());
    proof {
        assert forall|d: int| 0 <= d < 6 implies meshes_faces((#[trigger] r@[d])@, *data, d) by {
            assert(!none@.contains(face_numbered(d)));
        }
    }
    r
}

/// `build_mesh` into `out`, leaving out the directions in `exclude_faces`: an empty
/// chunk leaves every list empty; otherwise each excluded direction's list is empty and
/// each other one paints exactly the chunk's faces in that direction, each in its
/// voxel's material.
pub fn build_mesh_into(data: &LinearArray, exclude_faces: &[FaceDirection], out: &mut TempChunkMeshData)
    ensures
        uniform_material(*data) == Some(0u8) ==> forall|d: int| 0 <= d < 6 ==> (#[trigger] final(out).data@[d])@.len() == 0,
        uniform_material(*data) != Some(0u8) ==> forall|d: int|
            0 <= d < 6 && exclude_faces@.contains(face_numbered(d)) ==> (#[trigger] final(out).data@[d])@.len() == 0,
        uniform_material(*data) != Some(0u8) ==> forall|d: int|
            0 <= d < 6 && !exclude_faces@.contains(face_numbered(d)) ==> meshes_faces(
                (#[trigger] final(out).data@[d])@,
                *data,
                d,
            ),
{
    out.clear();
    if let Some(material) = data.is_uniform() {
        if material == 0 {
            return;
        }
    }
    out.data = mesh_pipeline(data, exclude_faces);
}

/// In a mesh list of direction `d` that `meshes_faces` (as `build_mesh` gives for a chunk
/// of more than one material), a voxel of a well-formed chunk is painted exactly when it
/// is not air and its neighbor in direction `d` is air or outside the chunk, and then in
/// its material cut to seven bits.
pub proof fn lemma_mesh_shows_visible_faces(
    list: Seq<VoxelInstance>,
    a: LinearArray,
    d: int,
    p: int,
    s: int,
    f: int,
    m: u32,
)
    requires
        a.wf(),
        0 <= d < 6,
        meshes_faces(list, a, d),
        0 <= p < 32,
        0 <= s < 32,
        0 <= f < 32,
    ensures
        ({
            let ax = axis_of(face_numbered(d));
            let idx = face_col(ax, p, s, f) * 32 + face_bit(ax, p, f);
            painted(list, ax, p, s, f, m) == (a.data@[idx] != 0 && match neighbor(idx, face_numbered(d)) {
                Some(n) => a.data@[n] == 0,
                None => true,
            } && m == a.data@[idx] % 128)
        }),
{
    let ax = axis_of(face_numbered(d));
    let idx = face_col(ax, p, s, f) * 32 + face_bit(ax, p, f);
    let occ = a.occupancy.bits@;
    lemma_face_bits(occ, face_numbered(d), idx);
    assert(idx / 32 == face_col(ax, p, s, f) && idx % 32 == face_bit(ax, p, f));
    assert(marked(occ, idx) == (a.data@[idx] != 0));
    match neighbor(idx, face_numbered(d)) {
        Some(n) => {
            assert(0 <= n < 32768);
            assert(marked(occ, n) == (a.data@[n] != 0));
        },
        None => {},
    }
}

} // verus!
