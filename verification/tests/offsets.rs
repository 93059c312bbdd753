use raw::buffers::bytes::RawBytes;
use raw::buffers::error::Error;
use raw::buffers::offsets::{Follow, SOffset, StrVector, Table, UOffset};
use raw::buffers::vec::BufferVec;

// ---- round trips against the real writer ------------------------------

#[test]
fn primitives_follow_written_records() {
    let mut buffer = BufferVec::with_size(1024, 1 << 20);
    let h_u32 = 0xDEADBEEFu32.into_buffer(&mut buffer).unwrap();
    let h_i64 = (-42i64).into_buffer(&mut buffer).unwrap();
    let h_f64 = std::f64::consts::PI.to_bits().into_buffer(&mut buffer).unwrap();

    let sz = buffer.size();
    assert_eq!(u32::follow(&buffer.data, h_u32.get_access(sz)).unwrap(), 0xDEADBEEF);
    assert_eq!(i64::follow(&buffer.data, h_i64.get_access(sz)).unwrap(), -42);
    assert_eq!(
        f64::from_bits(u64::follow(&buffer.data, h_f64.get_access(sz)).unwrap()),
        std::f64::consts::PI
    );
}

#[test]
fn str_follow_written_records() {
    let mut buffer = BufferVec::with_size(16, 1 << 20); // tiny: forces growth
    let cases = ["A", "unaligned_3", "a longer string crossing a growth boundary"];
    let handles: Vec<_> = cases.iter().map(|s| s.into_buffer(&mut buffer).unwrap()).collect();

    let sz = buffer.size();
    for (h, expected) in handles.iter().zip(cases.iter()) {
        let got = <&str>::follow(&buffer.data, h.get_access(sz)).unwrap();
        assert_eq!(got, *expected);
    }
}

#[test]
fn num_array_follow_written_records() {
    let mut buffer = BufferVec::with_size(1024, 1 << 20);
    let data: &[u64] = &[u64::MAX, 0, 42];
    let h = data.into_buffer(&mut buffer).unwrap();
    let got = <&[u64]>::follow(&buffer.data, h.get_access(buffer.size())).unwrap();
    assert_eq!(got, data);
}

#[test]
fn str_vector_reads_written_array_with_skips() {
    let mut buffer = BufferVec::with_size(4, 1 << 20);
    let corpus = ["", "first", "", "middle", "tail entry longer than most", ""];
    let h = corpus.as_slice().into_buffer(&mut buffer).unwrap();

    let v = StrVector::follow(&buffer.data, h.get_access(buffer.size())).unwrap();
    assert_eq!(v.len(), corpus.len());
    assert!(!v.is_empty());
    for (i, expected) in corpus.iter().enumerate() {
        assert_eq!(v.get(i).unwrap(), *expected, "index {i}");
    }
    assert_eq!(v.get(corpus.len()).unwrap_err(), Error::OutOfBounds);
    let all: Vec<&str> = v.iter().into_iter().map(|r| r.unwrap()).collect();
    assert_eq!(all, corpus.to_vec());

    // The slot of entry 1 leads forward to "first".
    let base = h.get_access(buffer.size());
    assert_eq!(UOffset::<&str>::follow(&buffer.data, base + 8).unwrap(), "first");
}

// ---- table / vtable mechanics -----------------------------------------

/// Hand-crafted buffer defining the vtable convention:
///   pos 0:  vtable  [len=8][table_len=12][field0_off=4][field1_off=0]
///   pos 8:  table   [soffset=8 -> vtable at 0][field0: u32 @ table+4]
fn craft_table_buffer() -> Vec<u8> {
    let mut buf = vec![0u8; 20];
    buf[0..2].copy_from_slice(&8u16.to_le_bytes());
    buf[2..4].copy_from_slice(&12u16.to_le_bytes());
    buf[4..6].copy_from_slice(&4u16.to_le_bytes());
    buf[6..8].copy_from_slice(&0u16.to_le_bytes());
    buf[8..12].copy_from_slice(&8i32.to_le_bytes());
    buf[12..16].copy_from_slice(&0xCAFEBABEu32.to_le_bytes());
    buf
}

#[test]
fn table_field_resolution() {
    let buf = craft_table_buffer();
    let t = Table::follow(&buf, 8).unwrap();

    // present field
    assert_eq!(t.get::<u32>(0).unwrap(), Some(0xCAFEBABE));
    // suppressed field (slot holds 0)
    assert_eq!(t.get::<u32>(1).unwrap(), None);
    // schema evolution: field id beyond this vtable -> None, not error
    assert_eq!(t.get::<u32>(7).unwrap(), None);
    // default substitution
    assert_eq!(t.get_or::<u32>(1, 777).unwrap(), 777);
    assert_eq!(t.get_or::<u32>(0, 777).unwrap(), 0xCAFEBABE);
}

#[test]
fn table_rejects_malformed_vtables() {
    // soffset pointing before the buffer start
    let mut buf = craft_table_buffer();
    buf[8..12].copy_from_slice(&1000i32.to_le_bytes());
    assert_eq!(Table::follow(&buf, 8).unwrap_err(), Error::OutOfBounds);

    // vtable length shorter than its own header
    let mut buf = craft_table_buffer();
    buf[0..2].copy_from_slice(&2u16.to_le_bytes());
    assert_eq!(Table::follow(&buf, 8).unwrap_err(), Error::OutOfBounds);

    // vtable length running past the buffer
    let mut buf = craft_table_buffer();
    buf[0..2].copy_from_slice(&64u16.to_le_bytes());
    assert_eq!(Table::follow(&buf, 8).unwrap_err(), Error::OutOfBounds);
}

// ---- adversarial input: errors, never panics ---------------------------

#[test]
fn truncated_input_errors_not_panics() {
    let tiny = [0u8; 2];
    assert_eq!(UOffset::<u32>::follow(&tiny, 0).unwrap_err(), Error::OutOfBounds);
    assert_eq!(SOffset::<u32>::follow(&tiny, 0).unwrap_err(), Error::OutOfBounds);
    assert_eq!(UOffset::<&str>::follow(&tiny, 0).unwrap_err(), Error::OutOfBounds);
    assert_eq!(u64::follow(&tiny, 0).unwrap_err(), Error::OutOfBounds);
    assert_eq!(<&str>::follow(&tiny, 0).unwrap_err(), Error::OutOfBounds);
    assert_eq!(Table::follow(&tiny, 0).unwrap_err(), Error::OutOfBounds);

    // loc past the end entirely
    assert_eq!(u8::follow(&tiny, 5).unwrap_err(), Error::OutOfBounds);
}

#[test]
fn hostile_lengths_and_offsets_error() {
    // string length prefix far past buffer end
    let mut evil = vec![0u8; 8];
    evil[0..4].copy_from_slice(&(1_000_000u32).to_le_bytes());
    assert_eq!(<&str>::follow(&evil, 0).unwrap_err(), Error::OutOfBounds);

    // array count * elem size overflowing usize must not wrap
    let mut wrap = vec![0u8; 8];
    wrap[0..4].copy_from_slice(&u32::MAX.to_le_bytes());
    assert_eq!(<&[u128]>::follow(&wrap, 0).unwrap_err(), Error::OutOfBounds);

    // SOffset whose subtraction would go negative
    let mut back = vec![0u8; 8];
    back[0..4].copy_from_slice(&100i32.to_le_bytes());
    assert_eq!(SOffset::<u32>::follow(&back, 0).unwrap_err(), Error::OutOfBounds);

    // invalid UTF-8 is an error
    let mut bad = vec![0u8; 8];
    bad[0..4].copy_from_slice(&2u32.to_le_bytes());
    bad[4] = 0xFF;
    bad[5] = 0xFE;
    assert_eq!(<&str>::follow(&bad, 0).unwrap_err(), Error::InvalidUtf8);
}

#[test]
fn misaligned_array_pointer_errors() {
    // Deterministically misaligned: back the bytes with a Vec<u64> so the
    // base pointer is 8-aligned, then place a u64 array record at loc 0 —
    // its payload starts at base+4, provably misaligned for u64.
    let mut backing: Vec<u64> = vec![0; 4];
    let bytes: &mut [u8] = bytemuck::cast_slice_mut(backing.as_mut_slice());
    assert_eq!(bytes.len(), 32);
    bytes[0..4].copy_from_slice(&2u32.to_le_bytes()); // count = 2

    let result = <&[u64]>::follow(bytes, 0);
    assert_eq!(result.unwrap_err(), Error::Misaligned);

    // Same data at loc 4: payload at base+8, correctly aligned
    bytes[4..8].copy_from_slice(&2u32.to_le_bytes());
    assert!(<&[u64]>::follow(bytes, 4).is_ok());
}

#[test]
fn composed_wrappers() {
    // 1. UOffset<&str>: A forward u32 pointing at a string record.
    let mut buf = vec![0u8; 24];
    buf[0..4].copy_from_slice(&8u32.to_le_bytes());
    buf[8..12].copy_from_slice(&5u32.to_le_bytes());
    buf[12..17].copy_from_slice(b"hello");
    assert_eq!(UOffset::<&str>::follow(&buf, 0).unwrap(), "hello");

    // 2. Nested: UOffset<UOffset<u32>>
    let mut buf = vec![0u8; 16];
    buf[0..4].copy_from_slice(&4u32.to_le_bytes());
    buf[4..8].copy_from_slice(&4u32.to_le_bytes());
    buf[8..12].copy_from_slice(&0xABCDu32.to_le_bytes());
    assert_eq!(UOffset::<UOffset<u32>>::follow(&buf, 0).unwrap(), 0xABCD);
}
