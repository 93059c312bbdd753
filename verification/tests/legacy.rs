use std::marker::PhantomData;

use raw::follow::Follow;
use raw::index::ReverseIndex;
use raw::offsets::{RevOffset, SOffset, SkipPrefixHeader, SkipRootOffset, UOffset, VtableOffset};
use raw::push::{Push, PushAlignment};
use raw::scalars::{read_scalar, read_scalar_at, wire_to_buf};
use raw::work::aloc::{Allocator, BufferWriter, DefaultAllocator};

#[test]
fn scalars_read_back_what_was_written() {
    let mut buf = [0u8; 16];
    wire_to_buf::<i32>(&mut buf, -2);
    assert_eq!(read_scalar::<i32>(&buf), -2);
    assert_eq!(&buf[0..4], &[0xFE, 0xFF, 0xFF, 0xFF]);
    wire_to_buf::<u64>(&mut buf[4..], 0x0102_0304_0506_0708);
    assert_eq!(read_scalar_at::<u64>(&buf, 4), 0x0102_0304_0506_0708);
    assert_eq!(buf[4], 0x08);
}

#[test]
fn legacy_follow_chains_offsets() {
    let mut buf = vec![0u8; 32];
    // root offset at 0 -> table-ish u32 at 8
    buf[0..4].copy_from_slice(&8u32.to_le_bytes());
    buf[8..12].copy_from_slice(&0xABCDu32.to_le_bytes());
    assert_eq!(<UOffset<u32>>::follow(&buf, 0), 0xABCD);
    assert_eq!(<SkipPrefixHeader<u32>>::follow(&buf, 4), 0xABCD);
    assert_eq!(<SkipRootOffset<u32>>::follow(&buf, 4), 0xABCD);

    // a vtable offset at 12 -> u16 at 14 + 2
    buf[12..14].copy_from_slice(&4u16.to_le_bytes());
    buf[16..18].copy_from_slice(&77u16.to_le_bytes());
    assert_eq!(<VtableOffset<u16>>::follow(&buf, 12), 77);

    // a backward offset at 20 -> 20 - 12 = 8
    buf[20..24].copy_from_slice(&12i32.to_le_bytes());
    assert_eq!(<SOffset<u32>>::follow(&buf, 20), 0xABCD);

    buf[24] = 2;
    assert!(bool::follow(&buf, 24));
    assert!(!bool::follow(&buf, 25));
}

#[test]
fn legacy_push_writes_wire_forms() {
    let mut dst = [0xAAu8; 8];
    7u16.push(&mut dst, 0);
    assert_eq!(&dst[0..3], &[7, 0, 0xAA]);
    true.push(&mut dst, 0);
    assert_eq!(dst[0], 1);
    (&5u32).push(&mut dst, 0);
    assert_eq!(&dst[0..4], &[5, 0, 0, 0]);

    // A reverse offset 10 from the end, pushed with 20 bytes written: 4 + 20 - 10.
    let rev: RevOffset<u32> = RevOffset::new(10);
    assert_eq!(rev.value(), 10);
    assert!(rev == RevOffset::new(10));
    rev.push(&mut dst, 20);
    assert_eq!(&dst[0..4], &14u32.to_le_bytes());

    UOffset::<u8>(9, PhantomData).push(&mut dst, 0);
    assert_eq!(&dst[0..4], &9u32.to_le_bytes());
    VtableOffset::<u8>(3, PhantomData).push(&mut dst, 0);
    assert_eq!(&dst[0..2], &3u16.to_le_bytes());
    SOffset::<u8>(-1, PhantomData).push(&mut dst, 0);
    assert_eq!(&dst[0..4], &(-1i32).to_le_bytes());

    assert_eq!(<u64 as Push>::size(), 8);
    assert_eq!(<u32 as Push>::alignment().value(), 4);
    let a = PushAlignment::new(4);
    assert_eq!(a.max_of(8).value(), 8);
    assert_eq!(a.max_of(2).value(), 4);
}

#[test]
fn reverse_index_in_slices() {
    let buf = [10, 20, 30, 40, 50];
    let i = ReverseIndex(2);
    assert_eq!(i.invert(&buf), 3);
    assert_eq!(*i.index_in(&buf), 40);
    assert_eq!(i.minus(2).range_to(i).slice_in(&buf), &[20, 30]);
    assert_eq!(i.range_to_end().slice_in(&buf), &[40, 50]);
    assert_eq!(i.plus(2), ReverseIndex::end());
    let mut j = i;
    j.minus_assign(1);
    j.plus_assign(3);
    assert_eq!(j.val(), 0);
}

#[test]
fn default_allocator_grows_to_the_end() {
    let mut a = DefaultAllocator::from_vec(vec![1, 2, 3]);
    assert_eq!(a.len(), 3);
    a.grow().unwrap();
    assert_eq!(a.0, vec![0, 0, 0, 1, 2, 3]);
    let mut e = DefaultAllocator::default();
    e.grow().unwrap();
    assert_eq!(e.0, vec![0]);
}

#[test]
fn buffer_writer_starts_empty() {
    let w = BufferWriter::new();
    assert_eq!(w.head.val(), 0);
    assert_eq!(w.allocator.len(), 0);
    let w = BufferWriter::with_capacity(16);
    assert_eq!(w.allocator.len(), 16);
    let w = BufferWriter::from_buffer(vec![0; 8]);
    assert_eq!(w.allocator.0.len(), 8);
    let w: BufferWriter<'_, DefaultAllocator> = BufferWriter::new_in(DefaultAllocator::default());
    assert_eq!(w.head, ReverseIndex::end());
}
