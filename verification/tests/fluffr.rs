use raw::buffers::vec::BufferVec;
use raw::fluffr::file_kind::{FileBlob, FileBlobView, FileKind, Gif, Jpeg, Json, Pdf, Png, WebP};
use raw::fluffr::meta::FieldCategory;
use raw::fluffr::reverse_index::ReverseIndex;
use raw::fluffr::{bitmax, DataType};

#[test]
fn data_type_flags() {
    assert!(DataType::Inline.is_inline_flag());
    assert!(!DataType::Inline.is_offset_flag());
    assert!(DataType::Offset.is_offset_flag());
    assert!(DataType::Union.is_offset_flag());
    assert!(DataType::Union.is_union_flag());
    assert!(!DataType::Offset.is_union_flag());
}

#[test]
fn bitmax_is_the_larger() {
    assert_eq!(bitmax(3, 9), 9);
    assert_eq!(bitmax(9, 3), 9);
    assert_eq!(bitmax(4, 4), 4);
    assert_eq!(bitmax(0, usize::MAX), usize::MAX);
}

#[test]
fn field_category_rules() {
    assert_eq!(FieldCategory::Inline.complexity(), 0);
    assert_eq!(FieldCategory::Table.complexity(), 1);
    assert_eq!(FieldCategory::Union.complexity(), 2);
    assert_eq!(FieldCategory::String.complexity(), 3);
    assert_eq!(FieldCategory::FileBlob.complexity(), 3);
    let nested = FieldCategory::List(Box::new(FieldCategory::List(Box::new(FieldCategory::String))));
    assert_eq!(nested.complexity(), 11);
    assert!(!FieldCategory::Inline.is_indirect());
    assert!(nested.is_indirect());
    assert!(FieldCategory::Inline.can_key());
    assert!(FieldCategory::String.can_key());
    assert!(!FieldCategory::Table.can_key());
}

#[test]
fn reverse_index_conversions() {
    let r = ReverseIndex::end();
    assert_eq!(r.val(), 0);
    assert_eq!(r.invert(10), 10);
    let r = r.minus(4);
    assert_eq!(r.invert(10), 6);
    let mut r2 = r;
    r2.plus_assign(1);
    assert_eq!(r2.val(), 3);
    r2.minus_assign(5);
    assert_eq!(r2.val(), 8);
    assert_eq!(r2.plus(8), ReverseIndex::end());
}

#[test]
fn file_kinds_and_blobs() {
    assert_eq!(Jpeg::MIME, "image/jpeg");
    assert_eq!(Png::MIME, "image/png");
    assert_eq!(Gif::MIME, "image/gif");
    assert_eq!(WebP::MIME, "image/webp");
    assert_eq!(Pdf::MIME, "application/pdf");
    assert_eq!(FileBlob::<Json>::mime(), "application/json");
    assert_eq!(FileBlobView::<Pdf>::mime(), "application/pdf");

    let blob = FileBlob::<Png>::new(vec![1, 2, 3]);
    assert_eq!(blob.len(), 3);
    assert!(!blob.is_empty());
    assert!(FileBlob::<Png>::default().is_empty());
    assert_eq!(blob.clone().data, vec![1, 2, 3]);

    let mut buffer = BufferVec::with_size(4, 1 << 20);
    let h = blob.write_to(&mut buffer).unwrap();
    let pos = h.get_access(buffer.size());
    assert_eq!(pos % 4, 0);
    let view = FileBlob::<Png>::read_at(&buffer.data, pos);
    assert_eq!(view.as_bytes(), &[1, 2, 3]);
    assert_eq!(view.len(), 3);
    assert!(!view.is_empty());
    assert_eq!(FileBlob::<Png>::payload_block_end(&buffer.data, pos), pos + 7);
    assert!(FileBlobView::<Png>::default().is_empty());

    // An empty blob is still written: a zero length.
    let empty = FileBlob::<Png>::new(Vec::new());
    let h = empty.write_to(&mut buffer).unwrap();
    let pos = h.get_access(buffer.size());
    assert!(FileBlob::<Png>::read_at(&buffer.data, pos).is_empty());
}
