//! Byte blobs tagged with the kind of file they hold.

use vstd::prelude::*;

use core::marker::PhantomData;

use crate::buffers::bytes::{fits_after_growth, placed, str_record_at, write_len_prefixed};
use crate::buffers::error::{Error, Result};
use crate::buffers::offsets::u32_at;
use crate::buffers::vec::{pow2_limit, BufferVec, TailOffset};
use crate::scalars::read_scalar_at;

verus! {

/// A kind of file, named by its MIME type.
pub trait FileKind {
    const MIME: &'static str;
}

#[derive(Default, Copy, Clone, PartialEq, Eq, Debug)]
pub struct Jpeg;

impl FileKind for Jpeg {
    const MIME: &'static str = "image/jpeg";
}

#[derive(Default, Copy, Clone, PartialEq, Eq, Debug)]
pub struct Png;

impl FileKind for Png {
    const MIME: &'static str = "image/png";
}

#[derive(Default, Copy, Clone, PartialEq, Eq, Debug)]
pub struct Gif;

impl FileKind for Gif {
    const MIME: &'static str = "image/gif";
}

#[derive(Default, Copy, Clone, PartialEq, Eq, Debug)]
pub struct WebP;

impl FileKind for WebP {
    const MIME: &'static str = "image/webp";
}

#[derive(Default, Copy, Clone, PartialEq, Eq, Debug)]
pub struct Pdf;

impl FileKind for Pdf {
    const MIME: &'static str = "application/pdf";
}

#[derive(Default, Copy, Clone, PartialEq, Eq, Debug)]
pub struct Json;

impl FileKind for Json {
    const MIME: &'static str = "application/json";
}

/// The bytes of a file of kind `T`.
pub struct FileBlob<T: FileKind> {
    pub data: Vec<u8>,
    pub _ext: PhantomData<T>,
}

/// A borrowed view of the bytes of a file of kind `T`.
pub struct FileBlobView<'a, T: FileKind> {
    pub data: &'a [u8],
    pub _ext: PhantomData<T>,
}

impl<'a, T: FileKind> Clone for FileBlobView<'a, T> {
    fn clone(&self) -> (r: Self)
        ensures
            r.data == self.data,
    {
        FileBlobView { data: self.data, _ext: PhantomData }
    }
}

impl<'a, T: FileKind> Copy for FileBlobView<'a, T> {}

impl<'a, T: FileKind> FileBlobView<'a, T> {
    pub fn mime() -> (r: &'static str)
        ensures
            r == T::MIME,
    {
        T::MIME
    }

    pub fn len(&self) -> (r: usize)
        ensures
            r == self.data@.len(),
    {
        self.data.len()
    }

    pub fn is_empty(&self) -> (r: bool)
        ensures
            r == (self.data@.len() == 0),
    {
        self.data.len() == 0
    }

    pub fn as_bytes(&self) -> (r: &'a [u8])
        ensures
            r@ == self.data@,
    {
        self.data
    }
}

impl<'a, T: FileKind> Default for FileBlobView<'a, T> {
    fn default() -> (r: Self)
        ensures
            r.data@.len() == 0,
    {
        let empty: &[u8] = &[];
        Self { data: empty, _ext: PhantomData }
    }
}

impl<T: FileKind> FileBlob<T> {
    pub fn new(data: Vec<u8>) -> (r: Self)
        ensures
            r.data@ == data@,
    {
        Self { data, _ext: PhantomData }
    }

    pub fn is_empty(&self) -> (r: bool)
        ensures
            r == (self.data@.len() == 0),
    {
        self.data.len() == 0
    }

    pub fn mime() -> (r: &'static str)
        ensures
            r == T::MIME,
    {
        T::MIME
    }

    pub fn len(&self) -> (r: usize)
        ensures
            r == self.data@.len(),
    {
        self.data.len()
    }

    /// Writes the blob as a 4-byte length and its bytes, on a 4-byte boundary in
    /// front of the buffer's payload, growing the buffer when needed.
    pub fn write_to(&self, buffer: &mut BufferVec) -> (r: Result<TailOffset>)
        requires
            old(buffer).wf(),
            old(buffer).data@.len() + self.data@.len() + 12 <= pow2_limit(),
            fits_after_growth(*old(buffer), self.data@.len() + 4int, 4, 0),
        ensures
            placed(
                *old(buffer),
                *final(buffer),
                r,
                self.data@.len() + 4int,
                4,
                0,
                str_record_at(final(buffer).data@, final(buffer).cursor as int, self.data@),
            ),
    {
        write_len_prefixed(self.data.as_slice(), buffer)
    }

    /// Views the blob record at `offset`: a 4-byte length, then the bytes.
    pub fn read_at<'a>(buf: &'a [u8], offset: usize) -> (r: FileBlobView<'a, T>)
        requires
            offset + 4 <= buf@.len(),
            offset + 4 + u32_at(buf@, offset as int)->Some_0 <= buf@.len(),
        ensures
            r.data@ == buf@.subrange(
                offset + 4,
                offset + 4 + u32_at(buf@, offset as int)->Some_0,
            ),
    {
        let n = buf.len();
        let len: u32 = read_scalar_at::<u32>(buf, offset);
        let data = vstd::slice::slice_subrange(buf, offset + 4, offset + 4 + len as usize);
        FileBlobView { data, _ext: PhantomData }
    }

    /// The position just past the blob record at `pos`.
    pub fn payload_block_end(buf: &[u8], pos: usize) -> (r: usize)
        requires
            pos + 4 <= buf@.len(),
            pos + 4 + u32_at(buf@, pos as int)->Some_0 <= usize::MAX,
        ensures
            r == pos + 4 + u32_at(buf@, pos as int)->Some_0,
    {
        let len: u32 = read_scalar_at::<u32>(buf, pos);
        pos + 4 + len as usize
    }
}

impl<T: FileKind> Clone for FileBlob<T> {
    fn clone(&self) -> (r: Self)
        ensures
            r.data@ == self.data@,
    {
        Self { data: self.data.clone(), _ext: PhantomData }
    }
}

impl<T: FileKind> Default for FileBlob<T> {
    fn default() -> (r: Self)
        ensures
            r.data@.len() == 0,
    {
        Self { data: Vec::new(), _ext: PhantomData }
    }
}

} // verus!
