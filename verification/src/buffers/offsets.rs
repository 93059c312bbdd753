use vstd::prelude::*;
use vstd::string::StringSliceAdditionalSpecFns;
use vstd::utf8::{decode_utf8, encode_utf8, valid_utf8};

use core::marker::PhantomData;

use crate::buffers::error::{Error, Result};
use crate::buffers::bytes::elem_at;
use crate::scalars::{le_value, read_le, LeScalar, lemma_le_value_bound, lemma_pow256_values};

verus! {

// =========================================================================
// The reading trait
// =========================================================================

/// Reads a value out of a byte buffer at an absolute position. Every access is
/// bounds-checked: malformed or truncated input yields an error, never a panic.
pub trait Follow<'a>: Sized {
    type Inner;

    /// `r` is a possible outcome of reading at `loc` in `buf`.
    spec fn follows(buf: Seq<u8>, loc: int, r: Result<Self::Inner>) -> bool;

    fn follow(buf: &'a [u8], loc: usize) -> (r: Result<Self::Inner>)
        ensures
            Self::follows(buf@, loc as int, r),
    ;
}

/// The number that the 4 bytes at `loc` denote, if they are in the buffer.
pub open spec fn u32_at(buf: Seq<u8>, loc: int) -> Option<nat> {
    if 0 <= loc && loc + 4 <= buf.len() {
        Some(le_value(buf.subrange(loc, loc + 4)))
    } else {
        None
    }
}

/// The number that the 2 bytes at `loc` denote, if they are in the buffer.
pub open spec fn u16_at(buf: Seq<u8>, loc: int) -> Option<nat> {
    if 0 <= loc && loc + 2 <= buf.len() {
        Some(le_value(buf.subrange(loc, loc + 2)))
    } else {
        None
    }
}

/// The signed number that the 4 bytes at `loc` denote, if they are in the buffer.
pub open spec fn i32_at(buf: Seq<u8>, loc: int) -> Option<int> {
    match u32_at(buf, loc) {
        Some(v) => Some(
            if v < 0x8000_0000 {
                v as int
            } else {
                v - 0x1_0000_0000
            },
        ),
        None => None,
    }
}

/// Reads a little-endian u32 at `loc`.
fn read_u32(buf: &[u8], loc: usize) -> (r: Result<u32>)
    ensures
        match u32_at(buf@, loc as int) {
            None => r == Err::<u32, Error>(Error::OutOfBounds),
            Some(v) => r == Ok::<u32, Error>(v as u32) && v < 0x1_0000_0000,
        },
{
    if loc > buf.len() || buf.len() - loc < 4 {
        return Err(Error::OutOfBounds);
    }
    let v = read_le(buf, loc, 4);
    proof {
        lemma_le_value_bound(buf@.subrange(loc as int, loc + 4));
        lemma_pow256_values();
    }
    Ok(v as u32)
}

/// Reads a little-endian u16 at `loc`.
fn read_u16(buf: &[u8], loc: usize) -> (r: Result<u16>)
    ensures
        match u16_at(buf@, loc as int) {
            None => r == Err::<u16, Error>(Error::OutOfBounds),
            Some(v) => r == Ok::<u16, Error>(v as u16) && v < 0x1_0000,
        },
{
    if loc > buf.len() || buf.len() - loc < 2 {
        return Err(Error::OutOfBounds);
    }
    let v = read_le(buf, loc, 2);
    proof {
        lemma_le_value_bound(buf@.subrange(loc as int, loc + 2));
        lemma_pow256_values();
    }
    Ok(v as u16)
}

/// Reads a little-endian i32 at `loc`.
fn read_i32(buf: &[u8], loc: usize) -> (r: Result<i32>)
    ensures
        match i32_at(buf@, loc as int) {
            None => r == Err::<i32, Error>(Error::OutOfBounds),
            Some(v) => r == Ok::<i32, Error>(v as i32) && i32::MIN <= v <= i32::MAX,
        },
{
    let v = read_u32(buf, loc)?;
    if v < 0x8000_0000 {
        Ok(v as i32)
    } else {
        Ok((v as i64 - 0x1_0000_0000) as i32)
    }
}

// =========================================================================
// Integers
// =========================================================================

/// Integers are read from their little-endian bytes.
impl<'a, T: LeScalar> Follow<'a> for T {
    type Inner = T;

    open spec fn follows(buf: Seq<u8>, loc: int, r: Result<T>) -> bool {
        if loc + T::spec_width() > buf.len() {
            r == Err::<T, Error>(Error::OutOfBounds)
        } else {
            r matches Ok(v) && v.spec_wire() == le_value(buf.subrange(loc, loc + T::spec_width()))
        }
    }

    fn follow(buf: &'a [u8], loc: usize) -> (r: Result<T>) {
        let w = T::width();
        if loc > buf.len() || buf.len() - loc < w {
            return Err(Error::OutOfBounds);
        }
        let v = read_le(buf, loc, w);
        proof {
            lemma_le_value_bound(buf@.subrange(loc as int, loc + w));
        }
        Ok(T::from_wire(v))
    }
}

// =========================================================================
// Layout wrappers
// =========================================================================

/// A forward u32 offset, relative to the slot that holds it.
pub struct UOffset<T>(pub PhantomData<T>);

/// A selector among alternatives.
pub struct Select<T>(pub PhantomData<T>);

/// A backward i32 offset, subtracted from the slot position.
pub struct SOffset<T>(pub PhantomData<T>);

/// A u16 offset relative to a table.
pub struct VOffset<T>(pub PhantomData<T>);

impl<T> Clone for UOffset<T> {
    fn clone(&self) -> (r: Self) {
        UOffset(PhantomData)
    }
}

impl<T> Copy for UOffset<T> {}

impl<T> Clone for Select<T> {
    fn clone(&self) -> (r: Self) {
        Select(PhantomData)
    }
}

impl<T> Copy for Select<T> {}

impl<T> Clone for SOffset<T> {
    fn clone(&self) -> (r: Self) {
        SOffset(PhantomData)
    }
}

impl<T> Copy for SOffset<T> {}

impl<T> Clone for VOffset<T> {
    fn clone(&self) -> (r: Self) {
        VOffset(PhantomData)
    }
}

impl<T> Copy for VOffset<T> {}

impl<'a, T: Follow<'a>> Follow<'a> for UOffset<T> {
    type Inner = T::Inner;

    open spec fn follows(buf: Seq<u8>, loc: int, r: Result<T::Inner>) -> bool {
        match u32_at(buf, loc) {
            None => r == Err::<T::Inner, Error>(Error::OutOfBounds),
            Some(off) => if loc + off > usize::MAX {
                r == Err::<T::Inner, Error>(Error::OutOfBounds)
            } else {
                T::follows(buf, loc + off, r)
            },
        }
    }

    fn follow(buf: &'a [u8], loc: usize) -> (r: Result<T::Inner>) {
        let offset = read_u32(buf, loc)? as usize;
        if offset > usize::MAX - loc {
            return Err(Error::OutOfBounds);
        }
        T::follow(buf, loc + offset)
    }
}

/// Where a backward offset read at `loc` leads: `Err` when the slot is out of the
/// buffer, holds 0, or leads before the start of the buffer.
pub open spec fn soffset_target(buf: Seq<u8>, loc: int) -> core::result::Result<int, Error> {
    match i32_at(buf, loc) {
        None => Err(Error::OutOfBounds),
        Some(off) => if off == 0 {
            Err(Error::InvalidPivot)
        } else if loc - off < 0 || loc - off > isize::MAX {
            Err(Error::OutOfBounds)
        } else {
            Ok(loc - off)
        },
    }
}

impl<'a, T: Follow<'a>> Follow<'a> for SOffset<T> {
    type Inner = T::Inner;

    open spec fn follows(buf: Seq<u8>, loc: int, r: Result<T::Inner>) -> bool {
        match soffset_target(buf, loc) {
            Err(e) => r == Err::<T::Inner, Error>(e),
            Ok(t) => T::follows(buf, t, r),
        }
    }

    fn follow(buf: &'a [u8], loc: usize) -> (r: Result<T::Inner>) {
        let offset = read_i32(buf, loc)?;
        if offset == 0 {
            return Err(Error::InvalidPivot);
        }
        let target: i128 = loc as i128 - offset as i128;
        if target < 0 || target > isize::MAX as i128 {
            return Err(Error::OutOfBounds);
        }
        T::follow(buf, target as usize)
    }
}

// =========================================================================
// Tables & vtables
// =========================================================================
//
// VTable layout:
//   [u16 vtable_byte_len][u16 table_byte_len][u16 field_0_off][u16 field_1_off]...
// A field offset is relative to the table start. A field offset of 0, or a field
// id beyond vtable_byte_len, means the field is absent.

/// Reads tables: an i32 at the table start leads (backward) to its vtable.
pub struct Table;

/// A table whose vtable header has been checked.
#[derive(Debug)]
pub struct TableRef<'a> {
    pub buf: &'a [u8],
    /// Absolute position of the table (base for all field offsets).
    pub loc: usize,
    /// Absolute position of the vtable this table points at.
    pub vtable: usize,
}

/// The vtable position of the table at `loc`, if its header checks out.
pub open spec fn table_vtable(buf: Seq<u8>, loc: int) -> core::result::Result<int, Error> {
    match i32_at(buf, loc) {
        None => Err(Error::OutOfBounds),
        Some(so) => {
            let vt = loc - so;
            if vt < 0 || vt > isize::MAX {
                Err(Error::OutOfBounds)
            } else {
                match u16_at(buf, vt) {
                    None => Err(Error::OutOfBounds),
                    Some(vlen) => if vlen < 4 || vt + vlen > buf.len() {
                        Err(Error::OutOfBounds)
                    } else {
                        Ok(vt)
                    },
                }
            }
        },
    }
}

impl<'a> Follow<'a> for Table {
    type Inner = TableRef<'a>;

    open spec fn follows(buf: Seq<u8>, loc: int, r: Result<TableRef<'a>>) -> bool {
        match table_vtable(buf, loc) {
            Err(e) => r == Err::<TableRef<'a>, Error>(e),
            Ok(vt) => r matches Ok(t) && t.buf@ == buf && t.loc == loc && t.vtable == vt,
        }
    }

    fn follow(buf: &'a [u8], loc: usize) -> (r: Result<TableRef<'a>>) {
        let soffset = read_i32(buf, loc)?;
        let vt: i128 = loc as i128 - soffset as i128;
        if vt < 0 || vt > isize::MAX as i128 {
            return Err(Error::OutOfBounds);
        }
        let vtable = vt as usize;
        // Eagerly validate the vtable header so field lookups can trust it.
        let vtable_len = read_u16(buf, vtable)? as usize;
        if vtable_len < 4 {
            return Err(Error::OutOfBounds);  // header alone is 4 bytes
        }
        if vtable_len > buf.len() || vtable > buf.len() - vtable_len {
            return Err(Error::OutOfBounds);
        }
        Ok(TableRef { buf, loc, vtable })
    }
}

/// How field `id` of the table at `loc` with vtable `vt` resolves.
pub enum FieldLookup {
    /// Reading the vtable failed.
    Fail(Error),
    /// The field is absent (suppressed, or beyond this vtable).
    Absent,
    /// The field's data starts at this position.
    At(int),
}

pub open spec fn table_field(buf: Seq<u8>, loc: int, vt: int, id: int) -> FieldLookup {
    match u16_at(buf, vt) {
        None => FieldLookup::Fail(Error::OutOfBounds),
        Some(vlen) => {
            let slot = vt + 4 + id * 2;
            if slot + 2 > vt + vlen {
                FieldLookup::Absent
            } else {
                match u16_at(buf, slot) {
                    None => FieldLookup::Fail(Error::OutOfBounds),
                    Some(off) => if off == 0 {
                        FieldLookup::Absent
                    } else if loc + off > usize::MAX {
                        FieldLookup::Fail(Error::OutOfBounds)
                    } else {
                        FieldLookup::At(loc + off)
                    },
                }
            }
        },
    }
}

/// Field `id` of the table at `loc` whose vtable is at `vt`: the vtable's first two
/// bytes give its length; when the field's 2-byte slot at `vt + 4 + 2 * id` ends within
/// that length and holds a nonzero offset, the field is at `loc` plus that offset; when
/// the slot lies past the vtable or holds 0, the field is absent.
pub proof fn lemma_table_field_lookup(buf: Seq<u8>, loc: int, vt: int, id: int)
    requires
        0 <= id,
    ensures
        ({
            let slot = vt + 4 + 2 * id;
            &&& u16_at(buf, vt) is Some && slot + 2 <= vt + u16_at(buf, vt)->Some_0 && u16_at(buf, slot) is Some
                && u16_at(buf, slot)->Some_0 != 0 && loc + u16_at(buf, slot)->Some_0 <= usize::MAX
                ==> table_field(buf, loc, vt, id) == FieldLookup::At(loc + u16_at(buf, slot)->Some_0)
            &&& u16_at(buf, vt) is Some && slot + 2 > vt + u16_at(buf, vt)->Some_0 ==> table_field(buf, loc, vt, id)
                == FieldLookup::Absent
            &&& u16_at(buf, vt) is Some && slot + 2 <= vt + u16_at(buf, vt)->Some_0 && u16_at(buf, slot) == Some(
                0nat,
            ) ==> table_field(buf, loc, vt, id) == FieldLookup::Absent
        }),
{
}

/// `r` is a possible outcome of reading optional field `id` as a `T`.
pub open spec fn field_outcome<'a, T: Follow<'a>>(
    buf: Seq<u8>,
    loc: int,
    vt: int,
    id: int,
    r: Result<Option<T::Inner>>,
) -> bool {
    match table_field(buf, loc, vt, id) {
        FieldLookup::Fail(e) => r == Err::<Option<T::Inner>, Error>(e),
        FieldLookup::Absent => r == Ok::<Option<T::Inner>, Error>(None),
        FieldLookup::At(t) => match r {
            Ok(Some(v)) => T::follows(buf, t, Ok(v)),
            Ok(None) => false,
            Err(e) => T::follows(buf, t, Err(e)),
        },
    }
}

impl<'a> TableRef<'a> {
    /// Resolves field `id` through the vtable. Returns `Ok(None)` when the field
    /// is absent: its slot holds 0, or the vtable is too short to contain the slot
    /// (data written by an older schema).
    pub fn get<T: Follow<'a>>(&self, id: u16) -> (r: Result<Option<T::Inner>>)
        requires
            self.vtable + 4 + 2 * 0x1_0000 <= usize::MAX,
        ensures
            field_outcome::<T>(self.buf@, self.loc as int, self.vtable as int, id as int, r),
            ({
                let buf = self.buf@;
                let vt = self.vtable as int;
                let slot = vt + 4 + 2 * id;
                u16_at(buf, vt) is Some && slot + 2 <= vt + u16_at(buf, vt)->Some_0 && u16_at(buf, slot) is Some
                    && u16_at(buf, slot)->Some_0 != 0 && self.loc + u16_at(buf, slot)->Some_0 <= usize::MAX
                    ==> match r {
                    Ok(Some(v)) => T::follows(buf, self.loc + u16_at(buf, slot)->Some_0, Ok(v)),
                    Ok(None) => false,
                    Err(e) => T::follows(buf, self.loc + u16_at(buf, slot)->Some_0, Err(e)),
                }
            }),
    {
        proof {
            lemma_table_field_lookup(self.buf@, self.loc as int, self.vtable as int, id as int);
        }
        let vtable_len = read_u16(self.buf, self.vtable)? as usize;
        let slot = self.vtable + 4 + (id as usize) * 2;
        if slot + 2 > self.vtable + vtable_len {
            return Ok(None);  // field id past this vtable: older writer
        }
        let field_off = read_u16(self.buf, slot)? as usize;
        if field_off == 0 {
            return Ok(None);  // field suppressed
        }
        if field_off > usize::MAX - self.loc {
            return Err(Error::OutOfBounds);
        }
        let target = self.loc + field_off;
        match T::follow(self.buf, target) {
            Ok(v) => Ok(Some(v)),
            Err(e) => Err(e),
        }
    }

    /// Like `get`, but substitutes `default` for absent fields.
    pub fn get_or<T: Follow<'a>>(&self, id: u16, default: T::Inner) -> (r: Result<T::Inner>)
        requires
            self.vtable + 4 + 2 * 0x1_0000 <= usize::MAX,
        ensures
            match table_field(self.buf@, self.loc as int, self.vtable as int, id as int) {
                FieldLookup::Fail(e) => r == Err::<T::Inner, Error>(e),
                FieldLookup::Absent => r == Ok::<T::Inner, Error>(default),
                FieldLookup::At(t) => T::follows(self.buf@, t, r),
            },
    {
        match self.get::<T>(id) {
            Ok(Some(v)) => Ok(v),
            Ok(None) => Ok(default),
            Err(e) => Err(e),
        }
    }
}


// =========================================================================
// Strings
// =========================================================================

/// Views `bytes` as a string slice, through `std::str::from_utf8`: the conversion
/// succeeds exactly when the bytes are valid UTF-8, and the string then consists
/// of those same bytes.
#[verifier::external_body]
fn utf8_str(bytes: &[u8]) -> (r: Option<&str>)
    ensures
        r is Some <==> valid_utf8(bytes@),
        r matches Some(s) ==> s.spec_bytes() == bytes@,
{
    std::str::from_utf8(bytes).ok()
}

/// The bytes of the string record at `loc`: a 4-byte length, then that many bytes.
pub open spec fn str_bytes_at(buf: Seq<u8>, loc: int) -> core::result::Result<Seq<u8>, Error> {
    match u32_at(buf, loc) {
        None => Err(Error::OutOfBounds),
        Some(len) => if loc + 4 + len > buf.len() {
            Err(Error::OutOfBounds)
        } else {
            Ok(buf.subrange(loc + 4, loc + 4 + len))
        },
    }
}

/// `r` is what reading the string record at `loc` gives.
pub open spec fn str_follows(buf: Seq<u8>, loc: int, r: Result<&str>) -> bool {
    match str_bytes_at(buf, loc) {
        Err(e) => r == Err::<&str, Error>(e),
        Ok(bytes) => if valid_utf8(bytes) {
            r matches Ok(s) && s.spec_bytes() == bytes
        } else {
            r == Err::<&str, Error>(Error::InvalidUtf8)
        },
    }
}

/// Reads the string record at `loc`, borrowing its bytes from `buf`.
fn follow_str<'a>(buf: &'a [u8], loc: usize) -> (r: Result<&'a str>)
    ensures
        str_follows(buf@, loc as int, r),
{
    let len = match read_u32(buf, loc) {
        Ok(v) => v as usize,
        Err(e) => return Err(e),
    };
    let n = buf.len();
    let start = loc + 4;
    if len > n - start {
        return Err(Error::OutOfBounds);
    }
    let bytes = vstd::slice::slice_subrange(buf, start, start + len);
    match utf8_str(bytes) {
        Some(s) => Ok(s),
        None => Err(Error::InvalidUtf8),
    }
}

/// Strings are a 4-byte length followed by UTF-8 bytes, validated on every read.
impl<'a, 'b> Follow<'a> for &'b str {
    type Inner = &'a str;

    open spec fn follows(buf: Seq<u8>, loc: int, r: Result<&'a str>) -> bool {
        str_follows(buf, loc, r)
    }

    fn follow(buf: &'a [u8], loc: usize) -> (r: Result<&'a str>) {
        follow_str(buf, loc)
    }
}

// =========================================================================
// String vectors
// =========================================================================

/// A view over a serialized string array: `[u32 count][u32 jump slots...][records...]`.
/// A jump slot holding 0 marks an empty entry.
#[derive(Copy, Clone)]
pub struct StrVector<'a> {
    pub buf: &'a [u8],
    pub table_start: usize,
    pub len: usize,
}

/// What entry `index` of the string array whose jump table starts at `table` reads as:
/// the empty string for a slot holding 0, else the string record the slot leads to.
pub open spec fn str_entry_follows(buf: Seq<u8>, table: int, index: int, r: Result<&str>) -> bool {
    let slot = table + 4 * index;
    match u32_at(buf, slot) {
        None => r == Err::<&str, Error>(Error::OutOfBounds),
        Some(off) => if off == 0 {
            r matches Ok(s) && s@.len() == 0
        } else if slot + off > usize::MAX {
            r == Err::<&str, Error>(Error::OutOfBounds)
        } else {
            str_follows(buf, slot + off, r)
        },
    }
}

impl<'a> StrVector<'a> {
    pub fn len(&self) -> (r: usize)
        ensures
            r == self.len,
    {
        self.len
    }

    pub fn is_empty(&self) -> (r: bool)
        ensures
            r <==> self.len == 0,
    {
        self.len == 0
    }

    /// Entry `index`; empty (skipped) entries read as `""`.
    pub fn get(&self, index: usize) -> (r: Result<&'a str>)
        requires
            self.table_start + 4 * index <= usize::MAX,
        ensures
            str_entry_follows(self.buf@, self.table_start as int, index as int, r),
    {
        let slot = self.table_start + index * 4;
        let offset = read_u32(self.buf, slot)? as usize;
        if offset == 0 {
            let empty = "";
            proof {
                reveal_strlit("");
            }
            return Ok(empty);
        }
        if offset > usize::MAX - slot {
            return Err(Error::OutOfBounds);
        }
        follow_str(self.buf, slot + offset)
    }

    /// Every entry, in order.
    pub fn iter(self) -> (r: Vec<Result<&'a str>>)
        requires
            self.table_start + 4 * self.len <= usize::MAX,
        ensures
            r@.len() == self.len,
            forall|i: int|
                0 <= i < self.len ==> str_entry_follows(
                    self.buf@,
                    self.table_start as int,
                    i,
                    #[trigger] r@[i],
                ),
    {
        let mut out: Vec<Result<&'a str>> = Vec::new();
        let mut i: usize = 0;
        while i < self.len
            invariant
                i <= self.len,
                self.table_start + 4 * self.len <= usize::MAX,
                out@.len() == i,
                forall|k: int|
                    0 <= k < i ==> str_entry_follows(
                        self.buf@,
                        self.table_start as int,
                        k,
                        #[trigger] out@[k],
                    ),
            decreases self.len - i,
        {
            let e = self.get(i);
            out.push(e);
            i = i + 1;
        }
        out
    }
}

/// Entry `index` of a string array reads as one string only: two reads of it, such as
/// item `index` of `StrVector::iter` and `StrVector::get(index)`, both fail with the same
/// error or both give strings with the same characters.
pub proof fn lemma_str_entry_unique(buf: Seq<u8>, table: int, index: int, r1: Result<&str>, r2: Result<&str>)
    requires
        str_entry_follows(buf, table, index, r1),
        str_entry_follows(buf, table, index, r2),
    ensures
        r1 is Ok <==> r2 is Ok,
        r1 is Err ==> r1 == r2,
        r1 is Ok && r2 is Ok ==> r1->Ok_0@ == r2->Ok_0@,
{
    broadcast use vstd::utf8::group_utf8_lib;

    if let (Ok(s1), Ok(s2)) = (r1, r2) {
        if s1@.len() == 0 && s2@.len() == 0 {
            assert(s1@ =~= s2@);
        } else {
            assert(s1.spec_bytes() == s2.spec_bytes());
            assert(decode_utf8(encode_utf8(s1@)) == s1@);
            assert(decode_utf8(encode_utf8(s2@)) == s2@);
        }
    }
}

/// Where the jump table of the string array at `loc` starts and how many entries it
/// has, if the count and the whole table are in the buffer.
pub open spec fn str_vector_table(buf: Seq<u8>, loc: int) -> core::result::Result<(int, nat), Error> {
    match u32_at(buf, loc) {
        None => Err(Error::OutOfBounds),
        Some(len) => if loc + 4 + 4 * len > buf.len() {
            Err(Error::OutOfBounds)
        } else {
            Ok((loc + 4, len))
        },
    }
}

impl<'a, 'b> Follow<'a> for StrVector<'b> {
    type Inner = StrVector<'a>;

    open spec fn follows(buf: Seq<u8>, loc: int, r: Result<StrVector<'a>>) -> bool {
        match str_vector_table(buf, loc) {
            Err(e) => r == Err::<StrVector<'a>, Error>(e),
            Ok((t, n)) => r matches Ok(v) && v.buf@ == buf && v.table_start == t && v.len == n,
        }
    }

    fn follow(buf: &'a [u8], loc: usize) -> (r: Result<StrVector<'a>>) {
        let len = match read_u32(buf, loc) {
            Ok(v) => v as usize,
            Err(e) => return Err(e),
        };
        let n = buf.len();
        let table_start = loc + 4;
        if len > (n - table_start) / 4 {
            return Err(Error::OutOfBounds);
        }
        Ok(StrVector { buf, table_start, len })
    }
}


// =========================================================================
// Integer arrays
// =========================================================================

/// The address of the first byte of `bytes`, through `<[u8]>::as_ptr`. Where a
/// buffer lies in memory is up to the allocator, so nothing is stated of it.
#[verifier::external_body]
fn slice_addr(bytes: &[u8]) -> usize {
    bytes.as_ptr() as usize
}

/// Where the elements of the integer array record at `loc` start and how many there
/// are, if the count and all elements are in the buffer.
pub open spec fn num_array_bounds<T: LeScalar>(buf: Seq<u8>, loc: int) -> core::result::Result<(int, nat), Error> {
    match u32_at(buf, loc) {
        None => Err(Error::OutOfBounds),
        Some(len) => if loc + 4 + len * T::spec_width() > buf.len() {
            Err(Error::OutOfBounds)
        } else {
            Ok((loc + 4, len))
        },
    }
}

/// `items` are the `len` elements of the array record at `loc`.
pub open spec fn num_items_at<T: LeScalar>(buf: Seq<u8>, loc: int, len: nat, items: Seq<T>) -> bool {
    &&& items.len() == len
    &&& forall|i: int|
        0 <= i < len ==> #[trigger] items[i].spec_wire() == le_value(
            elem_at(buf, loc, T::spec_width(), i),
        )
}

/// What reading the integer array record at `loc` of a buffer at address `base` gives:
/// an error when the record is out of the buffer or its elements are not aligned for
/// `T`, else the elements.
pub open spec fn num_array_outcome<T: LeScalar>(buf: Seq<u8>, loc: int, base: int, r: Result<Vec<T>>) -> bool {
    match num_array_bounds::<T>(buf, loc) {
        Err(e) => r == Err::<Vec<T>, Error>(e),
        Ok((start, len)) => if (base + start) % (vstd::layout::align_of::<T>() as int) != 0 {
            r == Err::<Vec<T>, Error>(Error::Misaligned)
        } else {
            r matches Ok(v) && num_items_at(buf, loc, len, v@)
        },
    }
}

/// Two remainders modulo `a` add up to a multiple of `a` only by summing to 0 or to `a`.
proof fn lemma_mod_sum_zero(m: int, k: int, a: int)
    requires
        0 <= m < a,
        0 <= k < a,
    ensures
        ((m + k) % a == 0) <==> (m + k == 0 || m + k == a),
{
    if m + k < a {
        vstd::arithmetic::div_mod::lemma_small_mod((m + k) as nat, a as nat);
    } else {
        vstd::arithmetic::div_mod::lemma_small_mod((m + k - a) as nat, a as nat);
        vstd::arithmetic::div_mod::lemma_mod_sub_multiples_vanish(m + k, a);
    }
}

/// Reads the integer array record at `loc` of a buffer that starts at address `base`.
/// The elements must start on an address aligned for `T`: they are handed out in
/// place of a view of the buffer's own memory.
pub fn num_array_from<T: LeScalar>(buf: &[u8], loc: usize, base: usize) -> (r: Result<Vec<T>>)
    ensures
        num_array_outcome(buf@, loc as int, base as int, r),
{
    let len = match read_u32(buf, loc) {
        Ok(v) => v as usize,
        Err(e) => return Err(e),
    };
    let n = buf.len();
    let start = loc + 4;
    let w = T::width();
    let size = match len.checked_mul(w) {
        Some(x) => x,
        None => return Err(Error::OutOfBounds),
    };
    if size > n - start {
        return Err(Error::OutOfBounds);
    }
    vstd::layout::layout_for_type_is_valid::<T>();
    let a = core::mem::align_of::<T>();
    let m = base % a;
    let k = start % a;
    proof {
        vstd::arithmetic::div_mod::lemma_add_mod_noop(base as int, start as int, a as int);
        lemma_mod_sum_zero(m as int, k as int, a as int);
    }
    let misaligned = if k == 0 {
        m != 0
    } else {
        m != a - k
    };
    if misaligned {
        return Err(Error::Misaligned);
    }
    let mut out: Vec<T> = Vec::new();
    let mut i: usize = 0;
    while i < len
        invariant
            i <= len,
            start == loc + 4,
            w == T::spec_width(),
            1 <= w <= 16,
            n == buf@.len(),
            start + len * w <= n,
            out@.len() == i,
            forall|k: int|
                0 <= k < i ==> #[trigger] out@[k].spec_wire() == le_value(
                    elem_at(buf@, loc as int, T::spec_width(), k),
                ),
        decreases len - i,
    {
        proof {
            assert(i * w + w <= len * w) by (nonlinear_arith)
                requires
                    i < len,
                    w >= 0,
            ;
            assert(0 <= i * w) by (nonlinear_arith)
                requires
                    w >= 0,
            ;
        }
        let p = start + i * w;
        let v = read_le(buf, p, w);
        proof {
            lemma_le_value_bound(buf@.subrange(p as int, p + w));
        }
        out.push(T::from_wire(v));
        i = i + 1;
    }
    Ok(out)
}

/// Integer arrays are a 4-byte count followed by little-endian elements, which must
/// start on an address aligned for the element type.
impl<'a, 'b, T: LeScalar> Follow<'a> for &'b [T] {
    type Inner = Vec<T>;

    open spec fn follows(buf: Seq<u8>, loc: int, r: Result<Vec<T>>) -> bool {
        match num_array_bounds::<T>(buf, loc) {
            Err(e) => r == Err::<Vec<T>, Error>(e),
            Ok((start, len)) => r == Err::<Vec<T>, Error>(Error::Misaligned) || (r matches Ok(v)
                && num_items_at(buf, loc, len, v@)),
        }
    }

    fn follow(buf: &'a [u8], loc: usize) -> (r: Result<Vec<T>>) {
        let base = slice_addr(buf);
        num_array_from(buf, loc, base)
    }
}

} // verus!
