//! What reading a record gives back of what writing it stored.

use vstd::prelude::*;
use vstd::string::StringSliceAdditionalSpecFns;

use crate::buffers::bytes::{
    elem_at, entry_ok, items_bytes, placed, slot_bytes, str_array_at, str_record_at, RawBytes, StrItem,
};
use vstd::utf8::{decode_utf8, encode_utf8};
use crate::buffers::error::{Error, Result};
use crate::buffers::vec::{BufferVec, TailOffset};
use crate::buffers::offsets::{
    num_array_bounds, num_array_outcome, num_items_at, str_entry_follows, str_follows,
    str_vector_table, u32_at, Follow,
};
use crate::scalars::{le_bytes, le_value, lemma_le_round_trip, lemma_pow256_values, LeScalar};

verus! {

broadcast use vstd::utf8::group_utf8_lib;

/// A 4-byte little-endian field written with a value below `2^32` reads back as it.
proof fn lemma_u32_field(data: Seq<u8>, pos: int, v: nat)
    requires
        0 <= pos,
        pos + 4 <= data.len(),
        data.subrange(pos, pos + 4) == le_bytes(v, 4),
        v < 0x1_0000_0000,
    ensures
        u32_at(data, pos) == Some(v),
{
    lemma_le_round_trip(v, 4);
    lemma_pow256_values();
}

/// An integer written at `pos` reads back as the same integer.
pub proof fn lemma_scalar_round_trip<'a, T: LeScalar>(x: T, data: Seq<u8>, pos: int, r: Result<T>)
    requires
        x.spec_laid_at(data, pos),
        <T as Follow<'a>>::follows(data, pos, r),
    ensures
        r == Ok::<T, Error>(x),
{
    let w = T::spec_width();
    lemma_le_round_trip(x.spec_wire(), w);
    T::lemma_wire_bound(x);
    vstd::arithmetic::div_mod::lemma_small_mod(x.spec_wire(), crate::scalars::pow256(w));
    let v = r->Ok_0;
    T::lemma_wire_injective(v, x);
}

/// A non-empty string written at `pos` reads back as the same string.
pub proof fn lemma_str_round_trip<'a, 'b>(s: &str, data: Seq<u8>, pos: int, r: Result<&'a str>)
    requires
        s.spec_bytes().len() > 0,
        s.spec_bytes().len() < 0x1_0000_0000,
        s.spec_laid_at(data, pos),
        <&'b str as Follow<'a>>::follows(data, pos, r),
    ensures
        r matches Ok(t) && t@ == s@,
{
    let b = s.spec_bytes();
    lemma_u32_field(data, pos, b.len());
    assert(data.subrange(pos + 4, pos + 4 + b.len()) == b);
    let t = r->Ok_0;
    assert(t.spec_bytes() == s.spec_bytes());
    assert(vstd::utf8::decode_utf8(vstd::utf8::encode_utf8(t@)) == t@);
    assert(vstd::utf8::decode_utf8(vstd::utf8::encode_utf8(s@)) == s@);
}

/// An integer array written at `pos` reads back as the same elements, when they lie on
/// an address aligned for `T`.
pub proof fn lemma_num_array_round_trip<T: LeScalar>(
    items: &[T],
    data: Seq<u8>,
    pos: int,
    base: int,
    r: Result<Vec<T>>,
)
    requires
        items.spec_laid_at(data, pos),
        items@.len() < 0x1_0000_0000,
        (base + pos + 4) % (vstd::layout::align_of::<T>() as int) == 0,
        num_array_outcome(data, pos, base, r),
    ensures
        r matches Ok(v) && v@ == items@,
{
    lemma_u32_field(data, pos, items@.len());
    assert(num_array_bounds::<T>(data, pos) == Ok::<(int, nat), Error>((pos + 4, items@.len())));
    let v = r->Ok_0;
    assert forall|i: int| 0 <= i < items@.len() implies v@[i] == items@[i] by {
        let w = T::spec_width();
        assert(elem_at(data, pos, w, i) == le_bytes(items@[i].spec_wire(), w));
        lemma_le_round_trip(items@[i].spec_wire(), w);
        T::lemma_wire_bound(items@[i]);
        vstd::arithmetic::div_mod::lemma_small_mod(items@[i].spec_wire(), crate::scalars::pow256(w));
        T::lemma_wire_injective(v@[i], items@[i]);
    }
    assert(v@ =~= items@);
}

/// A string array written at `pos` reads back as a vector of as many entries, each
/// entry reading back as the string written for it (an empty one as the empty string).
pub proof fn lemma_str_array_round_trip<'a, S: StrItem>(items: Seq<S>, data: Seq<u8>, pos: int)
    requires
        str_array_at(data, pos, items_bytes(items)),
        data.len() < 0x1_0000_0000,
    ensures
        str_vector_table(data, pos) == Ok::<(int, nat), Error>((pos + 4, items.len())),
        forall|i: int, r: Result<&'a str>|
            0 <= i < items.len() && #[trigger] str_entry_follows(data, pos + 4, i, r) ==> (r matches Ok(
                s,
            ) && s@ == items[i].spec_chars()),
{
    let bs = items_bytes(items);
    lemma_u32_field(data, pos, items.len());
    assert forall|i: int, r: Result<&'a str>|
        0 <= i < items.len() && #[trigger] str_entry_follows(data, pos + 4, i, r) implies (r matches Ok(
        s,
    ) && s@ == items[i].spec_chars()) by {
        assert(entry_ok(data, pos, i, bs[i]));
        let slot = pos + 4 + 4 * i;
        assert(slot_bytes(data, pos, i) == data.subrange(slot, slot + 4));
        let c = items[i].spec_chars();
        assert(bs[i] == encode_utf8(c));
        if bs[i].len() == 0 {
            lemma_u32_field(data, slot, 0);
            let s = r->Ok_0;
            assert(s@ =~= Seq::<char>::empty());
            assert(decode_utf8(encode_utf8(c)) == c);
            assert(decode_utf8(bs[i]) =~= Seq::<char>::empty());
        } else {
            let t = choose|t: int|
                pos + 8 + 4 * i <= t && #[trigger] str_record_at(data, t, bs[i]) && slot_bytes(
                    data,
                    pos,
                    i,
                ) == le_bytes((t - (pos + 4 + 4 * i)) as nat, 4);
            lemma_u32_field(data, slot, (t - slot) as nat);
            lemma_u32_field(data, t, bs[i].len());
            assert(data.subrange(t + 4, t + 4 + bs[i].len()) == bs[i]);
            let s = r->Ok_0;
            assert(decode_utf8(encode_utf8(s@)) == s@);
            assert(decode_utf8(encode_utf8(c)) == c);
        }
    }
}

/// The handle returned for a record placed in front of a buffer's payload locates the
/// record: the position it denotes in the grown buffer is where the record starts.
pub proof fn lemma_handle_locates(
    old: BufferVec,
    new: BufferVec,
    h: TailOffset,
    span: int,
    align: int,
    back: int,
    laid: bool,
)
    requires
        placed(old, new, Ok::<TailOffset, Error>(h), span, align, back, laid),
        new.data@.len() <= u32::MAX,
    ensures
        laid,
        h.0 <= new.data@.len(),
        new.data@.len() - h.0 == new.cursor,
{
}

} // verus!
