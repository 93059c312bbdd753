use vstd::arithmetic::div_mod::{lemma_fundamental_div_mod, lemma_mod_bound, lemma_mod_multiples_basic};
use vstd::arithmetic::power2::{lemma2_to64, lemma_pow2_adds, pow2};
use vstd::bits::{lemma_usize_low_bits_mask_is_mod, lemma_usize_pow2_no_overflow, low_bits_mask};
use vstd::prelude::*;
use vstd::string::StringSliceAdditionalSpecFns;
use vstd::utf8::encode_utf8;

use crate::buffers::vec::{pow2_limit, next_pow2, lemma_next_pow2, BufferVec, Error, TailOffset};
use crate::scalars::{le_bytes, pow256, write_le, LeScalar};

verus! {

pub type Result<T> = core::result::Result<T, Error>;

/// `x` rounded down to a multiple of `a` (toward negative infinity).
pub open spec fn floor_to(x: int, a: int) -> int {
    x - x % a
}

/// The number of padding bytes that take `bytes` up to the next multiple of `alignment`.
pub fn padding_for(bytes: usize, alignment: usize) -> (r: usize)
    requires
        alignment >= 1,
    ensures
        r == (if bytes == 0 { 0 } else { ((usize::MAX - bytes + 1) as usize) & ((alignment
            - 1) as usize) }),
{
    let mask = alignment - 1;
    // The two's-complement negation of `bytes`, masked.
    if bytes == 0 {
        0
    } else {
        (usize::MAX - bytes + 1) & mask
    }
}

/// `bytes` rounded up to the next multiple of `alignment`.
pub fn align_up_to(bytes: usize, alignment: usize) -> (r: usize)
    requires
        alignment >= 1,
        bytes + alignment - 1 <= usize::MAX,
    ensures
        r == (bytes + alignment - 1) as usize & !((alignment - 1) as usize),
{
    let mask = alignment - 1;
    (bytes + mask) & !mask
}

/// `bytes` rounded down to a multiple of `alignment`.
pub fn align_down_to(bytes: usize, alignment: usize) -> (r: usize)
    requires
        alignment >= 1,
    ensures
        r == bytes & !((alignment - 1) as usize),
{
    let mask = alignment - 1;
    bytes & !mask
}

/// Clearing the bits of `m` from `x` takes away exactly the bits `x` has in `m`.
proof fn lemma_clear_mask(x: usize, m: usize)
    by (bit_vector)
    ensures
        (x & !m) + (x & m) == x,
{
}

/// Two multiples of `a` less than `a` apart are the same.
proof fn lemma_close_multiples(a: int, k1: int, k2: int)
    by (nonlinear_arith)
    requires
        a > 0,
        a * k1 - a * k2 < a,
        a * k2 - a * k1 < a,
    ensures
        k1 == k2,
{
}

/// For a power-of-two `alignment`, `align_down_to` gives the greatest multiple of
/// `alignment` not above `bytes`, and leaves a multiple as it is.
pub proof fn lemma_align_down_law(bytes: usize, alignment: usize, n: nat)
    requires
        n < usize::BITS,
        alignment as nat == pow2(n),
    ensures
        ({
            let r = bytes & !((alignment - 1) as usize);
            &&& r % alignment == 0
            &&& r <= bytes
            &&& bytes - r < alignment
            &&& r & !((alignment - 1) as usize) == r
        }),
{
    let a = alignment as int;
    let m = (alignment - 1) as usize;
    let r = bytes & !m;
    lemma_usize_pow2_no_overflow(n);
    lemma_usize_low_bits_mask_is_mod(bytes, n);
    assert(low_bits_mask(n) as usize == m);
    lemma_clear_mask(bytes, m);
    assert(r == bytes - bytes % alignment);
    lemma_fundamental_div_mod(bytes as int, a);
    lemma_mod_bound(bytes as int, a);
    assert(r == a * (bytes as int / a));
    assert(a * (bytes as int / a) == (bytes as int / a) * a) by (nonlinear_arith);
    lemma_mod_multiples_basic(bytes as int / a, a);
    lemma_usize_low_bits_mask_is_mod(r, n);
    lemma_clear_mask(r, m);
}

/// For a power-of-two `alignment`, `align_up_to` gives the least multiple of
/// `alignment` not below `bytes`, which is `bytes` plus `padding_for(bytes, alignment)`.
pub proof fn lemma_align_up_law(bytes: usize, alignment: usize, n: nat)
    requires
        n < usize::BITS,
        alignment as nat == pow2(n),
        bytes + alignment - 1 <= usize::MAX,
    ensures
        ({
            let r = (bytes + alignment - 1) as usize & !((alignment - 1) as usize);
            let pad = if bytes == 0 { 0 } else { ((usize::MAX - bytes + 1) as usize) & ((alignment - 1) as usize) };
            &&& r % alignment == 0
            &&& bytes <= r
            &&& r - bytes < alignment
            &&& r == bytes + pad
        }),
{
    let a = alignment as int;
    let m = (alignment - 1) as usize;
    let y = (bytes + alignment - 1) as usize;
    let r = y & !m;
    lemma_usize_pow2_no_overflow(n);
    lemma_align_down_law(y, alignment, n);
    if bytes > 0 {
        let w = (usize::MAX - bytes + 1) as usize;
        let pad = w & m;
        lemma_usize_low_bits_mask_is_mod(w, n);
        assert(low_bits_mask(n) as usize == m);
        assert(pad == w % alignment);
        lemma_mod_bound(w as int, a);
        let big = usize::MAX as int + 1;
        lemma_pow2_adds(n, (usize::BITS - n) as nat);
        lemma2_to64();
        assert(big == pow2(usize::BITS as nat));
        let c = pow2((usize::BITS - n) as nat) as int;
        assert(big == a * c);
        lemma_fundamental_div_mod(w as int, a);
        let q = w as int / a;
        assert(bytes + pad == a * c - a * q);
        assert(a * c - a * q == a * (c - q)) by (nonlinear_arith);
        assert((c - q) * a % a == 0) by {
            lemma_mod_multiples_basic(c - q, a);
        }
        assert(a * (c - q) == (c - q) * a) by (nonlinear_arith);
        lemma_fundamental_div_mod(r as int, a);
        assert(r as int == a * (r as int / a));
        lemma_close_multiples(a, c - q, r as int / a);
        assert(r == bytes + pad);
    } else {
        lemma_fundamental_div_mod(r as int, a);
        assert(a * (r as int / a) - a * 0 < a);
        lemma_close_multiples(a, r as int / a, 0);
        assert(a * 0 == 0);
        assert(r == 0);
    }
}

// ---------------------------------------------------------------------------
// Placing a record in front of the payload
// ---------------------------------------------------------------------------

/// Where a record of `span` bytes, aligned to `align`, with `back` header bytes
/// in front of its aligned part, starts when the cursor stands at `c`.
pub open spec fn start_at(c: int, span: int, align: int, back: int) -> int {
    floor_to(c - span, align) - back
}

/// The size of the allocation after making room for a record that would start at `st`.
pub open spec fn grown_len(len: nat, st: int) -> nat {
    if st < 0 {
        next_pow2((len - st) as nat)
    } else {
        len
    }
}

/// Whether the room needed before the cursor exceeds what the buffer may grow to.
pub open spec fn no_room(b: BufferVec, span: int, align: int, back: int) -> bool {
    let st = start_at(b.cursor as int, span, align, back);
    st < 0 && next_pow2((b.data@.len() - st) as nat) > b.limit()
}

/// After growing (if needed) the record start is not negative.
pub open spec fn fits_after_growth(b: BufferVec, span: int, align: int, back: int) -> bool {
    let st = start_at(b.cursor as int, span, align, back);
    let len2 = grown_len(b.data@.len(), st);
    st < 0 && !no_room(b, span, align, back) ==> start_at(
        b.cursor + len2 - b.data@.len(),
        span,
        align,
        back,
    ) >= 0
}

/// `new` is `old` grown (if needed) so that a record fits at `p`; the cursor has not moved yet.
pub open spec fn claimed(old: BufferVec, new: BufferVec, span: int, align: int, back: int, p: int) -> bool {
    let st = start_at(old.cursor as int, span, align, back);
    &&& new.wf()
    &&& new.limit() == old.limit()
    &&& new.data@.len() == grown_len(old.data@.len(), st)
    &&& new.cursor == old.cursor + new.data@.len() - old.data@.len()
    &&& new.payload() == old.payload()
    &&& p == start_at(new.cursor as int, span, align, back)
    &&& 0 <= p
    &&& p + back + span <= new.cursor
    &&& new.data@.len() == old.data@.len() ==> new == old
}

proof fn lemma_floor_props(x: int, a: int)
    requires
        a > 0,
    ensures
        floor_to(x, a) <= x,
        x - floor_to(x, a) < a,
        floor_to(x, a) % a == 0,
{
    vstd::arithmetic::div_mod::lemma_fundamental_div_mod(x, a);
    vstd::arithmetic::div_mod::lemma_mod_multiples_basic(x / a, a);
    assert(floor_to(x, a) == a * (x / a));
    vstd::arithmetic::mul::lemma_mul_is_commutative(a, x / a);
}

proof fn lemma_floor_mono(x: int, y: int, a: int)
    requires
        a > 0,
        x <= y,
    ensures
        floor_to(x, a) <= floor_to(y, a),
{
    lemma_floor_props(x, a);
    lemma_floor_props(y, a);
    vstd::arithmetic::div_mod::lemma_div_is_ordered(x, y, a);
    vstd::arithmetic::div_mod::lemma_fundamental_div_mod(x, a);
    vstd::arithmetic::div_mod::lemma_fundamental_div_mod(y, a);
    vstd::arithmetic::mul::lemma_mul_inequality(x / a, y / a, a);
    vstd::arithmetic::mul::lemma_mul_is_commutative(a, x / a);
    vstd::arithmetic::mul::lemma_mul_is_commutative(a, y / a);
}

proof fn lemma_floor_neg(u: int, a: int)
    requires
        a > 0,
        u >= 0,
    ensures
        floor_to(-u, a) == -(if u % a == 0 { u } else { u + (a - u % a) }),
{
    let q = u / a;
    let r = u % a;
    vstd::arithmetic::div_mod::lemma_fundamental_div_mod(u, a);
    if r == 0 {
        assert(-u == (-q) * a + 0) by (nonlinear_arith)
            requires
                u == a * q,
        ;
        vstd::arithmetic::div_mod::lemma_fundamental_div_mod_converse(-u, a, -q, 0);
    } else {
        assert(-u == (-q - 1) * a + (a - r)) by (nonlinear_arith)
            requires
                u == a * q + r,
        ;
        vstd::arithmetic::div_mod::lemma_fundamental_div_mod_converse(-u, a, -q - 1, a - r);
    }
}

/// Rounds down to a multiple of `align` (which is positive).
fn floor_usize(x: usize, align: usize) -> (r: usize)
    requires
        align > 0,
    ensures
        r == floor_to(x as int, align as int),
        r <= x,
{
    proof {
        lemma_floor_props(x as int, align as int);
        vstd::arithmetic::div_mod::lemma_mod_decreases(x as nat, align as nat);
    }
    x - x % align
}

/// Finds the start of a record of `span` bytes aligned to `align` with `back` header
/// bytes in front, growing the buffer when the record does not fit before the cursor.
fn claim(buffer: &mut BufferVec, span: usize, align: usize, back: usize) -> (r: Result<usize>)
    requires
        old(buffer).wf(),
        align > 0,
        old(buffer).data@.len() + span + align + back <= pow2_limit(),
        fits_after_growth(*old(buffer), span as int, align as int, back as int),
    ensures
        no_room(*old(buffer), span as int, align as int, back as int) ==> r == Err::<usize, Error>(
            Error::InsufficientSpace,
        ) && *final(buffer) == *old(buffer),
        !no_room(*old(buffer), span as int, align as int, back as int) ==> r is Ok && claimed(
            *old(buffer),
            *final(buffer),
            span as int,
            align as int,
            back as int,
            r->Ok_0 as int,
        ),
{
    let ghost st = start_at(buffer.cursor as int, span as int, align as int, back as int);
    let c = buffer.cursor;
    proof {
        lemma_floor_props(c - span, align as int);
    }
    if c >= span && floor_usize(c - span, align) >= back {
        let p = floor_usize(c - span, align) - back;
        return Ok(p);
    }
    // The start would be negative: grow by the deficit first.
    let deficit: usize = if c >= span {
        back - floor_usize(c - span, align)
    } else {
        let under = span - c;
        let up = if under % align == 0 { under } else { under + (align - under % align) };
        proof {
            lemma_floor_neg(under as int, align as int);
        }
        up + back
    };
    assert(deficit == -st);
    let ghost before = *buffer;
    match buffer.grow_by(deficit) {
        Err(e) => {
            return Err(e);
        },
        Ok(()) => {},
    }
    proof {
        assert(buffer.data@.len() == grown_len(before.data@.len(), st));
        let c2 = buffer.cursor as int;
        lemma_floor_props(c2 - span, align as int);
    }
    let c2 = buffer.cursor;
    let p = floor_usize(c2 - span, align) - back;
    Ok(p)
}


/// Copies `src` into `data[pos..pos + src.len()]`.
fn copy_into(data: &mut Vec<u8>, pos: usize, src: &[u8])
    requires
        pos + src@.len() <= old(data)@.len(),
    ensures
        final(data)@ == old(data)@.subrange(0, pos as int) + src@ + old(data)@.subrange(
            pos + src@.len(),
            old(data)@.len() as int,
        ),
{
    let n = src.len();
    let mut i: usize = 0;
    while i < n
        invariant
            i <= n,
            n == src@.len(),
            pos + n <= data.len(),
            data@.len() == old(data)@.len(),
            forall|j: int| 0 <= j < pos ==> data@[j] == old(data)@[j],
            forall|j: int| pos + n <= j < data@.len() ==> data@[j] == old(data)@[j],
            forall|j: int| pos <= j < pos + i ==> #[trigger] data@[j] == src@[j - pos],
        decreases n - i,
    {
        data.set(pos + i, src[i]);
        i = i + 1;
    }
    assert(data@ =~= old(data)@.subrange(0, pos as int) + src@ + old(data)@.subrange(
        pos + src@.len(),
        old(data)@.len() as int,
    ));
}

// ---------------------------------------------------------------------------
// The writer trait
// ---------------------------------------------------------------------------

/// Values that can be written as a record in front of a [`BufferVec`]'s payload.
pub trait RawBytes {
    /// Writing stores nothing and yields the sentinel handle 0.
    spec fn spec_skipped(&self) -> bool;

    /// What [`RawBytes::size`] reports.
    spec fn spec_size(&self) -> nat;

    /// The alignment of the record's aligned part.
    spec fn spec_align(&self) -> nat;

    /// Bytes from the aligned point to the end of the record.
    spec fn spec_span(&self) -> nat;

    /// Header bytes in front of the aligned point.
    spec fn spec_back(&self) -> nat;

    /// `data` holds this value's record starting at `pos`.
    spec fn spec_laid_at(&self, data: Seq<u8>, pos: int) -> bool;

    fn size(&self) -> (r: usize)
        requires
            self.spec_size() <= usize::MAX,
        ensures
            r as nat == self.spec_size(),
    ;

    fn align(&self) -> (r: usize)
        ensures
            r as nat == self.spec_align(),
    ;

    /// Writes the record in front of the payload, growing the buffer when needed,
    /// and returns its handle.
    fn into_buffer(&self, buffer: &mut BufferVec) -> (r: Result<TailOffset>)
        requires
            old(buffer).wf(),
            self.spec_align() > 0,
            old(buffer).data@.len() + self.spec_span() + self.spec_align() + self.spec_back() + 4
                <= pow2_limit(),
            fits_after_growth(
                *old(buffer),
                self.spec_span() as int,
                self.spec_align() as int,
                self.spec_back() as int,
            ),
        ensures
            self.spec_skipped() ==> r == Ok::<TailOffset, Error>(TailOffset(0)) && *final(buffer)
                == *old(buffer),
            !self.spec_skipped() ==> placed(
                *old(buffer),
                *final(buffer),
                r,
                self.spec_span() as int,
                self.spec_align() as int,
                self.spec_back() as int,
                self.spec_laid_at(final(buffer).data@, final(buffer).cursor as int),
            ),
    ;

    /// Like [`RawBytes::into_buffer`], for a buffer that already has room in front of the cursor.
    fn into_buffer_unchecked(&self, buffer: &mut BufferVec) -> (r: Result<TailOffset>)
        requires
            old(buffer).wf(),
            self.spec_align() > 0,
            old(buffer).data@.len() + self.spec_span() + self.spec_align() + self.spec_back() + 4
                <= pow2_limit(),
            !self.spec_skipped() ==> start_at(
                old(buffer).cursor as int,
                self.spec_span() as int,
                self.spec_align() as int,
                self.spec_back() as int,
            ) >= 0,
        ensures
            self.spec_skipped() ==> r == Ok::<TailOffset, Error>(TailOffset(0)) && *final(buffer)
                == *old(buffer),
            !self.spec_skipped() ==> placed(
                *old(buffer),
                *final(buffer),
                r,
                self.spec_span() as int,
                self.spec_align() as int,
                self.spec_back() as int,
                self.spec_laid_at(final(buffer).data@, final(buffer).cursor as int),
            ),
            !self.spec_skipped() ==> final(buffer).data@.len() == old(buffer).data@.len(),
    ;
}

/// A record laid out by `laid`, of `back` header bytes and `span` aligned bytes, was
/// placed in front of `old`'s payload (growing if needed), giving `new`; `r` is the result.
pub open spec fn placed(
    old: BufferVec,
    new: BufferVec,
    r: Result<TailOffset>,
    span: int,
    align: int,
    back: int,
    laid: bool,
) -> bool {
    if no_room(old, span, align, back) {
        r == Err::<TailOffset, Error>(Error::InsufficientSpace) && new == old
    } else {
        let shifted = old.cursor + new.data@.len() - old.data@.len();
        &&& r matches Ok(h) && h.0 == (new.data@.len() - new.cursor) as u32
        &&& new.wf()
        &&& new.limit() == old.limit()
        &&& new.data@.len() == grown_len(
            old.data@.len(),
            start_at(old.cursor as int, span, align, back),
        )
        &&& new.cursor == start_at(shifted, span, align, back)
        &&& new.cursor + back + span <= shifted
        &&& laid
        &&& new.data@.subrange(shifted, new.data@.len() as int) == old.payload()
        &&& new.data@.len() == old.data@.len() ==> forall|x: int|
            0 <= x < new.cursor ==> #[trigger] new.data@[x] == old.data@[x]
    }
}

/// What `b1` has written is still the last part of what `b2` has written.
pub open spec fn keeps_payload(b1: BufferVec, b2: BufferVec) -> bool {
    &&& b1.payload_len() <= b2.payload_len()
    &&& b2.payload().subrange(b2.payload_len() - b1.payload_len(), b2.payload_len() as int) == b1.payload()
}

/// A write that goes through keeps what was written before at the end.
pub proof fn lemma_placed_keeps_payload(
    old: BufferVec,
    new: BufferVec,
    r: Result<TailOffset>,
    span: int,
    align: int,
    back: int,
    laid: bool,
)
    requires
        old.wf(),
        placed(old, new, r, span, align, back, laid),
        r is Ok,
        0 <= span,
        0 <= back,
    ensures
        keeps_payload(old, new),
{
    if !no_room(old, span, align, back) {
        let shifted = old.cursor + new.data@.len() - old.data@.len();
        assert(new.payload_len() == new.data@.len() - new.cursor);
        assert(old.payload_len() == old.data@.len() - old.cursor);
        assert(new.payload_len() - old.payload_len() == shifted - new.cursor);
        assert(new.payload().subrange(new.payload_len() - old.payload_len(), new.payload_len() as int)
            =~= new.data@.subrange(shifted, new.data@.len() as int));
    }
}

/// Keeping what was written is transitive.
pub proof fn lemma_keeps_payload_trans(a: BufferVec, b: BufferVec, c: BufferVec)
    requires
        a.wf(),
        b.wf(),
        c.wf(),
        keeps_payload(a, b),
        keeps_payload(b, c),
    ensures
        keeps_payload(a, c),
{
    let pb = b.payload_len() as int;
    let pc = c.payload_len() as int;
    let pa = a.payload_len() as int;
    assert(c.payload().subrange(pc - pa, pc) =~= c.payload().subrange(pc - pb, pc).subrange(pb - pa, pb));
}

/// A handle finds its record again after later writes, and after the buffer grows:
/// where `b2` keeps what `b1` had written, the bytes from the handle's position to
/// the end are the same in both.
pub proof fn lemma_handle_survives(b1: BufferVec, b2: BufferVec, h: TailOffset)
    requires
        b1.wf(),
        b2.wf(),
        keeps_payload(b1, b2),
        h.0 <= b1.payload_len(),
    ensures
        h.0 <= b2.data@.len(),
        b2.data@.subrange(b2.data@.len() - h.0, b2.data@.len() as int) == b1.data@.subrange(
            b1.data@.len() - h.0,
            b1.data@.len() as int,
        ),
{
    let n1 = b1.data@.len() as int;
    let n2 = b2.data@.len() as int;
    let k = h.0 as int;
    assert(b2.data@.subrange(n2 - k, n2) =~= b2.payload().subrange(
        b2.payload_len() - b1.payload_len(),
        b2.payload_len() as int,
    ).subrange(b1.payload_len() - k, b1.payload_len() as int));
    assert(b1.data@.subrange(n1 - k, n1) =~= b1.payload().subrange(b1.payload_len() - k, b1.payload_len() as int));
}

/// The bytes of a string record: a 4-byte little-endian length, then the bytes.
pub open spec fn str_record_at(data: Seq<u8>, pos: int, bytes: Seq<u8>) -> bool {
    &&& 0 <= pos
    &&& pos + 4 + bytes.len() <= data.len()
    &&& data.subrange(pos, pos + 4) == le_bytes(bytes.len(), 4)
    &&& data.subrange(pos + 4, pos + 4 + bytes.len()) == bytes
}

/// Integers are written as their little-endian bytes, aligned to their natural alignment.
impl<T: LeScalar> RawBytes for T {
    open spec fn spec_skipped(&self) -> bool {
        false
    }

    open spec fn spec_size(&self) -> nat {
        T::spec_width()
    }

    open spec fn spec_align(&self) -> nat {
        vstd::layout::align_of::<T>()
    }

    open spec fn spec_span(&self) -> nat {
        T::spec_width()
    }

    open spec fn spec_back(&self) -> nat {
        0
    }

    open spec fn spec_laid_at(&self, data: Seq<u8>, pos: int) -> bool {
        &&& 0 <= pos
        &&& pos + T::spec_width() <= data.len()
        &&& data.subrange(pos, pos + T::spec_width()) == le_bytes(
            self.spec_wire(),
            T::spec_width(),
        )
    }

    fn size(&self) -> (r: usize) {
        T::width()
    }

    fn align(&self) -> (r: usize) {
        core::mem::align_of::<T>()
    }

    fn into_buffer(&self, buffer: &mut BufferVec) -> (r: Result<TailOffset>) {
        write_scalar(*self, buffer)
    }


    fn into_buffer_unchecked(&self, buffer: &mut BufferVec) -> (r: Result<TailOffset>) {
        write_scalar(*self, buffer)
    }
}

fn write_scalar<T: LeScalar>(x: T, buffer: &mut BufferVec) -> (r: Result<TailOffset>)
    requires
        old(buffer).wf(),
        vstd::layout::align_of::<T>() > 0,
        old(buffer).data@.len() + T::spec_width() + vstd::layout::align_of::<T>() + 4
            <= pow2_limit(),
        fits_after_growth(*old(buffer), T::spec_width() as int, vstd::layout::align_of::<T>() as int, 0),
    ensures
        placed(
            *old(buffer),
            *final(buffer),
            r,
            T::spec_width() as int,
            vstd::layout::align_of::<T>() as int,
            0,
            x.spec_laid_at(final(buffer).data@, final(buffer).cursor as int),
        ),
        start_at(
            old(buffer).cursor as int,
            T::spec_width() as int,
            vstd::layout::align_of::<T>() as int,
            0,
        ) >= 0 ==> final(buffer).data@.len() == old(buffer).data@.len(),
{
    let w = T::width();
    let a = core::mem::align_of::<T>();
    let p = claim(buffer, w, a, 0)?;
    let ghost mid = *buffer;
    write_le(buffer.data.as_mut_slice(), p, x.to_wire(), w);
    buffer.cursor = p;
    proof {
        let shifted = mid.cursor as int;
        assert(buffer.data@.subrange(shifted, buffer.data@.len() as int) =~= mid.data@.subrange(
            shifted,
            mid.data@.len() as int,
        ));
        assert(buffer.data@.subrange(p as int, p + w) =~= le_bytes(x.spec_wire(), w as nat));
        assert forall|k: int| 0 <= k < p implies #[trigger] buffer.data@[k] == mid.data@[k] by {}
    }
    Ok(buffer.handle())
}

/// Strings are written as a 4-byte length and their UTF-8 bytes, starting on a
/// 4-byte boundary; the empty string is not written at all.
impl RawBytes for str {
    open spec fn spec_skipped(&self) -> bool {
        self.spec_bytes().len() == 0
    }

    open spec fn spec_size(&self) -> nat {
        if self.spec_bytes().len() == 0 {
            0
        } else {
            self.spec_bytes().len() + 4
        }
    }

    open spec fn spec_align(&self) -> nat {
        4
    }

    open spec fn spec_span(&self) -> nat {
        self.spec_bytes().len() + 4
    }

    open spec fn spec_back(&self) -> nat {
        0
    }

    open spec fn spec_laid_at(&self, data: Seq<u8>, pos: int) -> bool {
        str_record_at(data, pos, self.spec_bytes())
    }

    fn size(&self) -> (r: usize) {
        let len = self.len();
        if len == 0 {
            0
        } else {
            len + 4
        }
    }

    fn align(&self) -> (r: usize) {
        4
    }

    fn into_buffer(&self, buffer: &mut BufferVec) -> (r: Result<TailOffset>) {
        write_str_bytes(self.as_bytes(), buffer)
    }

    fn into_buffer_unchecked(&self, buffer: &mut BufferVec) -> (r: Result<TailOffset>) {
        write_str_bytes(self.as_bytes(), buffer)
    }
}

/// Writes the string record of `bytes` (nothing for no bytes).
fn write_str_bytes(bytes: &[u8], buffer: &mut BufferVec) -> (r: Result<TailOffset>)
    requires
        old(buffer).wf(),
        old(buffer).data@.len() + bytes@.len() + 12 <= pow2_limit(),
        bytes@.len() > 0 ==> fits_after_growth(*old(buffer), bytes@.len() + 4int, 4, 0),
    ensures
        bytes@.len() == 0 ==> r == Ok::<TailOffset, Error>(TailOffset(0)) && *final(buffer) == *old(
            buffer,
        ),
        bytes@.len() > 0 ==> placed(
            *old(buffer),
            *final(buffer),
            r,
            bytes@.len() + 4int,
            4,
            0,
            str_record_at(final(buffer).data@, final(buffer).cursor as int, bytes@),
        ),
        bytes@.len() > 0 && start_at(old(buffer).cursor as int, bytes@.len() + 4int, 4, 0) >= 0
            ==> final(buffer).data@.len() == old(buffer).data@.len(),
{
    if bytes.len() == 0 {
        return Ok(TailOffset(0));
    }
    write_len_prefixed(bytes, buffer)
}

/// Writes a 4-byte length and then `bytes`, starting on a 4-byte boundary in front of
/// the payload, growing the buffer when needed.
pub(crate) fn write_len_prefixed(bytes: &[u8], buffer: &mut BufferVec) -> (r: Result<TailOffset>)
    requires
        old(buffer).wf(),
        old(buffer).data@.len() + bytes@.len() + 12 <= pow2_limit(),
        fits_after_growth(*old(buffer), bytes@.len() + 4int, 4, 0),
    ensures
        placed(
            *old(buffer),
            *final(buffer),
            r,
            bytes@.len() + 4int,
            4,
            0,
            str_record_at(final(buffer).data@, final(buffer).cursor as int, bytes@),
        ),
        start_at(old(buffer).cursor as int, bytes@.len() + 4int, 4, 0) >= 0
            ==> final(buffer).data@.len() == old(buffer).data@.len(),
{
    let len = bytes.len();
    proof {
        lemma_floor_props(old(buffer).cursor - (len + 4), 4);
    }
    let p = claim(buffer, len + 4, 4, 0)?;
    let ghost mid = *buffer;
    write_le(buffer.data.as_mut_slice(), p, len as u128, 4);
    copy_into(&mut buffer.data, p + 4, bytes);
    buffer.cursor = p;
    proof {
        let shifted = mid.cursor as int;
        assert(buffer.data@.subrange(shifted, buffer.data@.len() as int) =~= mid.data@.subrange(
            shifted,
            mid.data@.len() as int,
        ));
        assert(buffer.data@.subrange(p as int, p + 4) =~= le_bytes(len as nat, 4));
        assert(buffer.data@.subrange(p + 4, p + 4 + len) =~= bytes@);
        assert forall|k: int| 0 <= k < p implies #[trigger] buffer.data@[k] == mid.data@[k] by {}
    }
    Ok(buffer.handle())
}



/// The bytes of element `i` of an array record at `pos` with elements of `w` bytes.
pub open spec fn elem_at(data: Seq<u8>, pos: int, w: nat, i: int) -> Seq<u8> {
    data.subrange(pos + 4 + i * w, pos + 4 + i * w + w)
}

/// `data` holds, at `pos`, a 4-byte little-endian count followed by the
/// little-endian encodings of `items`.
pub open spec fn num_array_at<T: LeScalar>(data: Seq<u8>, pos: int, items: Seq<T>) -> bool {
    &&& 0 <= pos
    &&& pos + 4 + items.len() * T::spec_width() <= data.len()
    &&& data.subrange(pos, pos + 4) == le_bytes(items.len(), 4)
    &&& forall|i: int|
        0 <= i < items.len() ==> #[trigger] elem_at(data, pos, T::spec_width(), i) == le_bytes(
            items[i].spec_wire(),
            T::spec_width(),
        )
}

/// The alignment of an array record of `T`: that of `T`, but at least 4.
pub open spec fn array_align<T>() -> nat {
    if vstd::layout::align_of::<T>() < 4 {
        4
    } else {
        vstd::layout::align_of::<T>()
    }
}

proof fn lemma_mul_step(j: int, i: int, w: int)
    requires
        0 <= j < i,
        w >= 0,
    ensures
        j * w + w <= i * w,
        0 <= j * w,
{
    assert(j * w + w <= i * w) by (nonlinear_arith)
        requires
            0 <= j < i,
            w >= 0,
    ;
    assert(0 <= j * w) by (nonlinear_arith)
        requires
            0 <= j,
            w >= 0,
    ;
}

/// Arrays of integers are written as a 4-byte count followed by the elements;
/// the elements start on a boundary of the element alignment (at least 4).
impl<T: LeScalar> RawBytes for [T] {
    open spec fn spec_skipped(&self) -> bool {
        false
    }

    open spec fn spec_size(&self) -> nat {
        self@.len() * T::spec_width() + 4
    }

    open spec fn spec_align(&self) -> nat {
        array_align::<T>()
    }

    open spec fn spec_span(&self) -> nat {
        self@.len() * T::spec_width()
    }

    open spec fn spec_back(&self) -> nat {
        4
    }

    open spec fn spec_laid_at(&self, data: Seq<u8>, pos: int) -> bool {
        num_array_at(data, pos, self@)
    }

    fn size(&self) -> (r: usize) {
        self.len() * T::width() + 4
    }

    fn align(&self) -> (r: usize) {
        let a = core::mem::align_of::<T>();
        if a < 4 {
            4
        } else {
            a
        }
    }

    fn into_buffer(&self, buffer: &mut BufferVec) -> (r: Result<TailOffset>) {
        write_num_array(self, buffer)
    }

    fn into_buffer_unchecked(&self, buffer: &mut BufferVec) -> (r: Result<TailOffset>) {
        write_num_array(self, buffer)
    }
}

fn write_num_array<T: LeScalar>(items: &[T], buffer: &mut BufferVec) -> (r: Result<TailOffset>)
    requires
        old(buffer).wf(),
        old(buffer).data@.len() + items@.len() * T::spec_width() + array_align::<T>() + 8
            <= pow2_limit(),
        fits_after_growth(
            *old(buffer),
            (items@.len() * T::spec_width()) as int,
            array_align::<T>() as int,
            4,
        ),
    ensures
        placed(
            *old(buffer),
            *final(buffer),
            r,
            (items@.len() * T::spec_width()) as int,
            array_align::<T>() as int,
            4,
            num_array_at(final(buffer).data@, final(buffer).cursor as int, items@),
        ),
        start_at(
            old(buffer).cursor as int,
            (items@.len() * T::spec_width()) as int,
            array_align::<T>() as int,
            4,
        ) >= 0 ==> final(buffer).data@.len() == old(buffer).data@.len(),
{
    let n = items.len();
    let w = T::width();
    let a0 = core::mem::align_of::<T>();
    let a = if a0 < 4 {
        4
    } else {
        a0
    };
    let p = claim(buffer, n * w, a, 4)?;
    let ghost mid = *buffer;
    write_le(buffer.data.as_mut_slice(), p, n as u128, 4);
    let ghost hdr = buffer.data@;
    assert(hdr.subrange(p as int, p + 4) =~= le_bytes(n as nat, 4));
    let mut i: usize = 0;
    while i < n
        invariant
            i <= n,
            n == items@.len(),
            w == T::spec_width(),
            1 <= w <= 16,
            p + 4 + n * w <= mid.cursor,
            mid.cursor <= mid.data@.len(),
            buffer.data@.len() == hdr.len(),
            buffer.max_size == mid.max_size,
            buffer.cursor == mid.cursor,
            hdr.len() == mid.data@.len(),
            hdr.subrange(p as int, p + 4) == le_bytes(n as nat, 4),
            forall|k: int| p + 4 <= k < hdr.len() ==> hdr[k] == mid.data@[k],
            forall|k: int| 0 <= k < p ==> hdr[k] == mid.data@[k],
            forall|k: int| 0 <= k < p + 4 ==> buffer.data@[k] == hdr[k],
            forall|k: int| p + 4 + n * w <= k < hdr.len() ==> buffer.data@[k] == hdr[k],
            forall|j: int|
                0 <= j < i ==> #[trigger] elem_at(buffer.data@, p as int, w as nat, j) == le_bytes(
                    items@[j].spec_wire(),
                    w as nat,
                ),
        decreases n - i,
    {
        proof {
            lemma_mul_step(i as int, n as int, w as int);
        }
        let ghost before = buffer.data@;
        write_le(buffer.data.as_mut_slice(), p + 4 + i * w, items[i].to_wire(), w);
        proof {
            let q = p + 4 + i * w;
            assert forall|j: int| 0 <= j < i + 1 implies #[trigger] elem_at(
                buffer.data@,
                p as int,
                w as nat,
                j,
            ) == le_bytes(items@[j].spec_wire(), w as nat) by {
                if j < i {
                    lemma_mul_step(j, i as int, w as int);
                    assert(elem_at(buffer.data@, p as int, w as nat, j) =~= elem_at(
                        before,
                        p as int,
                        w as nat,
                        j,
                    ));
                } else {
                    assert(elem_at(buffer.data@, p as int, w as nat, j) =~= le_bytes(
                        items@[j].spec_wire(),
                        w as nat,
                    ));
                }
            }
        }
        i = i + 1;
    }
    buffer.cursor = p;
    proof {
        let shifted = mid.cursor as int;
        assert(p + 4 + n * w <= shifted);
        assert forall|k: int| shifted <= k < hdr.len() implies buffer.data@[k] == mid.data@[k] by {
            assert(buffer.data@[k] == hdr[k]);
            assert(hdr[k] == mid.data@[k]);
        }
        assert(buffer.data@.subrange(shifted, buffer.data@.len() as int) =~= mid.data@.subrange(
            shifted,
            mid.data@.len() as int,
        ));
        assert(buffer.data@.subrange(p as int, p + 4) =~= hdr.subrange(p as int, p + 4));
        assert forall|k: int| 0 <= k < p implies #[trigger] buffer.data@[k] == mid.data@[k] by {
            assert(buffer.data@[k] == hdr[k]);
        }
    }
    Ok(buffer.handle())
}



// ---------------------------------------------------------------------------
// String arrays: [u32 count][u32 jump slot per entry][string records]
// ---------------------------------------------------------------------------

/// Bytes a string record takes (nothing for the empty string).
pub open spec fn rec_len(b: Seq<u8>) -> nat {
    if b.len() == 0 {
        0
    } else {
        b.len() + 4
    }
}

/// `x` rounded up to a multiple of 4.
pub open spec fn align4(x: nat) -> nat {
    floor_to(x + 3int, 4) as nat
}

/// The room the first `k` records take when each is rounded up to 4 bytes.
pub open spec fn aligned_sum(items: Seq<Seq<u8>>, k: int) -> nat
    decreases k,
{
    if k <= 0 {
        0
    } else {
        aligned_sum(items, k - 1) + align4(rec_len(items[k - 1]))
    }
}

/// The room all records take: every record but the last rounded up to 4 bytes.
pub open spec fn str_array_payload(items: Seq<Seq<u8>>) -> nat {
    if items.len() == 0 {
        0
    } else {
        aligned_sum(items, items.len() - 1) + rec_len(items[items.len() - 1])
    }
}

/// The size of a string-array block: count, jump table and records (nothing when empty).
pub open spec fn str_array_size(items: Seq<Seq<u8>>) -> nat {
    if items.len() == 0 {
        0
    } else {
        str_array_payload(items) + 4 * items.len() + 4
    }
}

/// The 4 bytes of jump slot `i` of a string-array block at `pos`.
pub open spec fn slot_bytes(data: Seq<u8>, pos: int, i: int) -> Seq<u8> {
    data.subrange(pos + 4 + 4 * i, pos + 8 + 4 * i)
}

/// Jump slot `i` of the block at `pos` leads to a record of `bytes`: it holds 0 for an
/// empty entry, and otherwise the distance from the slot to the entry's record.
pub open spec fn entry_ok(data: Seq<u8>, pos: int, i: int, bytes: Seq<u8>) -> bool {
    if bytes.len() == 0 {
        slot_bytes(data, pos, i) == le_bytes(0, 4)
    } else {
        exists|t: int|
            pos + 8 + 4 * i <= t && #[trigger] str_record_at(data, t, bytes) && slot_bytes(
                data,
                pos,
                i,
            ) == le_bytes((t - (pos + 4 + 4 * i)) as nat, 4)
    }
}

/// `data` holds at `pos` a string-array block of the given entries.
pub open spec fn str_array_at(data: Seq<u8>, pos: int, items: Seq<Seq<u8>>) -> bool {
    &&& 0 <= pos
    &&& pos + 4 + 4 * items.len() <= data.len()
    &&& data.subrange(pos, pos + 4) == le_bytes(items.len(), 4)
    &&& forall|i: int| 0 <= i < items.len() ==> #[trigger] entry_ok(data, pos, i, items[i])
}

/// Element types of string arrays.
pub trait StrItem {
    spec fn spec_chars(&self) -> Seq<char>;

    fn item_bytes(&self) -> (r: &[u8])
        ensures
            r@ == encode_utf8(self.spec_chars()),
    ;
}

impl<'a> StrItem for &'a str {
    open spec fn spec_chars(&self) -> Seq<char> {
        (**self)@
    }

    fn item_bytes(&self) -> (r: &[u8]) {
        self.as_bytes()
    }
}

impl StrItem for String {
    open spec fn spec_chars(&self) -> Seq<char> {
        self@
    }

    fn item_bytes(&self) -> (r: &[u8]) {
        self.as_str().as_bytes()
    }
}

/// The UTF-8 bytes of each entry.
pub open spec fn items_bytes<S: StrItem>(items: Seq<S>) -> Seq<Seq<u8>> {
    Seq::new(items.len(), |i: int| encode_utf8(items[i].spec_chars()))
}

proof fn lemma_align4(x: nat)
    ensures
        align4(x) >= x,
        align4(x) < x + 4,
        align4(x) % 4 == 0,
        x == 0 ==> align4(x) == 0,
{
    lemma_floor_props(x + 3int, 4);
}

proof fn lemma_aligned_sum(items: Seq<Seq<u8>>, k: int, j: int)
    requires
        0 <= j <= k <= items.len(),
    ensures
        aligned_sum(items, k) % 4 == 0,
        aligned_sum(items, j) <= aligned_sum(items, k),
    decreases k,
{
    if k > 0 {
        lemma_align4(rec_len(items[k - 1]));
        if j < k {
            lemma_aligned_sum(items, k - 1, j);
        } else {
            lemma_aligned_sum(items, k - 1, k - 1);
        }
    }
}

proof fn lemma_floor_multiple(m: int, a: int)
    requires
        a > 0,
        m % a == 0,
    ensures
        floor_to(m, a) == m,
{
}

proof fn lemma_floor_shift(x: int, m: int, a: int)
    requires
        a > 0,
        m % a == 0,
    ensures
        floor_to(x - m, a) == floor_to(x, a) - m,
{
    let q = x / a;
    let r = x % a;
    let mq = m / a;
    vstd::arithmetic::div_mod::lemma_fundamental_div_mod(x, a);
    vstd::arithmetic::div_mod::lemma_fundamental_div_mod(m, a);
    assert(x - m == (q - mq) * a + r) by (nonlinear_arith)
        requires
            x == a * q + r,
            m == a * mq,
    ;
    vstd::arithmetic::div_mod::lemma_fundamental_div_mod_converse(x - m, a, q - mq, r);
}

/// Computes [`str_array_payload`] of the entries.
fn str_array_payload_of<S: StrItem>(items: &[S]) -> (r: usize)
    requires
        items@.len() > 0,
        str_array_payload(items_bytes(items@)) <= usize::MAX,
    ensures
        r as nat == str_array_payload(items_bytes(items@)),
{
    let ghost bs = items_bytes(items@);
    let n = items.len();
    let mut acc: usize = 0;
    let mut i: usize = 0;
    proof {
        lemma_aligned_sum(bs, n - 1, n - 1);
    }
    while i < n - 1
        invariant
            i <= n - 1,
            n == items@.len(),
            n > 0,
            bs == items_bytes(items@),
            acc as nat == aligned_sum(bs, i as int),
            aligned_sum(bs, (n - 1) as int) + rec_len(bs[n - 1]) <= usize::MAX,
        decreases n - 1 - i,
    {
        let len = items[i].item_bytes().len();
        proof {
            assert(bs[i as int].len() == len);
            lemma_aligned_sum(bs, (n - 1) as int, i + 1);
            lemma_align4(rec_len(bs[i as int]));
        }
        let rec = if len == 0 {
            0
        } else {
            len + 4
        };
        acc = acc + floor_usize(rec + 3, 4);
        i = i + 1;
    }
    let last = items[n - 1].item_bytes().len();
    if last == 0 {
        acc
    } else {
        acc + last + 4
    }
}



/// Room still needed in front of the cursor for the entries `0..k` of a block whose
/// entries `k..` have been written (the last entry is not rounded up).
pub open spec fn room_needed(items: Seq<Seq<u8>>, k: int) -> nat {
    if k == items.len() {
        str_array_payload(items)
    } else {
        aligned_sum(items, k)
    }
}

/// Entry `j` of the block at `pos` is complete: its slot is 0 for an empty entry, and
/// otherwise leads to its record at `t`, which lies within `[lo, hi)`.
pub open spec fn done_entry(
    data: Seq<u8>,
    pos: int,
    j: int,
    b: Seq<u8>,
    t: int,
    lo: int,
    hi: int,
) -> bool {
    if b.len() == 0 {
        slot_bytes(data, pos, j) == le_bytes(0, 4)
    } else {
        &&& pos + 8 + 4 * j <= lo <= t
        &&& t + 4 + b.len() <= hi
        &&& str_record_at(data, t, b)
        &&& slot_bytes(data, pos, j) == le_bytes((t - (pos + 4 + 4 * j)) as nat, 4)
    }
}

proof fn lemma_done_kept(
    old: Seq<u8>,
    new: Seq<u8>,
    pos: int,
    j: int,
    b: Seq<u8>,
    t: int,
    lo: int,
    hi: int,
    lo2: int,
    a: int,
    e: int,
)
    requires
        done_entry(old, pos, j, b, t, lo, hi),
        0 <= pos,
        0 <= j,
        pos + 8 + 4 * j <= old.len(),
        new.len() == old.len(),
        forall|x: int| 0 <= x < old.len() && !(a <= x < e) ==> #[trigger] new[x] == old[x],
        pos + 8 + 4 * j <= a || e <= pos + 4 + 4 * j,
        b.len() > 0 ==> e <= lo,
        b.len() > 0 ==> pos + 8 + 4 * j <= lo2 <= lo,
    ensures
        done_entry(new, pos, j, b, t, lo2, hi),
{
    assert(slot_bytes(new, pos, j) =~= slot_bytes(old, pos, j));
    if b.len() > 0 {
        assert(new.subrange(t, t + 4) =~= old.subrange(t, t + 4));
        assert(new.subrange(t + 4, t + 4 + b.len()) =~= old.subrange(t + 4, t + 4 + b.len()));
    }
}

proof fn lemma_rec_le_payload(bs: Seq<Seq<u8>>, i: int)
    requires
        0 <= i < bs.len(),
    ensures
        rec_len(bs[i]) <= str_array_payload(bs),
{
    let n = bs.len() as int;
    if i < n - 1 {
        lemma_aligned_sum(bs, n - 1, i + 1);
        lemma_align4(rec_len(bs[i]));
        lemma_aligned_sum(bs, i, 0);
    }
}

/// Writes the string record of `bytes` right below the cursor, which has room for it.
fn write_str_record(bytes: &[u8], buffer: &mut BufferVec)
    requires
        old(buffer).wf(),
        bytes@.len() > 0,
        old(buffer).cursor >= bytes@.len() + 4,
    ensures
        final(buffer).wf(),
        final(buffer).data@.len() == old(buffer).data@.len(),
        final(buffer).max_size == old(buffer).max_size,
        final(buffer).cursor == floor_to(old(buffer).cursor - (bytes@.len() + 4), 4),
        str_record_at(final(buffer).data@, final(buffer).cursor as int, bytes@),
        forall|x: int|
            0 <= x < old(buffer).data@.len() && !(final(buffer).cursor <= x < old(buffer).cursor)
                ==> #[trigger] final(buffer).data@[x] == old(buffer).data@[x],
{
    let len = bytes.len();
    let p = floor_usize(buffer.cursor - (len + 4), 4);
    proof {
        lemma_floor_props(old(buffer).cursor - (len + 4), 4);
    }
    write_le(buffer.data.as_mut_slice(), p, len as u128, 4);
    copy_into(&mut buffer.data, p + 4, bytes);
    buffer.cursor = p;
    proof {
        assert(buffer.data@.subrange(p as int, p + 4) =~= le_bytes(len as nat, 4));
        assert(buffer.data@.subrange(p + 4, p + 4 + len) =~= bytes@);
    }
}

/// The state while a string-array block at `p` is filled from its last entry down:
/// the entries `k..` are complete, nothing below slot `k` nor above the old cursor
/// has changed, and the cursor leaves room for the entries `0..k`.
pub open spec fn filling(
    b: BufferVec,
    mid: BufferVec,
    p: int,
    bs: Seq<Seq<u8>>,
    k: int,
    targets: Seq<int>,
) -> bool {
    let n = bs.len() as int;
    let big_p = p + 4 + 4 * n;
    &&& 0 <= k <= n
    &&& 0 <= p
    &&& big_p % 4 == 0
    &&& big_p + str_array_payload(bs) <= mid.cursor
    &&& mid.wf()
    &&& b.wf()
    &&& b.data@.len() == mid.data@.len()
    &&& b.max_size == mid.max_size
    &&& big_p + room_needed(bs, k) <= b.cursor <= mid.cursor
    &&& forall|x: int| 0 <= x < p + 4 + 4 * k ==> #[trigger] b.data@[x] == mid.data@[x]
    &&& forall|x: int| mid.cursor <= x < mid.data@.len() ==> #[trigger] b.data@[x] == mid.data@[x]
    &&& targets.len() == n
    &&& forall|j: int|
        k <= j < n ==> #[trigger] done_entry(
            b.data@,
            p,
            j,
            bs[j],
            targets[j],
            b.cursor as int,
            mid.cursor as int,
        )
}

/// Writes entry `k - 1` of a string-array block: its record (if not empty) and its slot.
#[verifier::rlimit(80)]
fn write_entry<S: StrItem>(
    items: &[S],
    buffer: &mut BufferVec,
    k: usize,
    p: usize,
    Ghost(mid): Ghost<BufferVec>,
    Ghost(targets): Ghost<Seq<int>>,
) -> (r: Ghost<Seq<int>>)
    requires
        0 < k <= items@.len(),
        filling(*old(buffer), mid, p as int, items_bytes(items@), k as int, targets),
    ensures
        filling(*final(buffer), mid, p as int, items_bytes(items@), k - 1, r@),
{
    let ghost bs = items_bytes(items@);
    let ghost n = items@.len() as int;
    let ghost big_p = p + 4 + 4 * n;
    let i = k - 1;
    let bytes = items[i].item_bytes();
    let ghost before = *buffer;
    let c = buffer.cursor;
    proof {
        assert(bytes@ == bs[i as int]);
        lemma_aligned_sum(bs, i as int, i as int);
        lemma_align4(rec_len(bs[i as int]));
        if bytes@.len() > 0 {
            let m = big_p + aligned_sum(bs, i as int);
            assert(c - (bytes@.len() + 4) >= m);
            lemma_floor_mono(m, c - (bytes@.len() + 4), 4);
            lemma_floor_multiple(m, 4);
        }
    }
    if bytes.len() > 0 {
        write_str_record(bytes, buffer);
    }
    let c2 = buffer.cursor;
    proof {
        assert forall|j: int| k <= j < n implies #[trigger] done_entry(
            buffer.data@,
            p as int,
            j,
            bs[j],
            targets[j],
            c2 as int,
            mid.cursor as int,
        ) by {
            lemma_done_kept(
                before.data@,
                buffer.data@,
                p as int,
                j,
                bs[j],
                targets[j],
                c as int,
                mid.cursor as int,
                c2 as int,
                c2 as int,
                c as int,
            );
        }
    }
    let slot = p + 4 + 4 * i;
    let jump: usize = if bytes.len() == 0 {
        0
    } else {
        c2 - slot
    };
    let ghost before2 = buffer.data@;
    write_le(buffer.data.as_mut_slice(), slot, jump as u128, 4);
    let ghost new_targets = targets.update(i as int, c2 as int);
    proof {
        assert forall|x: int|
            0 <= x < before2.len() && !(slot <= x < slot + 4) implies #[trigger] buffer.data@[x]
            == before2[x] by {}
        assert forall|j: int| k <= j < n implies #[trigger] done_entry(
            buffer.data@,
            p as int,
            j,
            bs[j],
            new_targets[j],
            c2 as int,
            mid.cursor as int,
        ) by {
            lemma_done_kept(
                before2,
                buffer.data@,
                p as int,
                j,
                bs[j],
                targets[j],
                c2 as int,
                mid.cursor as int,
                c2 as int,
                slot as int,
                slot + 4,
            );
        }
        assert(slot_bytes(buffer.data@, p as int, i as int) =~= le_bytes(jump as nat, 4));
        if bytes@.len() > 0 {
            assert(buffer.data@.subrange(c2 as int, c2 + 4) =~= before2.subrange(
                c2 as int,
                c2 + 4,
            ));
            assert(buffer.data@.subrange(c2 + 4, c2 + 4 + bytes@.len()) =~= before2.subrange(
                c2 + 4,
                c2 + 4 + bytes@.len(),
            ));
        }
        assert(done_entry(
            buffer.data@,
            p as int,
            i as int,
            bs[i as int],
            new_targets[i as int],
            c2 as int,
            mid.cursor as int,
        ));
        assert forall|x: int| 0 <= x < p + 4 + 4 * i implies #[trigger] buffer.data@[x]
            == mid.data@[x] by {
            assert(buffer.data@[x] == before2[x]);
            assert(before2[x] == before.data@[x]);
        }
        assert forall|x: int| mid.cursor <= x < mid.data@.len() implies #[trigger] buffer.data@[x]
            == mid.data@[x] by {
            assert(buffer.data@[x] == before2[x]);
            assert(before2[x] == before.data@[x]);
        }
    }
    Ghost(new_targets)
}

fn write_str_array<S: StrItem>(items: &[S], buffer: &mut BufferVec) -> (r: Result<TailOffset>)
    requires
        old(buffer).wf(),
        old(buffer).data@.len() + str_array_size(items_bytes(items@)) + 8 <= pow2_limit(),
        items@.len() > 0 ==> fits_after_growth(
            *old(buffer),
            str_array_size(items_bytes(items@)) as int,
            4,
            0,
        ),
    ensures
        items@.len() == 0 ==> r == Ok::<TailOffset, Error>(TailOffset(0)) && *final(buffer) == *old(
            buffer,
        ),
        items@.len() > 0 ==> placed(
            *old(buffer),
            *final(buffer),
            r,
            str_array_size(items_bytes(items@)) as int,
            4,
            0,
            str_array_at(final(buffer).data@, final(buffer).cursor as int, items_bytes(items@)),
        ),
        items@.len() > 0 && start_at(
            old(buffer).cursor as int,
            str_array_size(items_bytes(items@)) as int,
            4,
            0,
        ) >= 0 ==> final(buffer).data@.len() == old(buffer).data@.len(),
{
    let n = items.len();
    if n == 0 {
        return Ok(TailOffset(0));
    }
    let ghost bs = items_bytes(items@);
    let payload = str_array_payload_of(items);
    let table = n * 4;
    let size = payload + table + 4;
    let p = claim(buffer, size, 4, 0)?;
    let ghost mid = *buffer;
    proof {
        lemma_floor_props(mid.cursor - size, 4);
        lemma_floor_shift(mid.cursor - payload, table + 4, 4);
        lemma_floor_props(mid.cursor - payload, 4);
    }
    let mut k = n;
    let ghost mut targets: Seq<int> = Seq::new(n as nat, |i: int| 0);
    assert(filling(*buffer, mid, p as int, bs, k as int, targets));
    while k > 0
        invariant
            k <= n,
            n == items@.len(),
            bs == items_bytes(items@),
            filling(*buffer, mid, p as int, bs, k as int, targets),
        decreases k,
    {
        let Ghost(t2) = write_entry(items, buffer, k, p, Ghost(mid), Ghost(targets));
        proof {
            targets = t2;
        }
        k = k - 1;
    }
    let ghost before3 = buffer.data@;
    let ghost c_end = buffer.cursor as int;
    write_le(buffer.data.as_mut_slice(), p, n as u128, 4);
    buffer.cursor = p;
    proof {
        assert forall|x: int|
            0 <= x < before3.len() && !(p <= x < p + 4) implies #[trigger] buffer.data@[x]
            == before3[x] by {}
        assert(buffer.data@.subrange(p as int, p + 4) =~= le_bytes(n as nat, 4));
        assert forall|j: int| 0 <= j < n implies #[trigger] entry_ok(
            buffer.data@,
            p as int,
            j,
            bs[j],
        ) by {
            lemma_done_kept(
                before3,
                buffer.data@,
                p as int,
                j,
                bs[j],
                targets[j],
                c_end,
                mid.cursor as int,
                c_end,
                p as int,
                p + 4,
            );
            if bs[j].len() > 0 {
                let t = targets[j];
                assert(str_record_at(buffer.data@, t, bs[j]));
            }
        }
        let shifted = mid.cursor as int;
        assert(buffer.data@.subrange(shifted, buffer.data@.len() as int) =~= mid.data@.subrange(
            shifted,
            mid.data@.len() as int,
        ));
        assert forall|x: int| 0 <= x < p implies #[trigger] buffer.data@[x] == mid.data@[x] by {
            assert(buffer.data@[x] == before3[x]);
        }
    }
    Ok(buffer.handle())
}

/// Arrays of strings are written as a block: a 4-byte count, a table of 4-byte jump
/// slots (0 for empty entries, otherwise the distance from the slot to the entry's
/// record) and the string records; an empty array is not written at all.
impl<'a> RawBytes for [&'a str] {
    open spec fn spec_skipped(&self) -> bool {
        self@.len() == 0
    }

    open spec fn spec_size(&self) -> nat {
        str_array_size(items_bytes(self@))
    }

    open spec fn spec_align(&self) -> nat {
        4
    }

    open spec fn spec_span(&self) -> nat {
        str_array_size(items_bytes(self@))
    }

    open spec fn spec_back(&self) -> nat {
        0
    }

    open spec fn spec_laid_at(&self, data: Seq<u8>, pos: int) -> bool {
        str_array_at(data, pos, items_bytes(self@))
    }

    fn size(&self) -> (r: usize) {
        str_array_size_of(self)
    }

    fn align(&self) -> (r: usize) {
        4
    }

    fn into_buffer(&self, buffer: &mut BufferVec) -> (r: Result<TailOffset>) {
        write_str_array(self, buffer)
    }

    fn into_buffer_unchecked(&self, buffer: &mut BufferVec) -> (r: Result<TailOffset>) {
        write_str_array(self, buffer)
    }
}

impl RawBytes for [String] {
    open spec fn spec_skipped(&self) -> bool {
        self@.len() == 0
    }

    open spec fn spec_size(&self) -> nat {
        str_array_size(items_bytes(self@))
    }

    open spec fn spec_align(&self) -> nat {
        4
    }

    open spec fn spec_span(&self) -> nat {
        str_array_size(items_bytes(self@))
    }

    open spec fn spec_back(&self) -> nat {
        0
    }

    open spec fn spec_laid_at(&self, data: Seq<u8>, pos: int) -> bool {
        str_array_at(data, pos, items_bytes(self@))
    }

    fn size(&self) -> (r: usize) {
        str_array_size_of(self)
    }

    fn align(&self) -> (r: usize) {
        4
    }

    fn into_buffer(&self, buffer: &mut BufferVec) -> (r: Result<TailOffset>) {
        write_str_array(self, buffer)
    }

    fn into_buffer_unchecked(&self, buffer: &mut BufferVec) -> (r: Result<TailOffset>) {
        write_str_array(self, buffer)
    }
}

/// Computes [`str_array_size`] of the entries.
fn str_array_size_of<S: StrItem>(items: &[S]) -> (r: usize)
    requires
        str_array_size(items_bytes(items@)) <= usize::MAX,
    ensures
        r as nat == str_array_size(items_bytes(items@)),
{
    let n = items.len();
    if n == 0 {
        return 0;
    }
    let payload = str_array_payload_of(items);
    payload + n * 4 + 4
}

} // verus!
