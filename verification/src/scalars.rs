use vstd::prelude::*;

verus! {

/// `256^n`, the number of distinct values `n` bytes can hold.
pub open spec fn pow256(n: nat) -> nat
    decreases n,
{
    if n == 0 {
        1
    } else {
        256 * pow256((n - 1) as nat)
    }
}

/// The little-endian encoding of `v` in `n` bytes (the value is taken modulo `256^n`).
pub open spec fn le_bytes(v: nat, n: nat) -> Seq<u8> {
    Seq::new(n, |j: int| ((v / pow256(j as nat)) % 256) as u8)
}

/// The number that the little-endian byte string `s` denotes.
pub open spec fn le_value(s: Seq<u8>) -> nat
    decreases s.len(),
{
    if s.len() == 0 {
        0
    } else {
        s[0] as nat + 256 * le_value(s.drop_first())
    }
}

/// The two's-complement bit pattern, as a natural number, of `x` in `n` bytes.
pub open spec fn twos_wire(x: int, n: nat) -> nat {
    if x >= 0 {
        x as nat
    } else {
        (x + pow256(n)) as nat
    }
}

pub proof fn lemma_pow256_pos(n: nat)
    ensures
        pow256(n) >= 1,
    decreases n,
{
    if n > 0 {
        lemma_pow256_pos((n - 1) as nat);
    }
}

pub proof fn lemma_pow256_add(a: nat, b: nat)
    ensures
        pow256(a + b) == pow256(a) * pow256(b),
    decreases a,
{
    if a > 0 {
        lemma_pow256_add((a - 1) as nat, b);
        assert(pow256(a) == 256 * pow256((a - 1) as nat));
        assert(pow256(a + b) == 256 * pow256((a - 1 + b) as nat));
        assert(256 * (pow256((a - 1) as nat) * pow256(b)) == (256 * pow256((a - 1) as nat))
            * pow256(b)) by (nonlinear_arith);
    } else {
        assert(pow256(0) == 1);
        assert(pow256(a + b) == pow256(b));
    }
}

pub proof fn lemma_pow256_values()
    ensures
        pow256(1) == 0x100,
        pow256(2) == 0x1_0000,
        pow256(4) == 0x1_0000_0000,
        pow256(8) == 0x1_0000_0000_0000_0000,
        pow256(16) == 0x1_0000_0000_0000_0000_0000_0000_0000_0000,
{
    reveal_with_fuel(pow256, 17);
}

pub proof fn lemma_pow256_mono(a: nat, b: nat)
    requires
        a <= b,
    ensures
        pow256(a) <= pow256(b),
{
    lemma_pow256_add(a, (b - a) as nat);
    lemma_pow256_pos(a);
    lemma_pow256_pos((b - a) as nat);
    assert(pow256(a) * pow256((b - a) as nat) >= pow256(a) * 1) by (nonlinear_arith)
        requires
            pow256((b - a) as nat) >= 1,
            pow256(a) >= 1,
    ;
}

pub proof fn lemma_le_value_bound(s: Seq<u8>)
    ensures
        le_value(s) < pow256(s.len()),
    decreases s.len(),
{
    if s.len() > 0 {
        lemma_le_value_bound(s.drop_first());
        let r = le_value(s.drop_first());
        let p = pow256((s.len() - 1) as nat);
        assert(s[0] as nat + 256 * r < 256 * p) by (nonlinear_arith)
            requires
                r < p,
                s[0] < 256,
        ;
    }
}

proof fn lemma_div_div_right(v: nat, j: nat)
    ensures
        (v / pow256(j)) / 256 == v / pow256(j + 1),
{
    lemma_pow256_pos(j);
    assert(pow256(j + 1) == 256 * pow256(j));
    assert(pow256(j) * 256 == 256 * pow256(j)) by (nonlinear_arith);
    vstd::arithmetic::div_mod::lemma_div_denominator(v as int, pow256(j) as int, 256);
}

proof fn lemma_div_div(v: nat, j: nat)
    ensures
        (v / 256) / pow256(j) == v / pow256(j + 1),
{
    lemma_pow256_pos(j);
    assert(pow256(j + 1) == 256 * pow256(j));
    vstd::arithmetic::div_mod::lemma_div_denominator(v as int, 256, pow256(j) as int);
}

/// Decoding an encoding gives the value back, reduced modulo `256^n`.
pub proof fn lemma_le_round_trip(v: nat, n: nat)
    ensures
        le_value(le_bytes(v, n)) == v % pow256(n),
    decreases n,
{
    if n > 0 {
        let s = le_bytes(v, n);
        let t = le_bytes(v / 256, (n - 1) as nat);
        assert forall|j: int| 0 <= j < n - 1 implies s.drop_first()[j] == t[j] by {
            lemma_div_div(v, j as nat);
        }
        assert(s.drop_first() =~= t);
        lemma_le_round_trip(v / 256, (n - 1) as nat);
        assert(pow256(0) == 1);
        assert(v / 1 == v);
        assert(s[0] == (v % 256) as u8);
        let p = pow256((n - 1) as nat);
        lemma_pow256_pos((n - 1) as nat);
        assert(pow256(n) == 256 * p);
        // v % (256 p) == v % 256 + 256 * ((v / 256) % p)
        vstd::arithmetic::div_mod::lemma_breakdown(v as int, 256, p as int);
    }
}

/// Encoding a decoded byte string gives the bytes back.
pub proof fn lemma_le_bytes_of_value(s: Seq<u8>)
    ensures
        le_bytes(le_value(s), s.len()) == s,
    decreases s.len(),
{
    if s.len() > 0 {
        let v = le_value(s);
        let r = le_value(s.drop_first());
        lemma_le_bytes_of_value(s.drop_first());
        assert(v / 256 == r && v % 256 == s[0]) by {
            vstd::arithmetic::div_mod::lemma_fundamental_div_mod_converse(
                v as int,
                256,
                r as int,
                s[0] as int,
            );
        }
        let e = le_bytes(v, s.len());
        assert forall|j: int| 0 <= j < s.len() implies e[j] == s[j] by {
            if j > 0 {
                lemma_div_div(v, (j - 1) as nat);
                assert(e[j] == le_bytes(r, (s.len() - 1) as nat)[j - 1]);
                assert(s.drop_first()[j - 1] == s[j]);
            } else {
                assert(pow256(0) == 1);
                assert(v / 1 == v);
            }
        }
        assert(e =~= s);
    }
}

/// Two byte strings of the same length that denote the same number are equal.
pub proof fn lemma_le_value_injective(s: Seq<u8>, t: Seq<u8>)
    requires
        s.len() == t.len(),
        le_value(s) == le_value(t),
    ensures
        s == t,
{
    lemma_le_bytes_of_value(s);
    lemma_le_bytes_of_value(t);
}

/// Writes the little-endian encoding of `v` into `data[pos..pos + n]`.
pub fn write_le(data: &mut [u8], pos: usize, v: u128, n: usize)
    requires
        pos + n <= old(data).len(),
        n <= 16,
    ensures
        final(data)@.len() == old(data)@.len(),
        final(data)@ == old(data)@.subrange(0, pos as int) + le_bytes(v as nat, n as nat)
            + old(data)@.subrange(pos + n, old(data)@.len() as int),
{
    let mut cur: u128 = v;
    let mut i: usize = 0;
    assert(pow256(0) == 1);
    while i < n
        invariant
            i <= n,
            n <= 16,
            pos + n <= data.len(),
            data@.len() == old(data)@.len(),
            cur == v as nat / pow256(i as nat),
            forall|j: int| 0 <= j < pos ==> data@[j] == old(data)@[j],
            forall|j: int| pos + n <= j < data@.len() ==> data@[j] == old(data)@[j],
            forall|j: int| 0 <= j < i ==> data@[pos + j] == le_bytes(v as nat, n as nat)[j],
        decreases n - i,
    {
        data[pos + i] = (cur % 256) as u8;
        proof {
            lemma_div_div_right(v as nat, i as nat);
        }
        cur = cur / 256;
        i = i + 1;
    }
    assert(data@ =~= old(data)@.subrange(0, pos as int) + le_bytes(v as nat, n as nat) + old(
        data,
    )@.subrange(pos + n, old(data)@.len() as int));
}

/// Reads the number that `buf[pos..pos + n]` denotes in little-endian order.
pub fn read_le(buf: &[u8], pos: usize, n: usize) -> (r: u128)
    requires
        pos + n <= buf@.len(),
        n <= 16,
    ensures
        r as nat == le_value(buf@.subrange(pos as int, pos + n)),
{
    let mut acc: u128 = 0;
    let mut i: usize = n;
    proof {
        lemma_pow256_values();
    }
    while i > 0
        invariant
            i <= n,
            n <= 16,
            pos + n <= buf.len(),
            acc as nat == le_value(buf@.subrange(pos + i, pos + n)),
            pow256(16) == 0x1_0000_0000_0000_0000_0000_0000_0000_0000,
        decreases i,
    {
        let ghost prev = buf@.subrange(pos + i, pos + n);
        let ghost next = buf@.subrange(pos + i - 1, pos + n);
        assert(next.drop_first() =~= prev);
        proof {
            lemma_le_value_bound(prev);
            lemma_le_value_bound(next);
            lemma_pow256_mono(next.len(), 16);
        }
        assert(le_value(next) == next[0] as nat + 256 * le_value(prev));
        acc = acc * 256 + buf[pos + i - 1] as u128;
        i = i - 1;
    }
    acc
}


/// Types for which every bit pattern of their size is a valid value.
pub trait TriviallyTransmutable {}

impl TriviallyTransmutable for i8 {}

impl TriviallyTransmutable for i16 {}

impl TriviallyTransmutable for i32 {}

impl TriviallyTransmutable for i64 {}

impl TriviallyTransmutable for i128 {}

impl TriviallyTransmutable for u8 {}

impl TriviallyTransmutable for u16 {}

impl TriviallyTransmutable for u32 {}

impl TriviallyTransmutable for u64 {}

impl TriviallyTransmutable for u128 {}

/// Integer types stored on the wire as little-endian bytes of their
/// two's-complement bit pattern.
pub trait LeScalar: Sized + Copy + TriviallyTransmutable {
    /// Number of bytes on the wire.
    spec fn spec_width() -> nat;

    /// The bit pattern of the value, read as a natural number.
    spec fn spec_wire(self) -> nat;

    fn width() -> (r: usize)
        ensures
            r as nat == Self::spec_width(),
            1 <= r <= 16,
    ;

    fn to_wire(self) -> (r: u128)
        ensures
            r as nat == self.spec_wire(),
            (r as nat) < pow256(Self::spec_width()),
    ;

    fn from_wire(v: u128) -> (r: Self)
        requires
            (v as nat) < pow256(Self::spec_width()),
        ensures
            r.spec_wire() == v as nat,
    ;

    proof fn lemma_wire_injective(a: Self, b: Self)
        requires
            a.spec_wire() == b.spec_wire(),
        ensures
            a == b,
    ;

    /// The bit pattern fits in the width.
    proof fn lemma_wire_bound(x: Self)
        ensures
            x.spec_wire() < pow256(Self::spec_width()),
    ;
}

impl LeScalar for u8 {
    open spec fn spec_width() -> nat {
        1
    }

    open spec fn spec_wire(self) -> nat {
        self as nat
    }

    fn width() -> (r: usize) {
        1
    }

    fn to_wire(self) -> (r: u128) {
        proof {
            lemma_pow256_values();
        }
        self as u128
    }

    fn from_wire(v: u128) -> (r: Self) {
        proof {
            lemma_pow256_values();
        }
        v as u8
    }

    proof fn lemma_wire_injective(a: Self, b: Self) {
    }

    proof fn lemma_wire_bound(x: Self) {
        lemma_pow256_values();
    }
}

impl LeScalar for u16 {
    open spec fn spec_width() -> nat {
        2
    }

    open spec fn spec_wire(self) -> nat {
        self as nat
    }

    fn width() -> (r: usize) {
        2
    }

    fn to_wire(self) -> (r: u128) {
        proof {
            lemma_pow256_values();
        }
        self as u128
    }

    fn from_wire(v: u128) -> (r: Self) {
        proof {
            lemma_pow256_values();
        }
        v as u16
    }

    proof fn lemma_wire_injective(a: Self, b: Self) {
    }

    proof fn lemma_wire_bound(x: Self) {
        lemma_pow256_values();
    }
}

impl LeScalar for u32 {
    open spec fn spec_width() -> nat {
        4
    }

    open spec fn spec_wire(self) -> nat {
        self as nat
    }

    fn width() -> (r: usize) {
        4
    }

    fn to_wire(self) -> (r: u128) {
        proof {
            lemma_pow256_values();
        }
        self as u128
    }

    fn from_wire(v: u128) -> (r: Self) {
        proof {
            lemma_pow256_values();
        }
        v as u32
    }

    proof fn lemma_wire_injective(a: Self, b: Self) {
    }

    proof fn lemma_wire_bound(x: Self) {
        lemma_pow256_values();
    }
}

impl LeScalar for u64 {
    open spec fn spec_width() -> nat {
        8
    }

    open spec fn spec_wire(self) -> nat {
        self as nat
    }

    fn width() -> (r: usize) {
        8
    }

    fn to_wire(self) -> (r: u128) {
        proof {
            lemma_pow256_values();
        }
        self as u128
    }

    fn from_wire(v: u128) -> (r: Self) {
        proof {
            lemma_pow256_values();
        }
        v as u64
    }

    proof fn lemma_wire_injective(a: Self, b: Self) {
    }

    proof fn lemma_wire_bound(x: Self) {
        lemma_pow256_values();
    }
}

impl LeScalar for u128 {
    open spec fn spec_width() -> nat {
        16
    }

    open spec fn spec_wire(self) -> nat {
        self as nat
    }

    fn width() -> (r: usize) {
        16
    }

    fn to_wire(self) -> (r: u128) {
        proof {
            lemma_pow256_values();
        }
        self as u128
    }

    fn from_wire(v: u128) -> (r: Self) {
        proof {
            lemma_pow256_values();
        }
        v as u128
    }

    proof fn lemma_wire_injective(a: Self, b: Self) {
    }

    proof fn lemma_wire_bound(x: Self) {
        lemma_pow256_values();
    }
}

impl LeScalar for i8 {
    open spec fn spec_width() -> nat {
        1
    }

    open spec fn spec_wire(self) -> nat {
        twos_wire(self as int, 1)
    }

    fn width() -> (r: usize) {
        1
    }

    fn to_wire(self) -> (r: u128) {
        proof {
            lemma_pow256_values();
        }
        if self >= 0 {
            self as u128
        } else {
            (self as i16 + 256) as u128
        }
    }

    fn from_wire(v: u128) -> (r: Self) {
        proof {
            lemma_pow256_values();
        }
        if v < 128 {
            v as i8
        } else {
            (v as i16 - 256) as i8
        }
    }

    proof fn lemma_wire_injective(a: Self, b: Self) {
        lemma_pow256_values();
    }

    proof fn lemma_wire_bound(x: Self) {
        lemma_pow256_values();
    }
}

impl LeScalar for i16 {
    open spec fn spec_width() -> nat {
        2
    }

    open spec fn spec_wire(self) -> nat {
        twos_wire(self as int, 2)
    }

    fn width() -> (r: usize) {
        2
    }

    fn to_wire(self) -> (r: u128) {
        proof {
            lemma_pow256_values();
        }
        if self >= 0 {
            self as u128
        } else {
            (self as i32 + 0x1_0000) as u128
        }
    }

    fn from_wire(v: u128) -> (r: Self) {
        proof {
            lemma_pow256_values();
        }
        if v < 0x8000 {
            v as i16
        } else {
            (v as i32 - 0x1_0000) as i16
        }
    }

    proof fn lemma_wire_injective(a: Self, b: Self) {
        lemma_pow256_values();
    }

    proof fn lemma_wire_bound(x: Self) {
        lemma_pow256_values();
    }
}

impl LeScalar for i32 {
    open spec fn spec_width() -> nat {
        4
    }

    open spec fn spec_wire(self) -> nat {
        twos_wire(self as int, 4)
    }

    fn width() -> (r: usize) {
        4
    }

    fn to_wire(self) -> (r: u128) {
        proof {
            lemma_pow256_values();
        }
        if self >= 0 {
            self as u128
        } else {
            (self as i64 + 0x1_0000_0000) as u128
        }
    }

    fn from_wire(v: u128) -> (r: Self) {
        proof {
            lemma_pow256_values();
        }
        if v < 0x8000_0000 {
            v as i32
        } else {
            (v as i64 - 0x1_0000_0000) as i32
        }
    }

    proof fn lemma_wire_injective(a: Self, b: Self) {
        lemma_pow256_values();
    }

    proof fn lemma_wire_bound(x: Self) {
        lemma_pow256_values();
    }
}

impl LeScalar for i64 {
    open spec fn spec_width() -> nat {
        8
    }

    open spec fn spec_wire(self) -> nat {
        twos_wire(self as int, 8)
    }

    fn width() -> (r: usize) {
        8
    }

    fn to_wire(self) -> (r: u128) {
        proof {
            lemma_pow256_values();
        }
        if self >= 0 {
            self as u128
        } else {
            (self as i128 + 0x1_0000_0000_0000_0000) as u128
        }
    }

    fn from_wire(v: u128) -> (r: Self) {
        proof {
            lemma_pow256_values();
        }
        if v < 0x8000_0000_0000_0000 {
            v as i64
        } else {
            (v as i128 - 0x1_0000_0000_0000_0000) as i64
        }
    }

    proof fn lemma_wire_injective(a: Self, b: Self) {
        lemma_pow256_values();
    }

    proof fn lemma_wire_bound(x: Self) {
        lemma_pow256_values();
    }
}

impl LeScalar for i128 {
    open spec fn spec_width() -> nat {
        16
    }

    open spec fn spec_wire(self) -> nat {
        twos_wire(self as int, 16)
    }

    fn width() -> (r: usize) {
        16
    }

    fn to_wire(self) -> (r: u128) {
        proof {
            lemma_pow256_values();
        }
        if self >= 0 {
            self as u128
        } else {
            ((self + i128::MAX) + 1) as u128 + (i128::MAX as u128) + 1
        }
    }

    fn from_wire(v: u128) -> (r: Self) {
        proof {
            lemma_pow256_values();
        }
        if v <= i128::MAX as u128 {
            v as i128
        } else {
            ((v - (i128::MAX as u128) - 1) as i128) - i128::MAX - 1
        }
    }

    proof fn lemma_wire_injective(a: Self, b: Self) {
        lemma_pow256_values();
    }

    proof fn lemma_wire_bound(x: Self) {
        lemma_pow256_values();
    }
}

/// Reads a scalar stored little-endian at `s[loc..]`.
/// Signed integers travel as their two's-complement bit pattern: a value that is not
/// negative as itself, a negative one as itself plus `2^(8 * width)` (so `-1i16` is
/// the bytes `FF FF`); unsigned integers travel as themselves. Each type has its own
/// width in bytes.
pub proof fn lemma_wire_patterns(a: i8, b: i16, c: i32, d: i64, e: i128, f: u8, g: u16, h: u32, k: u64, l: u128)
    ensures
        a.spec_wire() == (if a >= 0 { a as int } else { a + 0x100 }),
        b.spec_wire() == (if b >= 0 { b as int } else { b + 0x1_0000 }),
        c.spec_wire() == (if c >= 0 { c as int } else { c + 0x1_0000_0000 }),
        d.spec_wire() == (if d >= 0 { d as int } else { d + 0x1_0000_0000_0000_0000 }),
        e.spec_wire() == (if e >= 0 { e as int } else { e + 0x1_0000_0000_0000_0000_0000_0000_0000_0000 }),
        f.spec_wire() == f,
        g.spec_wire() == g,
        h.spec_wire() == h,
        k.spec_wire() == k,
        l.spec_wire() == l,
        i8::spec_width() == 1 && u8::spec_width() == 1,
        i16::spec_width() == 2 && u16::spec_width() == 2,
        i32::spec_width() == 4 && u32::spec_width() == 4,
        i64::spec_width() == 8 && u64::spec_width() == 8,
        i128::spec_width() == 16 && u128::spec_width() == 16,
{
    lemma_pow256_values();
}

/// Reading back a scalar: where the bytes at `loc` are the encoding of `x` (as
/// `wire_to_buf` writes it at the front of the slice it is given), the value that
/// `read_scalar_at` gives for `loc` is `x`.
pub proof fn lemma_scalar_round_trip<T: LeScalar>(s: Seq<u8>, loc: int, x: T, r: T)
    requires
        0 <= loc,
        loc + T::spec_width() <= s.len(),
        s.subrange(loc, loc + T::spec_width()) == le_bytes(x.spec_wire(), T::spec_width()),
        r.spec_wire() == le_value(s.subrange(loc, loc + T::spec_width())),
    ensures
        r == x,
{
    lemma_le_round_trip(x.spec_wire(), T::spec_width());
    T::lemma_wire_bound(x);
    vstd::arithmetic::div_mod::lemma_small_mod(x.spec_wire(), pow256(T::spec_width()));
    T::lemma_wire_injective(r, x);
}

pub fn read_scalar_at<T: LeScalar>(s: &[u8], loc: usize) -> (r: T)
    requires
        loc + T::spec_width() <= s@.len(),
    ensures
        r.spec_wire() == le_value(s@.subrange(loc as int, loc + T::spec_width())),
{
    let w = T::width();
    let v = read_le(s, loc, w);
    proof {
        lemma_le_value_bound(s@.subrange(loc as int, loc + w));
    }
    T::from_wire(v)
}

/// Reads a scalar stored little-endian at the start of `s`.
pub fn read_scalar<T: LeScalar>(s: &[u8]) -> (r: T)
    requires
        T::spec_width() <= s@.len(),
    ensures
        r.spec_wire() == le_value(s@.subrange(0, T::spec_width() as int)),
{
    read_scalar_at(s, 0)
}

/// Places the little-endian encoding of `x` at the start of `s`.
pub fn wire_to_buf<T: LeScalar>(s: &mut [u8], x: T)
    requires
        T::spec_width() <= old(s)@.len(),
    ensures
        final(s)@ == le_bytes(x.spec_wire(), T::spec_width()) + old(s)@.subrange(
            T::spec_width() as int,
            old(s)@.len() as int,
        ),
{
    let w = T::width();
    let v = x.to_wire();
    write_le(s, 0, v, w);
    assert(old(s)@.subrange(0, 0) + le_bytes(x.spec_wire(), T::spec_width()) =~= le_bytes(x.spec_wire(), T::spec_width()));
}

} // verus!
