//! Login and authentication-token rules.

use vstd::prelude::*;
use vstd::string::StringSliceAdditionalSpecFns;
use vstd::utf8::{decode_utf8, encode_utf8, is_char_boundary, valid_utf8};

use crate::agentflow::error::{Error, Result};
use crate::agentflow::web_error::Error as WebError;

verus! {

broadcast use vstd::utf8::group_utf8_lib;

/// The name of the cookie that carries the authentication token.
pub const AUTH_TOKEN: &'static str = "auth-token";

/// Two strings with the same UTF-8 bytes are the same string.
proof fn lemma_same_bytes_same_str(a: Seq<char>, b: Seq<char>)
    requires
        encode_utf8(a) == encode_utf8(b),
    ensures
        a == b,
{
    assert(decode_utf8(encode_utf8(a)) == a);
    assert(decode_utf8(encode_utf8(b)) == b);
}

/// Whether two byte strings are equal.
fn bytes_eq(a: &[u8], b: &[u8]) -> (r: bool)
    ensures
        r == (a@ == b@),
{
    if a.len() != b.len() {
        return false;
    }
    let mut i: usize = 0;
    while i < a.len()
        invariant
            i <= a@.len(),
            a@.len() == b@.len(),
            forall|k: int| 0 <= k < i ==> a@[k] == b@[k],
        decreases a@.len() - i,
    {
        if a[i] != b[i] {
            return false;
        }
        i = i + 1;
    }
    assert(a@ =~= b@);
    true
}

/// The credentials of a login request.
pub struct LoginPayload {
    pub username: String,
    pub pwd: String,
}

/// Checks the login credentials: only user `demo1` with password `welcome` may log in.
pub fn check_login(payload: &LoginPayload) -> (r: Result<()>)
    ensures
        r is Ok <==> (payload.username@ == "demo1"@ && payload.pwd@ == "welcome"@),
        r matches Err(e) ==> e == Error::WebError(WebError::LoginFail),
{
    let username = payload.username.as_str();
    let pwd = payload.pwd.as_str();
    let user_ok = bytes_eq(username.as_bytes(), "demo1".as_bytes());
    let pwd_ok = bytes_eq(pwd.as_bytes(), "welcome".as_bytes());
    proof {
        if username.spec_bytes() == "demo1".spec_bytes() {
            lemma_same_bytes_same_str(username@, "demo1"@);
        }
        if pwd.spec_bytes() == "welcome".spec_bytes() {
            lemma_same_bytes_same_str(pwd@, "welcome"@);
        }
    }
    if !user_ok || !pwd_ok {
        return Err(Error::WebError(WebError::LoginFail));
    }
    Ok(())
}

/// An ASCII decimal digit.
pub open spec fn is_digit(c: u8) -> bool {
    48 <= c <= 57
}

/// The number that the ASCII decimal digits `s` denote.
pub open spec fn digits_value(s: Seq<u8>) -> nat
    decreases s.len(),
{
    if s.len() == 0 {
        0
    } else {
        digits_value(s.drop_last()) * 10 + (s.last() - 48) as nat
    }
}

/// The bytes of `user-`.
pub open spec fn user_prefix() -> Seq<u8> {
    seq![117u8, 115u8, 101u8, 114u8, 45u8]
}

/// `t` reads `user-` DIGITS `.` EXP `.` SIGN and then either nothing or a newline
/// and anything: the digits end at `d`, the second dot is at `p`, and the sign ends at
/// `e`. EXP and SIGN are not empty and hold no newline, and SIGN holds no dot but
/// maybe as its last byte (EXP takes all it can).
pub open spec fn token_shape(t: Seq<u8>, d: int, p: int, e: int) -> bool {
    &&& t.len() >= 5
    &&& t.subrange(0, 5) == user_prefix()
    &&& 5 < d && d + 1 < p && p + 1 < e <= t.len()
    &&& forall|k: int| 5 <= k < d ==> is_digit(#[trigger] t[k])
    &&& t[d] == 46
    &&& t[p] == 46
    &&& forall|k: int| d < k < e ==> #[trigger] t[k] != 10
    &&& forall|k: int| p < k < e - 1 ==> #[trigger] t[k] != 46
    &&& e == t.len() || t[e] == 10
}

/// In valid UTF-8, the position after an ASCII byte that starts a character also starts
/// one.
proof fn lemma_boundary_after_ascii(bytes: Seq<u8>, i: int)
    requires
        valid_utf8(bytes),
        0 <= i < bytes.len(),
        bytes[i] < 0x80,
        is_char_boundary(bytes, i),
    ensures
        is_char_boundary(bytes, i + 1),
    decreases bytes.len(),
{
    reveal_with_fuel(is_char_boundary, 2);
    let l = vstd::utf8::length_of_first_scalar(bytes);
    let rest = vstd::utf8::pop_first_scalar(bytes);
    if i == 0 {
        assert(l == 1);
        assert(is_char_boundary(rest, 0));
    } else {
        assert(is_char_boundary(rest, i - l));
        assert(rest[i - l] == bytes[i]);
        if i - l < rest.len() {
            lemma_boundary_after_ascii(rest, i - l);
        }
    }
}

/// Splits an authentication token of the form `user-<id>.<expiration>.<signature>`
/// into the user id, the expiration and the signature.
pub fn parse_token(token: &str) -> (r: Result<(u64, String, String)>)
    ensures
        match r {
            Ok((id, exp, sign)) => exists|d: int, p: int, e: int|
                #![trigger token_shape(token.spec_bytes(), d, p, e)]
                {
                    &&& token_shape(token.spec_bytes(), d, p, e)
                    &&& id == digits_value(token.spec_bytes().subrange(5, d))
                    &&& encode_utf8(exp@) == token.spec_bytes().subrange(d + 1, p)
                    &&& encode_utf8(sign@) == token.spec_bytes().subrange(p + 1, e)
                },
            Err(err) => {
                &&& err == Error::WebError(WebError::AuthFailTokenWrongFormat)
                &&& forall|d: int, p: int, e: int|
                    #[trigger] token_shape(token.spec_bytes(), d, p, e) ==> digits_value(
                        token.spec_bytes().subrange(5, d),
                    ) > u64::MAX
            },
        },
{
    let wrong = Error::WebError(WebError::AuthFailTokenWrongFormat);
    let t = token.as_bytes();
    let n = t.len();
    if n < 5 || t[0] != 117 || t[1] != 115 || t[2] != 101 || t[3] != 114 || t[4] != 45 {
        return Err(wrong);
    }
    assert(t@.subrange(0, 5) =~= user_prefix());
    let ghost tb = t@;
    // The user id: the digits after the prefix.
    let mut i: usize = 5;
    let mut v: u64 = 0;
    while i < n && 48 <= t[i] && t[i] <= 57
        invariant
            5 <= i <= n,
            wrong == Error::WebError(WebError::AuthFailTokenWrongFormat),
            tb == token.spec_bytes(),
            n == tb.len(),
            t@ == tb,
            forall|k: int| 5 <= k < i ==> is_digit(#[trigger] tb[k]),
            v == digits_value(tb.subrange(5, i as int)),
        decreases n - i,
    {
        let dig = (t[i] - 48) as u64;
        assert(tb.subrange(5, i + 1).drop_last() =~= tb.subrange(5, i as int));
        if v > (u64::MAX - dig) / 10 {
            proof {
                assert(digits_value(tb.subrange(5, i + 1)) > u64::MAX) by (nonlinear_arith)
                    requires
                        v > (u64::MAX - dig) / 10,
                        digits_value(tb.subrange(5, i + 1)) == v * 10 + dig,
                        dig <= 9,
                ;
                lemma_no_shape_past_overflow(tb, (i + 1) as int);
            }
            return Err(wrong);
        }
        v = v * 10 + dig;
        i = i + 1;
    }
    let d = i;
    if d == 5 || d >= n || t[d] != 46 {
        proof {
            assert forall|d2: int, p2: int, e2: int| #[trigger] token_shape(tb, d2, p2, e2) implies false by {
                if d2 < d {
                    assert(is_digit(tb[d2]));
                } else if d2 > d {
                    assert(is_digit(tb[d as int]));
                }
            }
        }
        return Err(wrong);
    }
    // The end of the first line.
    let mut j: usize = d + 1;
    while j < n && t[j] != 10
        invariant
            d + 1 <= j <= n,
            n == tb.len(),
            t@ == tb,
            forall|k: int| d < k < j ==> #[trigger] tb[k] != 10,
        decreases n - j,
    {
        j = j + 1;
    }
    let e = j;
    proof {
        assert forall|d2: int, p2: int, e2: int| #[trigger] token_shape(tb, d2, p2, e2) implies d2 == d
            && e2 == e by {
            if d2 < d {
                assert(is_digit(tb[d2]));
            } else if d2 > d {
                assert(is_digit(tb[d as int]));
            }
            if e2 < e {
                assert(tb[e2] != 10);
            } else if e2 > e {
                assert(tb[e as int] != 10);
            }
        }
    }
    if e - d < 4 {
        return Err(wrong);
    }
    // The second dot: the last one that leaves a non-empty signature.
    let mut q: usize = e - 2;
    while q > d + 1 && t[q] != 46
        invariant
            d + 1 <= q <= e - 2,
            e <= n,
            n == tb.len(),
            t@ == tb,
            forall|k: int| q < k < e - 1 ==> #[trigger] tb[k] != 46,
        decreases q,
    {
        q = q - 1;
    }
    if q <= d + 1 {
        proof {
            assert forall|d2: int, p2: int, e2: int| #[trigger] token_shape(tb, d2, p2, e2) implies false by {
                assert(tb[p2] == 46);
            }
        }
        return Err(wrong);
    }
    let p = q;
    proof {
        assert(token_shape(tb, d as int, p as int, e as int));
        assert forall|d2: int, p2: int, e2: int| #[trigger] token_shape(tb, d2, p2, e2) implies p2 == p by {
            if p2 < p {
                assert(tb[p as int] != 46);
            } else if p2 > p {
                assert(tb[p2] != 46);
            }
        }
    }
    // Cut the expiration and the signature out at character boundaries.
    proof {
        vstd::utf8::is_char_boundary_iff_not_is_continuation_byte(tb, d as int);
        lemma_boundary_after_ascii(tb, d as int);
    }
    let (_, rest) = token.split_at(d + 1);
    let ghost rb = rest.spec_bytes();
    assert(rb =~= tb.subrange(d + 1, n as int));
    proof {
        vstd::utf8::is_char_boundary_iff_not_is_continuation_byte(rb, p - (d + 1));
    }
    let (exp_s, tail) = rest.split_at(p - (d + 1));
    let ghost lb = tail.spec_bytes();
    assert(lb =~= tb.subrange(p as int, n as int));
    proof {
        lemma_boundary_after_ascii(lb, 0);
    }
    let (_, after) = tail.split_at(1);
    let ghost ab = after.spec_bytes();
    assert(ab =~= tb.subrange(p + 1, n as int));
    proof {
        if e < n {
            vstd::utf8::is_char_boundary_iff_not_is_continuation_byte(ab, e - (p + 1));
        } else {
            vstd::utf8::is_char_boundary_start_end_of_seq(ab);
        }
    }
    let (sign_s, _) = after.split_at(e - (p + 1));
    let exp = exp_s.to_owned();
    let sign = sign_s.to_owned();
    proof {
        assert(exp_s.spec_bytes() =~= tb.subrange(d + 1, p as int));
        assert(sign_s.spec_bytes() =~= tb.subrange(p + 1, e as int));
    }
    Ok((v, exp, sign))
}

/// Once the digits after the prefix up to `j` denote more than `u64::MAX`, every way of
/// reading the token as `user-<id>...` has an id too large.
proof fn lemma_no_shape_past_overflow(t: Seq<u8>, j: int)
    requires
        5 < j <= t.len(),
        forall|k: int| 5 <= k < j ==> is_digit(#[trigger] t[k]),
        digits_value(t.subrange(5, j)) > u64::MAX,
    ensures
        forall|d: int, p: int, e: int|
            #[trigger] token_shape(t, d, p, e) ==> digits_value(t.subrange(5, d)) > u64::MAX,
{
    assert forall|d: int, p: int, e: int| #[trigger] token_shape(t, d, p, e) implies digits_value(
        t.subrange(5, d),
    ) > u64::MAX by {
        if d < j {
            assert(is_digit(t[d]));
        }
        lemma_digits_grow(t, j, d);
    }
}

/// Extending a run of digits never makes the number it denotes smaller.
proof fn lemma_digits_grow(t: Seq<u8>, j: int, d: int)
    requires
        5 <= j <= d <= t.len(),
        forall|k: int| 5 <= k < d ==> is_digit(#[trigger] t[k]),
    ensures
        digits_value(t.subrange(5, j)) <= digits_value(t.subrange(5, d)),
    decreases d - j,
{
    if j < d {
        lemma_digits_grow(t, j, d - 1);
        assert(t.subrange(5, d).drop_last() =~= t.subrange(5, d - 1));
    }
}

} // verus!
