//! The two binary-to-text codes the JSON bridge uses for `Binary` values:
//! lowercase hexadecimal and standard base64 with padding. Both are
//! specified exactly, so that decoding an encoded value is proved to give
//! the bytes back; the executable work is the hex and base64 crates'.

use crate::ascii::{DIGIT_0, DIGIT_9};
use base64::Engine;
use vstd::prelude::*;

verus! {

/// `'='`, the base64 padding byte.
pub const B64_PAD: u8 = 61;

/// The lowercase hex digit for `n`.
pub open spec fn hex_digit(n: int) -> u8 {
    if n < 10 {
        (DIGIT_0 + n) as u8
    } else {
        (87 + n) as u8
    }
}

/// Whether `c` is a hex digit, in either case.
pub open spec fn is_hex_digit_byte(c: u8) -> bool {
    (DIGIT_0 <= c <= DIGIT_9) || (97 <= c <= 102) || (65 <= c <= 70)
}

/// The value of a hex digit, in either case.
pub open spec fn hex_val(c: u8) -> int {
    if DIGIT_0 <= c <= DIGIT_9 {
        c - DIGIT_0
    } else if 97 <= c <= 102 {
        c - 87
    } else {
        c - 55
    }
}

/// The lowercase hex encoding of a byte sequence: two digits per byte,
/// high nibble first.
pub open spec fn spec_hex(bytes: Seq<u8>) -> Seq<u8>
    decreases bytes.len(),
{
    if bytes.len() == 0 {
        Seq::empty()
    } else {
        seq![hex_digit(bytes[0] as int / 16), hex_digit(bytes[0] as int % 16)].add(spec_hex(bytes.drop_first()))
    }
}

/// The hex encoding of `b` decodes back to `b`: it is twice as long, all
/// hex digits, and its digit pairs carry the bytes.
pub proof fn lemma_hex_round_trip(b: Seq<u8>)
    ensures
        spec_hex(b).len() == 2 * b.len(),
        forall|i: int| 0 <= i < spec_hex(b).len() ==> is_hex_digit_byte(#[trigger] spec_hex(b)[i]),
        forall|i: int|
            0 <= i < b.len() ==> 16 * hex_val(spec_hex(b)[2 * i]) + hex_val(
                spec_hex(b)[2 * i + 1],
            ) == b[i],
    decreases b.len(),
{
    if b.len() > 0 {
        lemma_hex_round_trip(b.drop_first());
        let h = spec_hex(b);
        let rest = spec_hex(b.drop_first());
        assert forall|i: int| 0 <= i < h.len() implies is_hex_digit_byte(#[trigger] h[i]) by {
            if i >= 2 {
                assert(h[i] == rest[i - 2]);
            }
        }
        assert forall|i: int| 0 <= i < b.len() implies 16 * hex_val(h[2 * i]) + hex_val(
            h[2 * i + 1],
        ) == b[i] by {
            if i == 0 {
                assert(h[0] == hex_digit(b[0] as int / 16));
                assert(h[1] == hex_digit(b[0] as int % 16));
            } else {
                assert(h[2 * i] == rest[2 * (i - 1)]);
                assert(h[2 * i + 1] == rest[2 * (i - 1) + 1]);
                assert(b[i] == b.drop_first()[i - 1]);
            }
        }
    }
}

/// Relies on `hex::encode`: lowercase, two digits per byte, high nibble
/// first.
#[verifier::external_body]
pub(crate) fn hex_encode(bytes: &[u8]) -> (r: Vec<u8>)
    ensures
        r@ == spec_hex(bytes@),
{
    hex::encode(bytes).into_bytes()
}

/// Relies on `hex::decode`: it succeeds exactly on even-length strings of
/// hex digits of either case, and pairs the digits into bytes, high
/// nibble first.
#[verifier::external_body]
pub(crate) fn hex_decode(s: &[u8]) -> (r: Option<Vec<u8>>)
    ensures
        r is Some <==> (s@.len() % 2 == 0 && forall|i: int|
            0 <= i < s@.len() ==> is_hex_digit_byte(#[trigger] s@[i])),
        r matches Some(v) ==> v@.len() == s@.len() / 2 && forall|i: int|
            0 <= i < v@.len() ==> v@[i] == 16 * hex_val(s@[2 * i]) + hex_val(s@[2 * i + 1]),
{
    hex::decode(s).ok()
}

/// The base64 alphabet: `A`-`Z`, `a`-`z`, `0`-`9`, `+`, `/`.
pub open spec fn b64_char(i: int) -> u8 {
    if i < 26 {
        (65 + i) as u8
    } else if i < 52 {
        (97 + (i - 26)) as u8
    } else if i < 62 {
        (48 + (i - 52)) as u8
    } else if i == 62 {
        43
    } else {
        47
    }
}

/// The standard padded base64 encoding of a byte sequence: three bytes
/// become four alphabet characters, a final group of one or two bytes is
/// padded with `'='`.
pub open spec fn spec_b64(bytes: Seq<u8>) -> Seq<u8>
    decreases bytes.len(),
{
    if bytes.len() == 0 {
        Seq::empty()
    } else if bytes.len() == 1 {
        let x0 = bytes[0] as int;
        seq![b64_char(x0 / 4), b64_char((x0 % 4) * 16), B64_PAD, B64_PAD]
    } else if bytes.len() == 2 {
        let x0 = bytes[0] as int;
        let x1 = bytes[1] as int;
        seq![b64_char(x0 / 4), b64_char((x0 % 4) * 16 + x1 / 16), b64_char((x1 % 16) * 4), B64_PAD]
    } else {
        let x0 = bytes[0] as int;
        let x1 = bytes[1] as int;
        let x2 = bytes[2] as int;
        seq![
            b64_char(x0 / 4),
            b64_char((x0 % 4) * 16 + x1 / 16),
            b64_char((x1 % 16) * 4 + x2 / 64),
            b64_char(x2 % 64),
        ].add(spec_b64(bytes.skip(3)))
    }
}

/// The alphabet is injective on its index range, and never the padding
/// byte.
proof fn lemma_b64_char(i: int, j: int)
    requires
        0 <= i < 64,
        0 <= j < 64,
    ensures
        b64_char(i) == b64_char(j) ==> i == j,
        b64_char(i) != B64_PAD,
{
}

/// The length of a base64 encoding: four characters for every started
/// group of three bytes.
proof fn lemma_b64_len(bytes: Seq<u8>)
    ensures
        spec_b64(bytes).len() == 4 * ((bytes.len() + 2) / 3),
    decreases bytes.len(),
{
    if bytes.len() >= 3 {
        lemma_b64_len(bytes.skip(3));
    }
}

/// The base64 encoding is injective: equal encodings come from equal
/// byte sequences.
pub proof fn lemma_b64_injective(a: Seq<u8>, b: Seq<u8>)
    requires
        spec_b64(a) == spec_b64(b),
    ensures
        a == b,
    decreases a.len(),
{
    let oa = spec_b64(a);
    let ob = spec_b64(b);
    lemma_b64_len(a);
    lemma_b64_len(b);
    if a.len() == 0 {
        assert(4 * ((b.len() + 2) / 3) == 0);
        assert(b.len() == 0);
        assert(a =~= b);
    } else if b.len() == 0 {
        assert(4 * ((a.len() + 2) / 3) == 0);
        assert(a.len() == 0);
    } else {
        // Both nonempty: the padding pattern of the first group settles
        // whether each input has one, two, or at least three bytes.
        lemma_b64_group_shape(a);
        lemma_b64_group_shape(b);
        if a.len() == 1 || b.len() == 1 {
            assert(oa[3] == ob[3]);
            assert(oa[2] == ob[2]);
            assert(a.len() == 1 && b.len() == 1);
            assert(oa[0] == b64_char(a[0] as int / 4));
            assert(oa[1] == b64_char((a[0] as int % 4) * 16));
            assert(ob[0] == b64_char(b[0] as int / 4));
            assert(ob[1] == b64_char((b[0] as int % 4) * 16));
            lemma_b64_char(a[0] as int / 4, b[0] as int / 4);
            lemma_b64_char((a[0] as int % 4) * 16, (b[0] as int % 4) * 16);
            assert(a[0] == b[0]);
            assert(a =~= b);
        } else if a.len() == 2 || b.len() == 2 {
            assert(oa[3] == ob[3]);
            assert(oa[2] == ob[2]);
            assert(a.len() == 2 && b.len() == 2);
            assert(oa[0] == b64_char(a[0] as int / 4));
            assert(oa[1] == b64_char((a[0] as int % 4) * 16 + a[1] as int / 16));
            assert(oa[2] == b64_char((a[1] as int % 16) * 4));
            assert(ob[0] == b64_char(b[0] as int / 4));
            assert(ob[1] == b64_char((b[0] as int % 4) * 16 + b[1] as int / 16));
            assert(ob[2] == b64_char((b[1] as int % 16) * 4));
            lemma_b64_char(a[0] as int / 4, b[0] as int / 4);
            lemma_b64_char((a[0] as int % 4) * 16 + a[1] as int / 16, (b[0] as int % 4) * 16 + b[1] as int / 16);
            lemma_b64_char((a[1] as int % 16) * 4, (b[1] as int % 16) * 4);
            lemma_b64_digit_split(a[0] as int, a[1] as int, b[0] as int, b[1] as int, 4, 16, 16);
            assert(a[0] == b[0]);
            lemma_b64_digit_split(a[1] as int, 0, b[1] as int, 0, 16, 64, 4);
            assert(a[1] == b[1]);
            assert(a =~= b);
        } else {
            assert(a.len() >= 3 && b.len() >= 3);
            assert(oa[0] == b64_char(a[0] as int / 4));
            assert(oa[1] == b64_char((a[0] as int % 4) * 16 + a[1] as int / 16));
            assert(oa[2] == b64_char((a[1] as int % 16) * 4 + a[2] as int / 64));
            assert(oa[3] == b64_char(a[2] as int % 64));
            assert(ob[0] == b64_char(b[0] as int / 4));
            assert(ob[1] == b64_char((b[0] as int % 4) * 16 + b[1] as int / 16));
            assert(ob[2] == b64_char((b[1] as int % 16) * 4 + b[2] as int / 64));
            assert(ob[3] == b64_char(b[2] as int % 64));
            lemma_b64_char(a[0] as int / 4, b[0] as int / 4);
            lemma_b64_char((a[0] as int % 4) * 16 + a[1] as int / 16, (b[0] as int % 4) * 16 + b[1] as int / 16);
            lemma_b64_char((a[1] as int % 16) * 4 + a[2] as int / 64, (b[1] as int % 16) * 4 + b[2] as int / 64);
            lemma_b64_char(a[2] as int % 64, b[2] as int % 64);
            assert(oa[0] == ob[0] && oa[1] == ob[1] && oa[2] == ob[2] && oa[3] == ob[3]);
            lemma_b64_digit_split(a[0] as int, a[1] as int, b[0] as int, b[1] as int, 4, 16, 16);
            assert(a[0] == b[0]);
            lemma_b64_digit_split(a[1] as int, a[2] as int, b[1] as int, b[2] as int, 16, 64, 4);
            assert(a[1] == b[1]);
            assert(a[2] == b[2]);
            assert(spec_b64(a.skip(3)) =~= oa.skip(4));
            assert(spec_b64(b.skip(3)) =~= ob.skip(4));
            lemma_b64_injective(a.skip(3), b.skip(3));
            assert(a.skip(3).len() == b.skip(3).len());
            assert forall|i: int| 0 <= i < a.len() implies a[i] == b[i] by {
                if i >= 3 {
                    assert(a.skip(3)[i - 3] == a[i]);
                    assert(b.skip(3)[i - 3] == b[i]);
                }
            }
            assert(a =~= b);
        }
    }
}

/// The first output group of a nonempty input: padding stands exactly
/// where the input ran out.
proof fn lemma_b64_group_shape(a: Seq<u8>)
    requires
        a.len() >= 1,
    ensures
        spec_b64(a).len() >= 4,
        a.len() == 1 <==> spec_b64(a)[2] == B64_PAD,
        a.len() <= 2 <==> spec_b64(a)[3] == B64_PAD,
{
    lemma_b64_len(a);
    if a.len() == 1 {
    } else if a.len() == 2 {
        lemma_b64_char((a[1] as int % 16) * 4, 0);
    } else {
        lemma_b64_char((a[1] as int % 16) * 4 + a[2] as int / 64, 0);
        lemma_b64_char(a[2] as int % 64, 0);
    }
}

/// Relies on base64's standard engine with padding: the canonical
/// RFC 4648 encoding.
#[verifier::external_body]
pub(crate) fn b64_encode(bytes: &[u8]) -> (r: Vec<u8>)
    ensures
        r@ == spec_b64(bytes@),
{
    base64::engine::general_purpose::STANDARD.encode(bytes).into_bytes()
}

/// Relies on base64's standard engine with padding: decoding succeeds
/// exactly on canonical encodings (the engine demands canonical padding
/// and zero trailing bits), and inverts the encoding.
#[verifier::external_body]
pub(crate) fn b64_decode(s: &[u8]) -> (r: Option<Vec<u8>>)
    ensures
        r is Some <==> exists|b: Seq<u8>| s@ == spec_b64(b),
        r matches Some(v) ==> s@ == spec_b64(v@),
{
    base64::engine::general_purpose::STANDARD.decode(s).ok()
}

/// Two bytes agree when their base64 digit pieces agree: the pieces are a
/// base-`m2`-and-`m1` positional split of the pair.
proof fn lemma_b64_digit_split(x0: int, x1: int, y0: int, y1: int, m0: int, m1: int, f: int)
    by (nonlinear_arith)
    requires
        0 <= x0 < 256,
        0 <= y0 < 256,
        0 <= x1 < 256,
        0 <= y1 < 256,
        m0 * f == 64,
        m1 * f == 256,
        4 <= m0 <= 16,
        x0 / m0 == y0 / m0,
        (x0 % m0) * f + x1 / m1 == (y0 % m0) * f + y1 / m1,
    ensures
        x0 == y0,
        x1 / m1 == y1 / m1,
{
}

} // verus!
