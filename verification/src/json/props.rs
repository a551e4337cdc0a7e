//! The law that ties the JSON bridge's two directions together: bringing
//! back the JSON a value was turned into yields the value, for either
//! binary encoding.

use crate::codec::dict::lemma_dict_insert_append;
use crate::codec::decode::{lemma_digit_run, spec_read_number};
use crate::codec::encode::spec_encoded_int;
use crate::codec::number::{
    dec_digits, is_digit_byte, lemma_dec_digits_canonical, lemma_dec_digits_value,
};
use crate::codec::order::spec_cmp_key;
use crate::codec::types::{dict_model_sorted, model_wf, KeyModel, ValueModel};
use crate::ascii::MINUS;
use crate::json::codes::{lemma_b64_injective, lemma_hex_round_trip, spec_b64, spec_hex};
use crate::json::decode::{
    spec_from_json, spec_from_json_entries, spec_from_json_items, spec_from_json_key,
    spec_hex_bytes, spec_hex_ok, spec_parse_number_string, JsonDecodeError,
};
use crate::json::encode::{
    binary_content_bytes, key_json_content, lemma_ascii_valid, lemma_b64_ascii, lemma_hex_ascii,
    lemma_int_ascii, spec_to_json, spec_to_json_entries, spec_to_json_items, BinaryEncoding,
};
use core::cmp::Ordering;
use vstd::prelude::*;
use vstd::utf8::{
    decode_utf8, decode_utf8_encode_utf8, encode_scalar, encode_utf8, encode_utf8_decode_utf8,
};

verus! {

/// The byte marker `U+FEFF` carries in UTF-8.
proof fn lemma_feff_bytes()
    ensures
        ('\u{FEFF}' as u32) == 0xFEFF,
        encode_scalar(0xFEFF) == seq![0xEFu8, 0xBBu8, 0xBFu8],
{
    assert((0xE0u32 | ((0xFEFFu32 >> 12) & 0x0F)) == 0xEFu32) by (bit_vector);
    assert((0x80u32 | ((0xFEFFu32 >> 6) & 0x3F)) == 0xBBu32) by (bit_vector);
    assert((0x80u32 | (0xFEFFu32 & 0x3F)) == 0xBFu32) by (bit_vector);
    assert(vstd::utf8::leading_byte_width_3(0xFEFF) == 0xEF) by (bit_vector);
    assert(vstd::utf8::second_last_continuation_byte(0xFEFF) == 0xBB) by (bit_vector);
    assert(vstd::utf8::last_continuation_byte(0xFEFF) == 0xBF) by (bit_vector);
    assert(encode_scalar(0xFEFF) =~= seq![0xEFu8, 0xBBu8, 0xBFu8]);
}

/// Reading back the canonical digits of `n`, standing alone, yields `n`.
proof fn lemma_read_number_exact(n: int)
    ensures
        spec_read_number(spec_encoded_int(n)) == Some((n, spec_encoded_int(n).len() as int)),
{
    let s = spec_encoded_int(n);
    if n >= 0 {
        lemma_dec_digits_canonical(n as nat);
        lemma_dec_digits_value(n as nat);
        assert(s == dec_digits(n as nat));
        assert(s[0] != MINUS);
        lemma_digit_run(s, 0, s.len() as int);
        assert(s.subrange(0, s.len() as int) =~= s);
    } else {
        let digits = dec_digits((-n) as nat);
        lemma_dec_digits_canonical((-n) as nat);
        lemma_dec_digits_value((-n) as nat);
        assert(s == seq![MINUS].add(digits));
        assert(s[0] == MINUS);
        assert forall|j: int| 1 <= j < s.len() implies is_digit_byte(#[trigger] s[j]) by {
            assert(s[j] == digits[j - 1]);
        }
        lemma_digit_run(s, 1, s.len() as int);
        assert(s.subrange(1, s.len() as int) =~= digits);
    }
}

/// A key, turned into its JSON string content and classified back, is the
/// same key.
pub proof fn lemma_json_key_round_trip(k: KeyModel, enc: BinaryEncoding)
    ensures
        spec_from_json_key(key_json_content(k, enc)) == Ok::<KeyModel, JsonDecodeError>(k),
{
    match k {
        KeyModel::Binary(b) => {
            let cbytes = binary_content_bytes(b, enc);
            match enc {
                BinaryEncoding::Base64 => {
                    lemma_b64_ascii(b);
                    assert forall|i: int| 0 <= i < cbytes.len() implies #[trigger] cbytes[i]
                        < 128 by {
                        if i >= 4 {
                            assert(cbytes[i] == spec_b64(b)[i - 4]);
                        }
                    }
                    lemma_ascii_valid(cbytes);
                    decode_utf8_encode_utf8(cbytes);
                    let cb = encode_utf8(key_json_content(k, enc));
                    assert(cb == cbytes);
                    assert(cb[0] == 98 && cb[1] == 54 && cb[2] == 52 && cb[3] == 58);
                    assert(cb.skip(4) =~= spec_b64(b));
                    assert(exists|x: Seq<u8>| cb.skip(4) == spec_b64(x));
                    let chosen = choose|x: Seq<u8>| cb.skip(4) == spec_b64(x);
                    lemma_b64_injective(chosen, b);
                },
                BinaryEncoding::Hex => {
                    lemma_hex_ascii(b);
                    assert forall|i: int| 0 <= i < cbytes.len() implies #[trigger] cbytes[i]
                        < 128 by {
                        if i >= 2 {
                            assert(cbytes[i] == spec_hex(b)[i - 2]);
                        }
                    }
                    lemma_ascii_valid(cbytes);
                    decode_utf8_encode_utf8(cbytes);
                    let cb = encode_utf8(key_json_content(k, enc));
                    assert(cb == cbytes);
                    assert(cb[0] == 48 && cb[1] == 120);
                    assert(cb.skip(2) =~= spec_hex(b));
                    lemma_hex_round_trip(b);
                    assert(spec_hex_ok(spec_hex(b)));
                    assert forall|i: int| 0 <= i < b.len() implies spec_hex_bytes(spec_hex(b))[i]
                        == b[i] by {
                        assert(16 * crate::json::codes::hex_val(spec_hex(b)[2 * i])
                            + crate::json::codes::hex_val(spec_hex(b)[2 * i + 1]) == b[i]);
                    }
                    assert(spec_hex_bytes(spec_hex(b)) =~= b);
                },
            }
        },
        KeyModel::Text(t) => {
            let s = key_json_content(k, enc);
            let cb = encode_utf8(s);
            lemma_feff_bytes();
            assert(s[0] == '\u{FEFF}');
            assert(s.drop_first() =~= t);
            assert(cb == encode_scalar('\u{FEFF}' as u32).add(encode_utf8(t)));
            assert(cb[0] == 0xEF && cb[1] == 0xBB && cb[2] == 0xBF);
            assert(cb.len() >= 3);
            assert(cb[0] != 98 && cb[0] != 48);
            assert(cb.skip(3) =~= encode_utf8(t));
            encode_utf8_decode_utf8(t);
        },
    }
}

/// JSON round-trip: a well-formed value, turned into JSON and brought
/// back, is the same value — under either binary encoding.
pub proof fn lemma_json_round_trip(m: ValueModel, enc: BinaryEncoding)
    requires
        model_wf(m),
    ensures
        spec_from_json(spec_to_json(m, enc)) == Ok::<ValueModel, JsonDecodeError>(m),
    decreases m,
{
    match m {
        ValueModel::Binary(b) => {
            lemma_json_key_round_trip(KeyModel::Binary(b), enc);
        },
        ValueModel::Text(t) => {
            lemma_json_key_round_trip(KeyModel::Text(t), enc);
        },
        ValueModel::Boolean(_) => {},
        ValueModel::Null => {},
        ValueModel::Number(n) => {
            let body = spec_encoded_int(n);
            lemma_int_ascii(n);
            lemma_ascii_valid(body);
            decode_utf8_encode_utf8(body);
            let s = decode_utf8(body);
            let cb = encode_utf8(s);
            assert(cb == body);
            // The digit content fits none of the marker classifications.
            if n >= 0 {
                lemma_dec_digits_canonical(n as nat);
                assert(is_digit_byte(cb[0]));
                if n < 10 {
                    assert(cb.len() == 1);
                } else {
                    assert(is_digit_byte(cb[1]));
                    assert(cb[1] != 120);
                }
            } else {
                lemma_dec_digits_canonical((-n) as nat);
                assert(cb[0] == MINUS);
            }
            assert(cb[0] != 98 && cb[0] != 0xEF);
            assert(spec_from_json_key(s) == Err::<KeyModel, JsonDecodeError>(
                JsonDecodeError::InvalidJson,
            ));
            assert forall|i: int| 0 <= i < cb.len() implies (is_digit_byte(#[trigger] cb[i])
                || cb[i] == MINUS) by {
                if n >= 0 {
                } else {
                    if i > 0 {
                        assert(cb[i] == dec_digits((-n) as nat)[i - 1]);
                    }
                }
            }
            lemma_read_number_exact(n);
            assert(spec_parse_number_string(s) == Ok::<ValueModel, JsonDecodeError>(
                ValueModel::Number(n),
            ));
        },
        ValueModel::List(xs) => {
            lemma_json_items_round_trip(xs, enc);
        },
        ValueModel::Dictionary(es) => {
            lemma_json_entries_round_trip(es, Seq::empty(), enc);
            assert(Seq::empty().add(es) =~= es);
        },
    }
}

/// Elementwise JSON round-trip for a list's elements.
proof fn lemma_json_items_round_trip(xs: Seq<ValueModel>, enc: BinaryEncoding)
    requires
        forall|i: int| #![trigger xs[i]] 0 <= i < xs.len() ==> model_wf(xs[i]),
    ensures
        spec_from_json_items(spec_to_json_items(xs, enc)) == Ok::<Seq<ValueModel>, JsonDecodeError>(
            xs,
        ),
    decreases xs,
{
    if xs.len() == 0 {
        assert(xs =~= Seq::<ValueModel>::empty());
    } else {
        let js = spec_to_json_items(xs, enc);
        assert(js[0] == spec_to_json(xs[0], enc));
        assert(js.drop_first() =~= spec_to_json_items(xs.drop_first(), enc));
        lemma_json_round_trip(xs[0], enc);
        assert forall|i: int| 0 <= i < xs.drop_first().len() implies model_wf(
            #[trigger] xs.drop_first()[i],
        ) by {
            assert(xs.drop_first()[i] == xs[i + 1]);
        }
        lemma_json_items_round_trip(xs.drop_first(), enc);
        assert(seq![xs[0]].add(xs.drop_first()) =~= xs);
    }
}

/// JSON round-trip for a dictionary's entries: each decoded key sorts
/// above everything accumulated, so the pairs append back in order.
proof fn lemma_json_entries_round_trip(
    es: Seq<(KeyModel, ValueModel)>,
    acc: Seq<(KeyModel, ValueModel)>,
    enc: BinaryEncoding,
)
    requires
        forall|i: int| #![trigger es[i]] 0 <= i < es.len() ==> model_wf(es[i].1),
        dict_model_sorted(acc.add(es)),
    ensures
        spec_from_json_entries(spec_to_json_entries(es, enc), acc) == Ok::<
            Seq<(KeyModel, ValueModel)>,
            JsonDecodeError,
        >(acc.add(es)),
    decreases es,
{
    if es.len() == 0 {
        assert(acc.add(es) =~= acc);
    } else {
        let js = spec_to_json_entries(es, enc);
        let key = es[0].0;
        let value = es[0].1;
        assert(js[0] == (key_json_content(key, enc), spec_to_json(value, enc)));
        assert(js.drop_first() =~= spec_to_json_entries(es.drop_first(), enc));
        lemma_json_key_round_trip(key, enc);
        assert(model_wf(es[0].1));
        lemma_json_round_trip(value, enc);
        assert forall|j: int| 0 <= j < acc.len() implies spec_cmp_key(
            #[trigger] acc[j].0,
            key,
        ) == Ordering::Less by {
            assert(acc.add(es)[j] == acc[j]);
            assert(acc.add(es)[acc.len() as int] == es[0]);
        }
        lemma_dict_insert_append(acc, key, value);
        let acc2 = acc.push((key, value));
        let rest = es.drop_first();
        assert forall|i: int| 0 <= i < rest.len() implies model_wf(#[trigger] rest[i].1) by {
            assert(rest[i] == es[i + 1]);
        }
        assert(acc2.add(rest) =~= acc.add(es));
        assert(dict_model_sorted(acc2.add(rest)));
        lemma_json_entries_round_trip(rest, acc2, enc);
    }
}

} // verus!
