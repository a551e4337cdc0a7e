//! The laws that tie the encoder and the decoder together: decoding a
//! canonical encoding yields the value that was encoded, wherever the
//! encoding stands in a larger buffer; and dictionary insertion does not
//! depend on the order in which distinct keys arrive.

use crate::ascii::{COLON, MINUS, TOK_DICT, TOK_END, TOK_INT, TOK_LIST, TOK_TEXT};
use crate::codec::decode::{
    spec_decode, spec_decode_binary, spec_decode_dict, spec_decode_entries, spec_decode_items,
    spec_decode_list, spec_decode_number, spec_decode_text, spec_digit_run_len, spec_read_number,
    spec_top_decode, DecodeErrorModel,
};
use crate::codec::dict::{lemma_dict_insert_append, spec_dict_contains, spec_dict_insert};
use crate::codec::encode::{
    spec_encoded, spec_encoded_entries, spec_encoded_int, spec_encoded_items, spec_encoded_key,
};
use crate::codec::number::{
    all_digit_bytes, dec_digits, is_digit_byte, lemma_dec_digits_canonical,
    lemma_dec_digits_value, lemma_digits_value_nonneg,
};
use crate::codec::order::{lemma_cmp_key_antisym, lemma_cmp_key_eq, lemma_cmp_key_trans, spec_cmp_key};
use crate::codec::types::{
    dict_model_sorted, lemma_value_wf_model, model_wf, value_model, value_wf, BencodexValue,
    KeyModel, ValueModel,
};
use core::cmp::Ordering;
use vstd::prelude::*;
use vstd::utf8::{encode_utf8, encode_utf8_decode_utf8, encode_utf8_valid_utf8};

verus! {

/// The value a dictionary key stands for when it is decoded.
pub open spec fn key_as_model(k: KeyModel) -> ValueModel {
    match k {
        KeyModel::Binary(b) => ValueModel::Binary(b),
        KeyModel::Text(t) => ValueModel::Text(t),
    }
}

/// No canonical encoding is empty.
pub proof fn lemma_encoded_nonempty(m: ValueModel)
    ensures
        spec_encoded(m).len() >= 1,
{
    match m {
        ValueModel::Binary(b) => {
            lemma_dec_digits_canonical(b.len());
        },
        ValueModel::Text(t) => {},
        _ => {},
    }
}

/// Reading a number from a buffer that starts with the canonical bytes of
/// `n`, followed by a byte that is neither a digit nor part of the
/// number, yields `n` and consumes exactly those bytes.
proof fn lemma_read_number_of_encoding(s: Seq<u8>, n: int)
    requires
        spec_encoded_int(n).len() < s.len(),
        s.subrange(0, spec_encoded_int(n).len() as int) == spec_encoded_int(n),
        !is_digit_byte(s[spec_encoded_int(n).len() as int]),
    ensures
        spec_read_number(s) == Some((n, spec_encoded_int(n).len() as int)),
{
    let k = spec_encoded_int(n).len() as int;
    if n >= 0 {
        let digits = dec_digits(n as nat);
        lemma_dec_digits_canonical(n as nat);
        lemma_dec_digits_value(n as nat);
        assert(spec_encoded_int(n) == digits);
        assert forall|j: int| 0 <= j < k implies is_digit_byte(#[trigger] s[j]) by {
            assert(s.subrange(0, k)[j] == s[j]);
        }
        assert(s.subrange(0, k)[0] == s[0]);
        assert(s[0] == digits[0]);
        assert(s[0] != MINUS);
        lemma_digit_run_exact(s, 0, k);
        assert(s.subrange(0, k) =~= digits);
    } else {
        let digits = dec_digits((-n) as nat);
        lemma_dec_digits_canonical((-n) as nat);
        lemma_dec_digits_value((-n) as nat);
        assert(spec_encoded_int(n) == seq![MINUS].add(digits));
        assert(s.subrange(0, k)[0] == s[0]);
        assert(spec_encoded_int(n)[0] == MINUS);
        assert(s[0] == MINUS);
        assert forall|j: int| 1 <= j < k implies is_digit_byte(#[trigger] s[j]) by {
            assert(s.subrange(0, k)[j] == s[j]);
            assert(spec_encoded_int(n)[j] == digits[j - 1]);
        }
        lemma_digit_run_exact(s, 1, k);
        assert forall|j: int| 0 <= j < k - 1 implies s[1 + j] == digits[j] by {
            assert(s.subrange(0, k)[1 + j] == s[1 + j]);
            assert(spec_encoded_int(n)[1 + j] == digits[j]);
        }
        assert(s.subrange(1, k) =~= digits);
    }
}

/// A digit run that is delimited on both sides has exactly the length of
/// its digits.
proof fn lemma_digit_run_exact(s: Seq<u8>, i: int, j: int)
    requires
        0 <= i <= j < s.len(),
        forall|k: int| i <= k < j ==> is_digit_byte(#[trigger] s[k]),
        !is_digit_byte(s[j]),
    ensures
        spec_digit_run_len(s, i) == j - i,
    decreases j - i,
{
    if i < j {
        lemma_digit_run_exact(s, i + 1, j);
    }
}

/// Decoding at the position where a canonical encoding stands yields the
/// encoded value and consumes exactly the encoding.
pub proof fn lemma_decodes_at(bytes: Seq<u8>, start: int, m: ValueModel)
    requires
        model_wf(m),
        0 <= start,
        start + spec_encoded(m).len() <= bytes.len(),
        bytes.subrange(start, start + spec_encoded(m).len() as int) == spec_encoded(m),
    ensures
        spec_decode(bytes, start) == Ok::<(ValueModel, int), DecodeErrorModel>(
            (m, spec_encoded(m).len() as int),
        ),
    decreases spec_encoded(m).len(), 0int,
{
    let enc = spec_encoded(m);
    let len = enc.len() as int;
    lemma_encoded_nonempty(m);
    assert(bytes[start] == enc[0]);
    match m {
        ValueModel::Binary(b) => {
            let digits = dec_digits(b.len());
            lemma_dec_digits_canonical(b.len());
            lemma_dec_digits_value(b.len());
            let k = digits.len() as int;
            assert(enc == digits.add(seq![COLON]).add(b));
            assert(enc[0] == digits[0]);
            assert(is_digit_byte(bytes[start]));
            let tail = bytes.subrange(start, bytes.len() as int);
            assert forall|j: int| 0 <= j < k implies tail[j] == digits[j] by {
                assert(tail[j] == bytes[start + j]);
                assert(bytes[start + j] == enc[j]);
            }
            assert(tail.subrange(0, k) =~= digits);
            assert(spec_encoded_int(b.len() as int) == digits);
            assert(tail[k] == enc[k]);
            assert(enc[k] == COLON);
            assert(!is_digit_byte(tail[k]));
            lemma_read_number_of_encoding(tail, b.len() as int);
            assert(spec_read_number(tail) == Some((b.len() as int, k)));
            let i = start + k;
            assert(bytes[i] == enc[k]);
            assert forall|j: int| 0 <= j < b.len() implies bytes[i + 1 + j] == b[j] by {
                assert(bytes[start + (k + 1 + j)] == enc[k + 1 + j]);
            }
            assert(bytes.subrange(i + 1, i + 1 + b.len()) =~= b);
            assert(spec_decode_binary(bytes, start) == Ok::<(ValueModel, int), DecodeErrorModel>(
                (m, len),
            ));
        },
        ValueModel::Text(t) => {
            let payload = encode_utf8(t);
            let digits = dec_digits(payload.len());
            lemma_dec_digits_canonical(payload.len());
            lemma_dec_digits_value(payload.len());
            let k = digits.len() as int;
            assert(enc == seq![TOK_TEXT].add(digits).add(seq![COLON]).add(payload));
            assert(enc[0] == TOK_TEXT);
            assert(len >= k + 2);
            let tail = bytes.subrange(start + 1, bytes.len() as int);
            assert forall|j: int| 0 <= j < k implies tail[j] == digits[j] by {
                assert(tail[j] == bytes[start + 1 + j]);
                assert(bytes[start + 1 + j] == enc[1 + j]);
            }
            assert(tail.subrange(0, k) =~= digits);
            assert(spec_encoded_int(payload.len() as int) == digits);
            assert(tail[k] == bytes[start + 1 + k]);
            assert(bytes[start + 1 + k] == enc[1 + k]);
            assert(enc[1 + k] == COLON);
            assert(!is_digit_byte(tail[k]));
            lemma_read_number_of_encoding(tail, payload.len() as int);
            assert(spec_read_number(tail) == Some((payload.len() as int, k)));
            let i = start + 1 + k;
            assert(bytes[i] == COLON);
            assert forall|j: int| 0 <= j < payload.len() implies bytes[i + 1 + j] == payload[j] by {
                assert(bytes[start + (2 + k + j)] == enc[2 + k + j]);
            }
            assert(bytes.subrange(i + 1, i + 1 + payload.len()) =~= payload);
            encode_utf8_valid_utf8(t);
            encode_utf8_decode_utf8(t);
            assert(spec_decode_text(bytes, start) == Ok::<(ValueModel, int), DecodeErrorModel>(
                (m, len),
            ));
        },
        ValueModel::Boolean(v) => {
            assert(spec_decode(bytes, start) == Ok::<(ValueModel, int), DecodeErrorModel>(
                (m, 1int),
            ));
        },
        ValueModel::Null => {
            assert(spec_decode(bytes, start) == Ok::<(ValueModel, int), DecodeErrorModel>(
                (m, 1int),
            ));
        },
        ValueModel::Number(n) => {
            let body = spec_encoded_int(n);
            let k = body.len() as int;
            assert(enc == seq![TOK_INT].add(body).add(seq![TOK_END]));
            assert(enc[0] == TOK_INT);
            if n >= 0 {
                lemma_dec_digits_canonical(n as nat);
            } else {
                lemma_dec_digits_canonical((-n) as nat);
            }
            let tail = bytes.subrange(start + 1, bytes.len() as int);
            assert forall|j: int| 0 <= j < k implies tail[j] == body[j] by {
                assert(tail[j] == bytes[start + 1 + j]);
                assert(bytes[start + 1 + j] == enc[1 + j]);
            }
            assert(tail.subrange(0, k) =~= body);
            assert(tail[k] == bytes[start + 1 + k]);
            assert(bytes[start + 1 + k] == enc[1 + k]);
            assert(enc[1 + k] == TOK_END);
            assert(!is_digit_byte(tail[k]));
            lemma_read_number_of_encoding(tail, n);
            assert(spec_read_number(tail) == Some((n, k)));
            assert(bytes[start + 1 + k] == TOK_END);
            assert(spec_decode_number(bytes, start) == Ok::<(ValueModel, int), DecodeErrorModel>(
                (m, len),
            ));
        },
        ValueModel::List(xs) => {
            let body = spec_encoded_items(xs);
            assert(enc == seq![TOK_LIST].add(body).add(seq![TOK_END]));
            assert(enc[0] == TOK_LIST);
            assert forall|j: int| 0 <= j < body.len() + 1 implies bytes[start + 1 + j] == body.push(
                TOK_END,
            )[j] by {
                assert(bytes[start + 1 + j] == enc[1 + j]);
            }
            assert(bytes.subrange(start + 1, start + 1 + body.len() + 1) =~= body.push(TOK_END));
            lemma_items_decode_at(bytes, start + 1, xs);
            assert(spec_decode_list(bytes, start) == Ok::<(ValueModel, int), DecodeErrorModel>(
                (m, len),
            ));
        },
        ValueModel::Dictionary(es) => {
            let body = spec_encoded_entries(es);
            assert(enc == seq![TOK_DICT].add(body).add(seq![TOK_END]));
            assert(enc[0] == TOK_DICT);
            assert forall|j: int| 0 <= j < body.len() + 1 implies bytes[start + 1 + j] == body.push(
                TOK_END,
            )[j] by {
                assert(bytes[start + 1 + j] == enc[1 + j]);
            }
            assert(bytes.subrange(start + 1, start + 1 + body.len() + 1) =~= body.push(TOK_END));
            lemma_entries_decode_at(bytes, start + 1, es, Seq::empty());
            assert(Seq::empty().add(es) =~= es);
            assert(spec_decode_dict(bytes, start) == Ok::<(ValueModel, int), DecodeErrorModel>(
                (m, len),
            ));
        },
    }
}

/// The list-element loop consumes element encodings up to a terminator.
proof fn lemma_items_decode_at(bytes: Seq<u8>, i: int, xs: Seq<ValueModel>)
    requires
        forall|k: int| #![trigger xs[k]] 0 <= k < xs.len() ==> model_wf(xs[k]),
        0 <= i,
        i + spec_encoded_items(xs).len() + 1 <= bytes.len(),
        bytes.subrange(i, i + spec_encoded_items(xs).len() + 1) == spec_encoded_items(xs).push(
            TOK_END,
        ),
    ensures
        spec_decode_items(bytes, i) == Ok::<(Seq<ValueModel>, int), DecodeErrorModel>(
            (xs, i + spec_encoded_items(xs).len() + 1),
        ),
    decreases spec_encoded_items(xs).len(), 1int,
{
    let body = spec_encoded_items(xs);
    if xs.len() == 0 {
        assert(bytes[i] == body.push(TOK_END)[0]);
        assert(bytes[i] == TOK_END);
        assert(spec_decode_items(bytes, i) == Ok::<(Seq<ValueModel>, int), DecodeErrorModel>(
            (Seq::empty(), i + 1),
        ));
        assert(xs =~= Seq::<ValueModel>::empty());
    } else {
        let head = xs[0];
        let head_enc = spec_encoded(head);
        let rest = xs.drop_first();
        let rest_body = spec_encoded_items(rest);
        assert(body == head_enc.add(rest_body));
        lemma_encoded_nonempty(head);
        assert forall|j: int| 0 <= j < head_enc.len() implies bytes[i + j] == head_enc[j] by {
            assert(bytes[i + j] == body.push(TOK_END)[j]);
        }
        assert(bytes.subrange(i, i + head_enc.len() as int) =~= head_enc);
        lemma_decodes_at(bytes, i, head);
        let hl = head_enc.len() as int;
        assert(bytes[i] == head_enc[0]);
        lemma_encoded_head_not_end(head);
        assert(bytes[i] != TOK_END);
        assert forall|j: int| 0 <= j < rest_body.len() + 1 implies bytes[i + hl + j] == rest_body.push(
            TOK_END,
        )[j] by {
            assert(bytes[i + hl + j] == body.push(TOK_END)[hl + j]);
        }
        assert(bytes.subrange(i + hl, i + hl + rest_body.len() + 1) =~= rest_body.push(TOK_END));
        assert forall|k: int| 0 <= k < rest.len() implies model_wf(#[trigger] rest[k]) by {
            assert(rest[k] == xs[k + 1]);
        }
        lemma_items_decode_at(bytes, i + hl, rest);
        assert(seq![head].add(rest) =~= xs);
    }
}

/// The dictionary-entry loop consumes entry encodings up to a terminator,
/// appending each pair to the accumulated, already smaller-keyed entries.
proof fn lemma_entries_decode_at(
    bytes: Seq<u8>,
    i: int,
    es: Seq<(KeyModel, ValueModel)>,
    acc: Seq<(KeyModel, ValueModel)>,
)
    requires
        forall|k: int| #![trigger es[k]] 0 <= k < es.len() ==> model_wf(es[k].1),
        dict_model_sorted(acc.add(es)),
        0 <= i,
        i + spec_encoded_entries(es).len() + 1 <= bytes.len(),
        bytes.subrange(i, i + spec_encoded_entries(es).len() + 1) == spec_encoded_entries(
            es,
        ).push(TOK_END),
    ensures
        spec_decode_entries(bytes, i, acc) == Ok::<
            (Seq<(KeyModel, ValueModel)>, int),
            DecodeErrorModel,
        >((acc.add(es), i + spec_encoded_entries(es).len() + 1)),
    decreases spec_encoded_entries(es).len(), 1int,
{
    let body = spec_encoded_entries(es);
    if es.len() == 0 {
        assert(bytes[i] == body.push(TOK_END)[0]);
        assert(bytes[i] == TOK_END);
        assert(acc.add(es) =~= acc);
    } else {
        let key = es[0].0;
        let value = es[0].1;
        let km = key_as_model(key);
        let key_enc = spec_encoded_key(key);
        let val_enc = spec_encoded(value);
        let rest = es.drop_first();
        let rest_body = spec_encoded_entries(rest);
        assert(body == key_enc.add(val_enc).add(rest_body));
        assert(spec_encoded(km) == key_enc);
        assert(model_wf(km));
        lemma_encoded_nonempty(km);
        lemma_encoded_nonempty(value);
        let kl = key_enc.len() as int;
        let vl = val_enc.len() as int;
        assert forall|j: int| 0 <= j < kl implies bytes[i + j] == key_enc[j] by {
            assert(bytes[i + j] == body.push(TOK_END)[j]);
        }
        assert(bytes.subrange(i, i + kl) =~= key_enc);
        lemma_decodes_at(bytes, i, km);
        assert(bytes[i] == key_enc[0]);
        lemma_encoded_head_not_end(km);
        assert(bytes[i] != TOK_END);
        assert forall|j: int| 0 <= j < vl implies bytes[i + kl + j] == val_enc[j] by {
            assert(bytes[i + kl + j] == body.push(TOK_END)[kl + j]);
        }
        assert(bytes.subrange(i + kl, i + kl + vl) =~= val_enc);
        assert(model_wf(es[0].1));
        lemma_decodes_at(bytes, i + kl, value);
        // The accumulated keys all sort strictly below the new key, so the
        // key is fresh and its insertion appends.
        assert forall|j: int| 0 <= j < acc.len() implies spec_cmp_key(
            #[trigger] acc[j].0,
            key,
        ) == Ordering::Less by {
            assert(acc.add(es)[j] == acc[j]);
            assert(acc.add(es)[acc.len() as int] == es[0]);
        }
        if spec_dict_contains(acc, key) {
            let j = choose|j: int| 0 <= j < acc.len() && acc[j].0 == key;
            lemma_cmp_key_eq(acc[j].0, key);
            assert(false);
        }
        lemma_dict_insert_append(acc, key, value);
        let acc2 = acc.push((key, value));
        assert forall|j: int| 0 <= j < rest_body.len() + 1 implies bytes[i + kl + vl + j]
            == rest_body.push(TOK_END)[j] by {
            assert(bytes[i + kl + vl + j] == body.push(TOK_END)[kl + vl + j]);
        }
        assert(bytes.subrange(i + kl + vl, i + kl + vl + rest_body.len() + 1) =~= rest_body.push(
            TOK_END,
        ));
        assert forall|k: int| 0 <= k < rest.len() implies model_wf(#[trigger] rest[k].1) by {
            assert(rest[k] == es[k + 1]);
        }
        assert(acc2.add(rest) =~= acc.add(es));
        assert(dict_model_sorted(acc2.add(rest)));
        lemma_entries_decode_at(bytes, i + kl + vl, rest, acc2);
    }
}

/// No encoding starts with the terminator byte.
proof fn lemma_encoded_head_not_end(m: ValueModel)
    ensures
        spec_encoded(m).len() >= 1,
        spec_encoded(m)[0] != TOK_END,
{
    lemma_encoded_nonempty(m);
    match m {
        ValueModel::Binary(b) => {
            lemma_dec_digits_canonical(b.len());
            let digits = dec_digits(b.len());
            assert(spec_encoded(m)[0] == digits[0]);
            assert(is_digit_byte(digits[0]));
        },
        _ => {},
    }
}

/// Round-trip: decoding the canonical encoding of any well-formed value
/// model yields that model back, consuming the whole encoding.
pub proof fn lemma_round_trip(m: ValueModel)
    requires
        model_wf(m),
    ensures
        spec_decode(spec_encoded(m), 0) == Ok::<(ValueModel, int), DecodeErrorModel>(
            (m, spec_encoded(m).len() as int),
        ),
        spec_top_decode(spec_encoded(m)) == Ok::<ValueModel, DecodeErrorModel>(m),
{
    let enc = spec_encoded(m);
    assert(enc.subrange(0, enc.len() as int) =~= enc);
    lemma_decodes_at(enc, 0, m);
}

/// Round-trip for executable values: a well-formed value, encoded and
/// decoded, comes back as the same model.
pub proof fn lemma_decode_encode(v: BencodexValue)
    requires
        value_wf(v),
    ensures
        spec_top_decode(spec_encoded(value_model(v))) == Ok::<ValueModel, DecodeErrorModel>(
            value_model(v),
        ),
{
    lemma_value_wf_model(v);
    lemma_round_trip(value_model(v));
}

/// Canonical determinism: inserting two entries with distinct keys yields
/// the same dictionary in either insertion order; with the round-trip law
/// above, the same logical dictionary therefore has one byte encoding no
/// matter how it was built.
pub proof fn lemma_dict_insert_commutes(
    es: Seq<(KeyModel, ValueModel)>,
    k1: KeyModel,
    v1: ValueModel,
    k2: KeyModel,
    v2: ValueModel,
)
    requires
        dict_model_sorted(es),
        k1 != k2,
    ensures
        spec_dict_insert(spec_dict_insert(es, k1, v1), k2, v2) == spec_dict_insert(
            spec_dict_insert(es, k2, v2),
            k1,
            v1,
        ),
        spec_encoded(
            ValueModel::Dictionary(spec_dict_insert(spec_dict_insert(es, k1, v1), k2, v2)),
        ) == spec_encoded(
            ValueModel::Dictionary(spec_dict_insert(spec_dict_insert(es, k2, v2), k1, v1)),
        ),
    decreases es.len(),
{
    lemma_cmp_key_eq(k1, k2);
    lemma_cmp_key_antisym(k1, k2);
    let a1 = spec_dict_insert(es, k1, v1);
    let a2 = spec_dict_insert(es, k2, v2);
    if es.len() == 0 {
        assert(a1 =~= seq![(k1, v1)]);
        assert(a2 =~= seq![(k2, v2)]);
        assert(a1[0] == (k1, v1));
        assert(a2[0] == (k2, v2));
        assert(a1.drop_first() =~= Seq::<(KeyModel, ValueModel)>::empty());
        assert(a2.drop_first() =~= Seq::<(KeyModel, ValueModel)>::empty());
        assert(spec_dict_insert(Seq::<(KeyModel, ValueModel)>::empty(), k1, v1) == seq![(k1, v1)]);
        assert(spec_dict_insert(Seq::<(KeyModel, ValueModel)>::empty(), k2, v2) == seq![(k2, v2)]);
        if spec_cmp_key(k1, k2) == Ordering::Less {
            assert(spec_cmp_key(k2, k1) == Ordering::Greater);
            assert(spec_dict_insert(a1, k2, v2) =~= spec_dict_insert(a2, k1, v1));
        } else {
            assert(spec_cmp_key(k2, k1) == Ordering::Less);
            assert(spec_dict_insert(a1, k2, v2) =~= spec_dict_insert(a2, k1, v1));
        }
    } else {
        let h = es[0].0;
        let rest = es.drop_first();
        lemma_cmp_key_eq(h, k1);
        lemma_cmp_key_eq(h, k2);
        lemma_cmp_key_antisym(h, k1);
        lemma_cmp_key_antisym(h, k2);
        assert forall|i: int, j: int| 0 <= i < j < rest.len() implies spec_cmp_key(
            #[trigger] rest[i].0,
            #[trigger] rest[j].0,
        ) == Ordering::Less by {
            assert(rest[i] == es[i + 1] && rest[j] == es[j + 1]);
        }
        let c1 = spec_cmp_key(h, k1);
        let c2 = spec_cmp_key(h, k2);
        if c1 == Ordering::Less && c2 == Ordering::Less {
            let b1 = spec_dict_insert(rest, k1, v1);
            let b2 = spec_dict_insert(rest, k2, v2);
            assert(a1 == seq![es[0]].add(b1));
            assert(a2 == seq![es[0]].add(b2));
            assert(a1[0] == es[0] && a2[0] == es[0]);
            assert(a1.drop_first() =~= b1);
            assert(a2.drop_first() =~= b2);
            lemma_dict_insert_commutes(rest, k1, v1, k2, v2);
            assert(spec_dict_insert(a1, k2, v2) == seq![es[0]].add(
                spec_dict_insert(b1, k2, v2),
            ));
            assert(spec_dict_insert(a2, k1, v1) == seq![es[0]].add(
                spec_dict_insert(b2, k1, v1),
            ));
        } else if c1 == Ordering::Less && c2 == Ordering::Equal {
            // k2 equals the head key; k1 sorts after it.
            assert(h == k2);
            let b1 = spec_dict_insert(rest, k1, v1);
            assert(a1 == seq![es[0]].add(b1));
            assert(a1[0] == es[0]);
            assert(a1.drop_first() =~= b1);
            assert(spec_dict_insert(a1, k2, v2) == seq![(k2, v2)].add(b1));
            assert(a2 == seq![(k2, v2)].add(rest));
            assert(a2[0] == (k2, v2));
            assert(spec_cmp_key(k2, k1) == Ordering::Less);
            assert(a2.drop_first() =~= rest);
            assert(spec_dict_insert(a2, k1, v1) == seq![(k2, v2)].add(b1));
        } else if c1 == Ordering::Equal && c2 == Ordering::Less {
            assert(h == k1);
            let b2 = spec_dict_insert(rest, k2, v2);
            assert(a2 == seq![es[0]].add(b2));
            assert(a2[0] == es[0]);
            assert(a2.drop_first() =~= b2);
            assert(spec_dict_insert(a2, k1, v1) == seq![(k1, v1)].add(b2));
            assert(a1 == seq![(k1, v1)].add(rest));
            assert(a1[0] == (k1, v1));
            assert(spec_cmp_key(k1, k2) == Ordering::Less);
            assert(a1.drop_first() =~= rest);
            assert(spec_dict_insert(a1, k2, v2) == seq![(k1, v1)].add(b2));
        } else if c1 == Ordering::Less && c2 == Ordering::Greater {
            // k2 sorts before the head; k1 after it.
            let b1 = spec_dict_insert(rest, k1, v1);
            assert(a1 == seq![es[0]].add(b1));
            assert(a1[0] == es[0]);
            assert(spec_dict_insert(a1, k2, v2) == seq![(k2, v2)].add(a1));
            assert(a2 == seq![(k2, v2)].add(es));
            assert(a2[0] == (k2, v2));
            assert(spec_cmp_key(k2, h) == Ordering::Less);
            lemma_cmp_key_trans(k2, h, k1);
            assert(spec_cmp_key(k2, k1) == Ordering::Less);
            assert(a2.drop_first() =~= es);
            assert(spec_dict_insert(a2, k1, v1) == seq![(k2, v2)].add(a1));
        } else if c1 == Ordering::Greater && c2 == Ordering::Less {
            let b2 = spec_dict_insert(rest, k2, v2);
            assert(a2 == seq![es[0]].add(b2));
            assert(a2[0] == es[0]);
            assert(spec_dict_insert(a2, k1, v1) == seq![(k1, v1)].add(a2));
            assert(a1 == seq![(k1, v1)].add(es));
            assert(a1[0] == (k1, v1));
            assert(spec_cmp_key(k1, h) == Ordering::Less);
            lemma_cmp_key_trans(k1, h, k2);
            assert(spec_cmp_key(k1, k2) == Ordering::Less);
            assert(a1.drop_first() =~= es);
            assert(spec_dict_insert(a1, k2, v2) == seq![(k1, v1)].add(a2));
        } else if c1 == Ordering::Equal && c2 == Ordering::Greater {
            assert(h == k1);
            assert(a1 == seq![(k1, v1)].add(rest));
            assert(a1[0] == (k1, v1));
            assert(spec_cmp_key(k1, k2) == Ordering::Greater);
            assert(spec_dict_insert(a1, k2, v2) == seq![(k2, v2)].add(a1));
            assert(a2 == seq![(k2, v2)].add(es));
            assert(a2[0] == (k2, v2));
            assert(spec_cmp_key(k2, k1) == Ordering::Less);
            assert(a2.drop_first() =~= es);
            assert(spec_dict_insert(a2, k1, v1) == seq![(k2, v2)].add(
                seq![(k1, v1)].add(rest),
            ));
        } else if c1 == Ordering::Greater && c2 == Ordering::Equal {
            assert(h == k2);
            assert(a2 == seq![(k2, v2)].add(rest));
            assert(a2[0] == (k2, v2));
            assert(spec_cmp_key(k2, k1) == Ordering::Greater);
            assert(spec_dict_insert(a2, k1, v1) == seq![(k1, v1)].add(a2));
            assert(a1 == seq![(k1, v1)].add(es));
            assert(a1[0] == (k1, v1));
            assert(spec_cmp_key(k1, k2) == Ordering::Less);
            assert(a1.drop_first() =~= es);
            assert(spec_dict_insert(a1, k2, v2) == seq![(k1, v1)].add(
                seq![(k2, v2)].add(rest),
            ));
        } else if c1 == Ordering::Greater && c2 == Ordering::Greater {
            assert(a1 == seq![(k1, v1)].add(es));
            assert(a2 == seq![(k2, v2)].add(es));
            assert(a1[0] == (k1, v1));
            assert(a2[0] == (k2, v2));
            assert(a1.drop_first() =~= es);
            assert(a2.drop_first() =~= es);
            if spec_cmp_key(k1, k2) == Ordering::Less {
                assert(spec_cmp_key(k2, k1) == Ordering::Greater);
                assert(spec_dict_insert(a1, k2, v2) == seq![(k1, v1)].add(a2));
                assert(spec_dict_insert(a2, k1, v1) == seq![(k1, v1)].add(a2));
            } else {
                assert(spec_cmp_key(k2, k1) == Ordering::Less);
                assert(spec_dict_insert(a1, k2, v2) == seq![(k2, v2)].add(a1));
                assert(spec_dict_insert(a2, k1, v1) == seq![(k2, v2)].add(a1));
            }
        } else {
            // Both heads equal would force the keys equal.
            assert(c1 == Ordering::Equal && c2 == Ordering::Equal);
            assert(false);
        }
    }
}

/// Truncation is caught: a byte string that declares more payload than
/// the buffer holds is invalid input, reported rather than read past the
/// end of the buffer.
pub proof fn lemma_truncated_binary_is_invalid(bytes: Seq<u8>, start: int, length: int, size: int)
    requires
        0 <= start <= bytes.len(),
        spec_read_number(bytes.subrange(start, bytes.len() as int)) == Some((length, size)),
        0 <= length,
        start + size < bytes.len(),
        bytes[start + size] == COLON,
        bytes.len() < start + size + 1 + length,
    ensures
        spec_decode_binary(bytes, start) == Err::<(ValueModel, int), DecodeErrorModel>(
            DecodeErrorModel::Invalid,
        ),
{
}

/// A negative text length is an unexpected token at the offset of its
/// sign character.
pub proof fn lemma_negative_text_length(bytes: Seq<u8>, start: int, length: int, size: int)
    requires
        0 <= start < bytes.len(),
        bytes[start] == TOK_TEXT,
        bytes.len() >= start + 2,
        spec_read_number(bytes.subrange(start + 1, bytes.len() as int)) == Some((length, size)),
        length < 0,
    ensures
        bytes[start + 1] == MINUS,
        spec_decode_text(bytes, start) == Err::<(ValueModel, int), DecodeErrorModel>(
            DecodeErrorModel::Unexpected { token: bytes[start + 1], point: start + 1 },
        ),
{
    let s = bytes.subrange(start + 1, bytes.len() as int);
    if s[0] != MINUS {
        let d = spec_digit_run_len(s, 0);
        crate::codec::decode::lemma_digit_run_bounds(s, 0);
        assert(all_digit_bytes(s.subrange(0, d)));
        lemma_digits_value_nonneg(s.subrange(0, d));
        assert(false);
    }
    assert(bytes[start + 1] == s[0]);
}

} // verus!