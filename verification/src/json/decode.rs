//! Decoding JSON back into Bencodex values. A JSON string is classified
//! by its marker: `"b64:"` or `"0x"` announce binary, the U+FEFF
//! character announces text, a string of decimal digits (with an optional
//! sign) is a number, and anything else is invalid. JSON numeric literals
//! are always rejected: numbers must arrive as strings.

use crate::ascii::MINUS;
use crate::codec::decode::{spec_read_number, read_number};
use crate::codec::dict::{dict_insert, spec_dict_insert};
use crate::codec::number::is_digit_byte;
use crate::codec::types::{
    dict_entries_model, dict_model_sorted, key_model, lemma_list_models_push, list_models,
    value_model, value_wf, BencodexKey, BencodexValue, KeyModel, ValueModel,
};
use crate::json::codes::{
    b64_decode, hex_decode, hex_val, is_hex_digit_byte, lemma_b64_injective, spec_b64,
};
use crate::json::value::{
    json_entry_models, json_model, json_models, lemma_json_entry_models, lemma_json_models,
    JsonModel, JsonValue,
};
use crate::strings::string_from_utf8;
use vstd::prelude::*;
use vstd::slice::{slice_subrange, slice_to_vec};
use vstd::utf8::{decode_utf8, encode_utf8, encode_utf8_valid_utf8, valid_utf8};

verus! {

/// The error returned when JSON cannot be brought back to a value.
#[derive(Debug, PartialEq)]
pub enum JsonDecodeError {
    /// The outer text is not well-formed JSON.
    InvalidJsonString,
    /// Well-formed JSON whose shape or string contents do not fit the
    /// bridge's conventions.
    InvalidJson,
}

/// Whether a byte sequence is an even-length string of hex digits.
pub open spec fn spec_hex_ok(s: Seq<u8>) -> bool {
    s.len() % 2 == 0 && forall|i: int| 0 <= i < s.len() ==> is_hex_digit_byte(#[trigger] s[i])
}

/// The bytes an even-length hex digit string decodes to.
pub open spec fn spec_hex_bytes(s: Seq<u8>) -> Seq<u8> {
    Seq::new((s.len() / 2) as nat, |i: int| (16 * hex_val(s[2 * i]) + hex_val(s[2 * i + 1])) as u8)
}

/// Classifies the content of a JSON string that stands where a key is
/// expected: binary behind a `"b64:"` or `"0x"` marker, text behind
/// U+FEFF, anything else invalid.
pub open spec fn spec_from_json_key(s: Seq<char>) -> Result<KeyModel, JsonDecodeError> {
    let cb = encode_utf8(s);
    if cb.len() >= 4 && cb[0] == 98 && cb[1] == 54 && cb[2] == 52 && cb[3] == 58 {
        if exists|b: Seq<u8>| cb.skip(4) == spec_b64(b) {
            Ok(KeyModel::Binary(choose|b: Seq<u8>| cb.skip(4) == spec_b64(b)))
        } else {
            Err(JsonDecodeError::InvalidJson)
        }
    } else if cb.len() >= 2 && cb[0] == 48 && cb[1] == 120 {
        if spec_hex_ok(cb.skip(2)) {
            Ok(KeyModel::Binary(spec_hex_bytes(cb.skip(2))))
        } else {
            Err(JsonDecodeError::InvalidJson)
        }
    } else if cb.len() >= 3 && cb[0] == 0xEF && cb[1] == 0xBB && cb[2] == 0xBF {
        Ok(KeyModel::Text(decode_utf8(cb.skip(3))))
    } else {
        Err(JsonDecodeError::InvalidJson)
    }
}

/// A decimal-number JSON string: every byte a digit or a minus sign, and
/// the whole content one well-formed number.
pub open spec fn spec_parse_number_string(s: Seq<char>) -> Result<ValueModel, JsonDecodeError> {
    let cb = encode_utf8(s);
    if forall|i: int| 0 <= i < cb.len() ==> (is_digit_byte(#[trigger] cb[i]) || cb[i] == MINUS) {
        match spec_read_number(cb) {
            Some((n, size)) => if size == cb.len() {
                Ok(ValueModel::Number(n))
            } else {
                Err(JsonDecodeError::InvalidJson)
            },
            None => Err(JsonDecodeError::InvalidJson),
        }
    } else {
        Err(JsonDecodeError::InvalidJson)
    }
}

/// The value a JSON document stands for. A string is classified as a key
/// would be; failing that, a string of decimal digits with an optional
/// sign is a number; an object's keys are classified as keys and its
/// entries gathered in canonical key order, a later duplicate replacing
/// an earlier entry.
pub open spec fn spec_from_json(j: JsonModel) -> Result<ValueModel, JsonDecodeError>
    decreases j,
{
    match j {
        JsonModel::Null => Ok(ValueModel::Null),
        JsonModel::Bool(b) => Ok(ValueModel::Boolean(b)),
        JsonModel::Number => Err(JsonDecodeError::InvalidJson),
        JsonModel::String(s) => match spec_from_json_key(s) {
            Ok(KeyModel::Binary(b)) => Ok(ValueModel::Binary(b)),
            Ok(KeyModel::Text(t)) => Ok(ValueModel::Text(t)),
            Err(_) => spec_parse_number_string(s),
        },
        JsonModel::Array(xs) => match spec_from_json_items(xs) {
            Ok(vs) => Ok(ValueModel::List(vs)),
            Err(e) => Err(e),
        },
        JsonModel::Object(es) => match spec_from_json_entries(es, Seq::empty()) {
            Ok(entries) => Ok(ValueModel::Dictionary(entries)),
            Err(e) => Err(e),
        },
    }
}

/// The values of an array's elements, elementwise; the first failure
/// aborts.
pub open spec fn spec_from_json_items(xs: Seq<JsonModel>) -> Result<
    Seq<ValueModel>,
    JsonDecodeError,
>
    decreases xs,
{
    if xs.len() == 0 {
        Ok(Seq::empty())
    } else {
        match spec_from_json(xs[0]) {
            Err(e) => Err(e),
            Ok(v) => match spec_from_json_items(xs.drop_first()) {
                Err(e) => Err(e),
                Ok(rest) => Ok(seq![v].add(rest)),
            },
        }
    }
}

/// Gathers an object's entries into a dictionary sorted by the canonical
/// key order; a later duplicate key replaces the earlier entry, as the
/// map insert it mirrors would.
pub open spec fn spec_from_json_entries(
    es: Seq<(Seq<char>, JsonModel)>,
    acc: Seq<(KeyModel, ValueModel)>,
) -> Result<Seq<(KeyModel, ValueModel)>, JsonDecodeError>
    decreases es,
{
    if es.len() == 0 {
        Ok(acc)
    } else {
        match spec_from_json_key(es[0].0) {
            Err(e) => Err(e),
            Ok(k) => match spec_from_json(es[0].1) {
                Err(e) => Err(e),
                Ok(v) => spec_from_json_entries(es.drop_first(), spec_dict_insert(acc, k, v)),
            },
        }
    }
}

/// The models of an executable conversion result.
pub open spec fn from_json_result_models(r: Result<BencodexValue, JsonDecodeError>) -> Result<
    ValueModel,
    JsonDecodeError,
> {
    match r {
        Ok(v) => Ok(value_model(v)),
        Err(e) => Err(e),
    }
}

/// Classification can only fail with the invalid-JSON error; the
/// invalid-JSON-string error is reserved for text that is not JSON.
pub proof fn lemma_from_json_key_errors(s: Seq<char>)
    ensures
        spec_from_json_key(s) matches Err(e) ==> e == JsonDecodeError::InvalidJson,
{
}

/// Bringing a JSON document back can only fail with the invalid-JSON
/// error, never the invalid-JSON-string one.
pub proof fn lemma_spec_from_json_errors(j: JsonModel)
    ensures
        spec_from_json(j) matches Err(e) ==> e == JsonDecodeError::InvalidJson,
    decreases j,
{
    match j {
        JsonModel::String(s) => {
            lemma_from_json_key_errors(s);
        },
        JsonModel::Array(xs) => {
            lemma_spec_from_json_items_errors(xs);
        },
        JsonModel::Object(es) => {
            lemma_spec_from_json_entries_errors(es, Seq::empty());
        },
        _ => {},
    }
}

/// The element conversions of an array fail only with the invalid-JSON
/// error.
proof fn lemma_spec_from_json_items_errors(xs: Seq<JsonModel>)
    ensures
        spec_from_json_items(xs) matches Err(e) ==> e == JsonDecodeError::InvalidJson,
    decreases xs,
{
    if xs.len() > 0 {
        lemma_spec_from_json_errors(xs[0]);
        lemma_spec_from_json_items_errors(xs.drop_first());
    }
}

/// The entry conversions of an object fail only with the invalid-JSON
/// error.
proof fn lemma_spec_from_json_entries_errors(
    es: Seq<(Seq<char>, JsonModel)>,
    acc: Seq<(KeyModel, ValueModel)>,
)
    ensures
        spec_from_json_entries(es, acc) matches Err(e) ==> e == JsonDecodeError::InvalidJson,
    decreases es,
{
    if es.len() > 0 {
        lemma_from_json_key_errors(es[0].0);
        lemma_spec_from_json_errors(es[0].1);
        match spec_from_json_key(es[0].0) {
            Err(_) => {},
            Ok(k) => {
                match spec_from_json(es[0].1) {
                    Err(_) => {},
                    Ok(v) => {
                        lemma_spec_from_json_entries_errors(
                            es.drop_first(),
                            spec_dict_insert(acc, k, v),
                        );
                    },
                }
            },
        }
    }
}

/// Classifies the content of a JSON string into a dictionary key.
pub fn from_json_key_impl(s: &str) -> (r: Result<BencodexKey, JsonDecodeError>)
    ensures
        match r {
            Ok(k) => spec_from_json_key(s@) == Ok::<KeyModel, JsonDecodeError>(key_model(k)),
            Err(e) => spec_from_json_key(s@) == Err::<KeyModel, JsonDecodeError>(e),
        },
{
    let cb = s.as_bytes();
    let n = cb.len();
    proof {
        encode_utf8_valid_utf8(s@);
    }
    if n >= 4 && cb[0] == 98 && cb[1] == 54 && cb[2] == 52 && cb[3] == 58 {
        match b64_decode(slice_subrange(cb, 4, n)) {
            Some(v) => {
                proof {
                    let ghost chosen = choose|b: Seq<u8>| cb@.skip(4) == spec_b64(b);
                    assert(cb@.skip(4) =~= cb@.subrange(4, n as int));
                    assert(cb@.skip(4) == spec_b64(v@));
                    lemma_b64_injective(v@, chosen);
                }
                Ok(BencodexKey::Binary(v))
            },
            None => {
                proof {
                    assert(cb@.skip(4) =~= cb@.subrange(4, n as int));
                }
                Err(JsonDecodeError::InvalidJson)
            },
        }
    } else if n >= 2 && cb[0] == 48 && cb[1] == 120 {
        match hex_decode(slice_subrange(cb, 2, n)) {
            Some(v) => {
                proof {
                    assert(cb@.skip(2) =~= cb@.subrange(2, n as int));
                    assert(v@ =~= spec_hex_bytes(cb@.skip(2)));
                }
                Ok(BencodexKey::Binary(v))
            },
            None => {
                proof {
                    assert(cb@.skip(2) =~= cb@.subrange(2, n as int));
                }
                Err(JsonDecodeError::InvalidJson)
            },
        }
    } else if n >= 3 && cb[0] == 0xEF && cb[1] == 0xBB && cb[2] == 0xBF {
        let payload = slice_to_vec(slice_subrange(cb, 3, n));
        proof {
            assert(valid_utf8(cb@));
            assert(vstd::utf8::is_leading_byte_width_3(cb@[0]));
            assert(vstd::utf8::length_of_first_scalar(cb@) == 3);
            assert(vstd::utf8::pop_first_scalar(cb@) =~= cb@.subrange(3, n as int));
            assert(valid_utf8(cb@.subrange(3, n as int)));
            assert(cb@.skip(3) =~= cb@.subrange(3, n as int));
        }
        match string_from_utf8(payload) {
            Some(t) => Ok(BencodexKey::Text(t)),
            None => vstd::pervasive::unreached(),
        }
    } else {
        Err(JsonDecodeError::InvalidJson)
    }
}

/// Parses the content of a decimal-number JSON string.
fn parse_number_string(s: &str) -> (r: Result<BencodexValue, JsonDecodeError>)
    ensures
        from_json_result_models(r) == spec_parse_number_string(s@),
        r matches Ok(v) ==> value_wf(v),
{
    let cb = s.as_bytes();
    let n = cb.len();
    let mut i: usize = 0;
    while i < n
        invariant
            0 <= i <= n,
            n == cb@.len(),
            cb@ == encode_utf8(s@),
            forall|k: int| 0 <= k < i ==> (is_digit_byte(#[trigger] cb@[k]) || cb@[k] == MINUS),
        decreases n - i,
    {
        let b = cb[i];
        if (b < 48 || b > 57) && b != MINUS {
            proof {
                assert(!(is_digit_byte(cb@[i as int]) || cb@[i as int] == MINUS));
            }
            return Err(JsonDecodeError::InvalidJson);
        }
        i = i + 1;
    }
    match read_number(cb) {
        Some((num, size)) => {
            if size == n {
                Ok(BencodexValue::Number(num))
            } else {
                Err(JsonDecodeError::InvalidJson)
            }
        },
        None => Err(JsonDecodeError::InvalidJson),
    }
}

/// Brings a JSON document back to a value.
pub fn from_json_value(j: &JsonValue) -> (r: Result<BencodexValue, JsonDecodeError>)
    ensures
        from_json_result_models(r) == spec_from_json(json_model(*j)),
        r matches Ok(v) ==> value_wf(v),
        r matches Err(e) ==> e == JsonDecodeError::InvalidJson,
    decreases *j,
{
    proof {
        lemma_spec_from_json_errors(json_model(*j));
    }
    match j {
        JsonValue::Null => Ok(BencodexValue::Null),
        JsonValue::Bool(b) => Ok(BencodexValue::Boolean(*b)),
        JsonValue::Number => Err(JsonDecodeError::InvalidJson),
        JsonValue::String(s) => {
            match from_json_key_impl(s.as_str()) {
                Ok(BencodexKey::Text(t)) => Ok(BencodexValue::Text(t)),
                Ok(BencodexKey::Binary(b)) => Ok(BencodexValue::Binary(b)),
                Err(_) => parse_number_string(s.as_str()),
            }
        },
        JsonValue::Array(xs) => {
            match from_json_items(xs) {
                Ok(list) => Ok(BencodexValue::List(list)),
                Err(e) => Err(e),
            }
        },
        JsonValue::Object(es) => {
            match from_json_entries_impl(es) {
                Ok(dict) => Ok(BencodexValue::Dictionary(dict)),
                Err(e) => Err(e),
            }
        },
    }
}

/// Brings an array's elements back, in order; the first failure aborts.
fn from_json_items(xs: &Vec<JsonValue>) -> (r: Result<Vec<BencodexValue>, JsonDecodeError>)
    ensures
        match r {
            Ok(list) => spec_from_json_items(json_models(xs@)) == Ok::<
                Seq<ValueModel>,
                JsonDecodeError,
            >(list_models(list@)) && (forall|k: int|
                #![trigger list@[k]]
                0 <= k < list@.len() ==> value_wf(list@[k])),
            Err(e) => spec_from_json_items(json_models(xs@)) == Err::<
                Seq<ValueModel>,
                JsonDecodeError,
            >(e),
        },
    decreases xs@,
{
    let ghost ms = json_models(xs@);
    proof {
        lemma_json_models(xs@);
    }
    let n = xs.len();
    let mut list: Vec<BencodexValue> = Vec::new();
    let mut i: usize = 0;
    proof {
        assert(list_models(list@) =~= Seq::<ValueModel>::empty());
        assert(ms.skip(0) =~= ms);
    }
    while i < n
        invariant
            0 <= i <= n,
            n == xs@.len(),
            ms == json_models(xs@),
            ms.len() == n,
            forall|k: int| 0 <= k < n ==> #[trigger] ms[k] == json_model(xs@[k]),
            forall|k: int| #![trigger list@[k]] 0 <= k < list@.len() ==> value_wf(list@[k]),
            spec_from_json_items(ms) == (match spec_from_json_items(ms.skip(i as int)) {
                Ok(rest) => Ok::<Seq<ValueModel>, JsonDecodeError>(list_models(list@).add(rest)),
                Err(e) => Err(e),
            }),
        decreases n - i,
    {
        proof {
            assert(ms.skip(i as int)[0] == ms[i as int]);
            assert(ms.skip(i as int).drop_first() =~= ms.skip(i + 1));
        }
        match from_json_value(&xs[i]) {
            Err(e) => {
                return Err(e);
            },
            Ok(v) => {
                proof {
                    lemma_list_models_push(list@, v);
                    let ghost rest = spec_from_json_items(ms.skip(i + 1));
                    match rest {
                        Ok(vs) => {
                            assert(list_models(list@).add(seq![value_model(v)].add(vs))
                                =~= list_models(list@).push(value_model(v)).add(vs));
                        },
                        Err(_) => {},
                    }
                }
                list.push(v);
            },
        }
        i = i + 1;
    }
    proof {
        assert(ms.skip(n as int).len() == 0);
        assert(spec_from_json_items(ms.skip(n as int)) == Ok::<Seq<ValueModel>, JsonDecodeError>(
            Seq::empty(),
        ));
        assert(list_models(list@).add(Seq::<ValueModel>::empty()) =~= list_models(list@));
    }
    Ok(list)
}

/// Gathers an object's entries into a dictionary in canonical key order.
fn from_json_entries_impl(es: &Vec<(String, JsonValue)>) -> (r: Result<
    Vec<(BencodexKey, BencodexValue)>,
    JsonDecodeError,
>)
    ensures
        match r {
            Ok(dict) => spec_from_json_entries(json_entry_models(es@), Seq::empty()) == Ok::<
                Seq<(KeyModel, ValueModel)>,
                JsonDecodeError,
            >(dict_entries_model(dict@)) && dict_model_sorted(dict_entries_model(dict@)) && (
            forall|k: int| #![trigger dict@[k]] 0 <= k < dict@.len() ==> value_wf(dict@[k].1)),
            Err(e) => spec_from_json_entries(json_entry_models(es@), Seq::empty()) == Err::<
                Seq<(KeyModel, ValueModel)>,
                JsonDecodeError,
            >(e),
        },
    decreases es@,
{
    let ghost ms = json_entry_models(es@);
    proof {
        lemma_json_entry_models(es@);
    }
    let n = es.len();
    let mut dict: Vec<(BencodexKey, BencodexValue)> = Vec::new();
    let mut i: usize = 0;
    proof {
        assert(dict_entries_model(dict@) =~= Seq::<(KeyModel, ValueModel)>::empty());
        assert(ms.skip(0) =~= ms);
    }
    while i < n
        invariant
            0 <= i <= n,
            n == es@.len(),
            ms == json_entry_models(es@),
            ms.len() == n,
            forall|k: int| 0 <= k < n ==> #[trigger] ms[k] == (es@[k].0@, json_model(es@[k].1)),
            dict_model_sorted(dict_entries_model(dict@)),
            forall|k: int| #![trigger dict@[k]] 0 <= k < dict@.len() ==> value_wf(dict@[k].1),
            spec_from_json_entries(ms, Seq::empty()) == spec_from_json_entries(
                ms.skip(i as int),
                dict_entries_model(dict@),
            ),
        decreases n - i,
    {
        proof {
            assert(ms.skip(i as int)[0] == ms[i as int]);
            assert(ms.skip(i as int).drop_first() =~= ms.skip(i + 1));
        }
        let entry = &es[i];
        match from_json_key_impl(entry.0.as_str()) {
            Err(e) => {
                return Err(e);
            },
            Ok(key) => {
                match entry_from_json(entry) {
                    Err(e) => {
                        return Err(e);
                    },
                    Ok(value) => {
                        let _replaced = dict_insert(&mut dict, key, value);
                    },
                }
            },
        }
        i = i + 1;
    }
    proof {
        assert(ms.skip(n as int).len() == 0);
    }
    Ok(dict)
}

/// Brings one object entry's value back.
fn entry_from_json(entry: &(String, JsonValue)) -> (r: Result<BencodexValue, JsonDecodeError>)
    ensures
        from_json_result_models(r) == spec_from_json(json_model(entry.1)),
        r matches Ok(v) ==> value_wf(v),
    decreases *entry,
{
    from_json_value(&entry.1)
}

/// Brings a parsed JSON value back to a Bencodex value.
///
/// The JSON tree is first carried over to the bridge's own document type;
/// the conversion itself, [`from_json_value`], carries the exact
/// contract.
pub fn from_json(value: &serde_json::Value) -> (r: Result<BencodexValue, JsonDecodeError>)
    ensures
        r matches Ok(v) ==> value_wf(v),
        r matches Err(e) ==> e == JsonDecodeError::InvalidJson,
{
    let tree = crate::json::value::json_tree(value);
    from_json_value(&tree)
}

/// Parses JSON text and brings it back to a Bencodex value. Text that is
/// not well-formed JSON gives `InvalidJsonString`; well-formed JSON that
/// does not fit the bridge's conventions gives `InvalidJson`.
pub fn from_json_string(s: &str) -> (r: Result<BencodexValue, JsonDecodeError>)
    ensures
        r matches Ok(v) ==> value_wf(v),
{
    match crate::json::value::parse_json(s) {
        None => Err(JsonDecodeError::InvalidJsonString),
        Some(v) => from_json(&v),
    }
}

} // verus!
