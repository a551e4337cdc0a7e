//! Encoding Bencodex values as JSON text. JSON cannot natively tell this
//! format's binary strings, texts and arbitrary-precision numbers apart,
//! so every value that becomes a JSON string carries a marker: `"0x"` or
//! `"b64:"` before encoded binary, the U+FEFF character before text, and
//! a number travels as the JSON string of its decimal digits.

use crate::codec::encode::spec_encoded_int;
use crate::codec::number::{
    dec_digits, is_digit_byte, lemma_canonical_digits_unique, lemma_digits_value_nonneg,
    BencodexNumber,
};
use crate::codec::types::{
    dict_entries_model, key_model, lemma_dict_entries_model, lemma_list_models, list_models,
    value_model, value_wf, BencodexKey, BencodexValue, KeyModel, ValueModel,
};
use crate::json::codes::{b64_encode, hex_encode, spec_b64, spec_hex};
use crate::json::value::{
    json_entry_models, json_model, json_models, lemma_json_entry_models, lemma_json_models,
    JsonModel, JsonValue,
};
use crate::strings::{chars_to_string, string_chars, string_from_utf8};
use crate::ascii::MINUS;
use vstd::prelude::*;
use vstd::utf8::{decode_utf8, valid_utf8};

verus! {

/// How a `Binary` value is written into a JSON string.
#[derive(Debug, Clone, Copy, PartialEq, Eq, Structural)]
pub enum BinaryEncoding {
    /// `"b64:"` followed by standard padded base64.
    Base64,
    /// `"0x"` followed by lowercase hexadecimal.
    Hex,
}

impl Default for BinaryEncoding {
    /// Base64 is the default binary encoding.
    fn default() -> (r: Self)
        ensures
            r == BinaryEncoding::Base64,
    {
        BinaryEncoding::Base64
    }
}

/// Options for [`to_json_with_options`].
#[derive(Debug, Clone, Copy, PartialEq, Eq, Structural)]
pub struct JsonEncodeOptions {
    /// How `Binary` values and keys are written.
    pub binary_encoding: BinaryEncoding,
}

impl Default for JsonEncodeOptions {
    /// The default options use base64 for binary values.
    fn default() -> (r: Self)
        ensures
            r == (JsonEncodeOptions { binary_encoding: BinaryEncoding::Base64 }),
    {
        JsonEncodeOptions { binary_encoding: BinaryEncoding::Base64 }
    }
}

/// The bytes of the JSON string content a binary value becomes: its
/// marker, then the encoded bytes.
pub open spec fn binary_content_bytes(b: Seq<u8>, enc: BinaryEncoding) -> Seq<u8> {
    match enc {
        BinaryEncoding::Base64 => seq![98u8, 54u8, 52u8, 58u8].add(spec_b64(b)),
        BinaryEncoding::Hex => seq![48u8, 120u8].add(spec_hex(b)),
    }
}

/// The JSON string content a dictionary key becomes.
pub open spec fn key_json_content(k: KeyModel, enc: BinaryEncoding) -> Seq<char> {
    match k {
        KeyModel::Binary(b) => decode_utf8(binary_content_bytes(b, enc)),
        KeyModel::Text(t) => seq!['\u{FEFF}'].add(t),
    }
}

/// The JSON document a value becomes.
pub open spec fn spec_to_json(m: ValueModel, enc: BinaryEncoding) -> JsonModel
    decreases m,
{
    match m {
        ValueModel::Binary(b) => JsonModel::String(key_json_content(KeyModel::Binary(b), enc)),
        ValueModel::Text(t) => JsonModel::String(key_json_content(KeyModel::Text(t), enc)),
        ValueModel::Boolean(b) => JsonModel::Bool(b),
        ValueModel::Number(n) => JsonModel::String(decode_utf8(spec_encoded_int(n))),
        ValueModel::List(xs) => JsonModel::Array(spec_to_json_items(xs, enc)),
        ValueModel::Dictionary(es) => JsonModel::Object(spec_to_json_entries(es, enc)),
        ValueModel::Null => JsonModel::Null,
    }
}

/// The JSON documents of a list's elements, elementwise.
pub open spec fn spec_to_json_items(xs: Seq<ValueModel>, enc: BinaryEncoding) -> Seq<JsonModel>
    decreases xs,
{
    if xs.len() == 0 {
        Seq::empty()
    } else {
        seq![spec_to_json(xs[0], enc)].add(spec_to_json_items(xs.drop_first(), enc))
    }
}

/// The JSON object entries of a dictionary's entries, elementwise.
pub open spec fn spec_to_json_entries(es: Seq<(KeyModel, ValueModel)>, enc: BinaryEncoding) -> Seq<
    (Seq<char>, JsonModel),
>
    decreases es,
{
    if es.len() == 0 {
        Seq::empty()
    } else {
        seq![(key_json_content(es[0].0, enc), spec_to_json(es[0].1, enc))].add(
            spec_to_json_entries(es.drop_first(), enc),
        )
    }
}

/// `spec_to_json_items` maps `spec_to_json` over the sequence.
pub proof fn lemma_spec_to_json_items(xs: Seq<ValueModel>, enc: BinaryEncoding)
    ensures
        spec_to_json_items(xs, enc).len() == xs.len(),
        forall|i: int|
            0 <= i < xs.len() ==> #[trigger] spec_to_json_items(xs, enc)[i] == spec_to_json(
                xs[i],
                enc,
            ),
    decreases xs,
{
    if xs.len() > 0 {
        lemma_spec_to_json_items(xs.drop_first(), enc);
    }
}

/// `spec_to_json_entries` maps the key and value conversions over the
/// entries.
pub proof fn lemma_spec_to_json_entries(es: Seq<(KeyModel, ValueModel)>, enc: BinaryEncoding)
    ensures
        spec_to_json_entries(es, enc).len() == es.len(),
        forall|i: int|
            0 <= i < es.len() ==> #[trigger] spec_to_json_entries(es, enc)[i] == (
            key_json_content(es[i].0, enc),
            spec_to_json(es[i].1, enc),
            ),
    decreases es,
{
    if es.len() > 0 {
        lemma_spec_to_json_entries(es.drop_first(), enc);
    }
}

/// A sequence of bytes below 128 is valid UTF-8, and encoding its decoded
/// characters gives the bytes back.
pub proof fn lemma_ascii_valid(s: Seq<u8>)
    requires
        forall|i: int| 0 <= i < s.len() ==> #[trigger] s[i] < 128,
    ensures
        valid_utf8(s),
{
    assert(s.subrange(0, 0) =~= Seq::<u8>::empty());
    assert(vstd::utf8::partial_valid_utf8(s, 0));
    assert forall|i: int|
        0 <= 0 <= i < s.len() <= s.len() implies #[trigger] vstd::utf8::is_leading_byte_width_1(
        s[i],
    ) by {
        assert(s[i] < 128);
    }
    vstd::utf8::partial_valid_utf8_extend_ascii_block(s, 0, s.len() as int);
    assert(s.subrange(0, s.len() as int) =~= s);
}

/// Every byte of a hex encoding is ASCII.
pub proof fn lemma_hex_ascii(b: Seq<u8>)
    ensures
        forall|i: int| 0 <= i < spec_hex(b).len() ==> #[trigger] spec_hex(b)[i] < 128,
{
    crate::json::codes::lemma_hex_round_trip(b);
}

/// Every byte of a base64 encoding is ASCII.
pub proof fn lemma_b64_ascii(b: Seq<u8>)
    ensures
        forall|i: int| 0 <= i < spec_b64(b).len() ==> #[trigger] spec_b64(b)[i] < 128,
    decreases b.len(),
{
    if b.len() >= 3 {
        lemma_b64_ascii(b.skip(3));
        assert forall|i: int| 0 <= i < spec_b64(b).len() implies #[trigger] spec_b64(b)[i]
            < 128 by {
            if i >= 4 {
                assert(spec_b64(b)[i] == spec_b64(b.skip(3))[i - 4]);
            }
        }
    }
}

/// Every byte of a canonical integer encoding is ASCII.
pub proof fn lemma_int_ascii(n: int)
    ensures
        forall|i: int|
            0 <= i < spec_encoded_int(n).len() ==> #[trigger] spec_encoded_int(n)[i] < 128,
{
    if n < 0 {
        crate::codec::number::lemma_dec_digits_canonical((-n) as nat);
        let s = spec_encoded_int(n);
        let d = dec_digits((-n) as nat);
        assert forall|i: int| 0 <= i < s.len() implies #[trigger] s[i] < 128 by {
            if i > 0 {
                assert(s[i] == d[i - 1]);
                assert(is_digit_byte(d[i - 1]));
            }
        }
    } else {
        crate::codec::number::lemma_dec_digits_canonical(n as nat);
        let s = spec_encoded_int(n);
        assert forall|i: int| 0 <= i < s.len() implies #[trigger] s[i] < 128 by {
            assert(is_digit_byte(s[i]));
        }
    }
}

/// The JSON string content for a binary value: the marker, then the
/// encoded bytes.
fn binary_json_string(bytes: &[u8], enc: BinaryEncoding) -> (r: String)
    ensures
        r@ == decode_utf8(binary_content_bytes(bytes@, enc)),
{
    let mut content: Vec<u8> = Vec::new();
    match enc {
        BinaryEncoding::Base64 => {
            content.push(98);
            content.push(54);
            content.push(52);
            content.push(58);
            let code = b64_encode(bytes);
            content.extend_from_slice(code.as_slice());
            proof {
                assert(content@ =~= binary_content_bytes(bytes@, enc));
                lemma_b64_ascii(bytes@);
                assert forall|i: int| 0 <= i < content@.len() implies #[trigger] content@[i]
                    < 128 by {
                    if i >= 4 {
                        assert(content@[i] == spec_b64(bytes@)[i - 4]);
                    }
                }
                lemma_ascii_valid(content@);
            }
        },
        BinaryEncoding::Hex => {
            content.push(48);
            content.push(120);
            let code = hex_encode(bytes);
            content.extend_from_slice(code.as_slice());
            proof {
                assert(content@ =~= binary_content_bytes(bytes@, enc));
                lemma_hex_ascii(bytes@);
                assert forall|i: int| 0 <= i < content@.len() implies #[trigger] content@[i]
                    < 128 by {
                    if i >= 2 {
                        assert(content@[i] == spec_hex(bytes@)[i - 2]);
                    }
                }
                lemma_ascii_valid(content@);
            }
        },
    }
    match string_from_utf8(content) {
        Some(s) => s,
        None => vstd::pervasive::unreached(),
    }
}

/// The JSON string content for a number: its decimal digits, with the
/// sign.
fn number_json_string(n: &BencodexNumber) -> (r: String)
    requires
        n.wf(),
    ensures
        r@ == decode_utf8(spec_encoded_int(n@)),
{
    let mut content: Vec<u8> = Vec::new();
    if n.negative {
        content.push(MINUS);
    }
    content.extend_from_slice(n.digits.as_slice());
    proof {
        lemma_canonical_digits_unique(n.digits@);
        lemma_digits_value_nonneg(n.digits@);
        if n.negative {
            assert(content@ =~= seq![MINUS].add(n.digits@));
        } else {
            assert(content@ =~= n.digits@);
        }
        assert(content@ == spec_encoded_int(n@));
        lemma_int_ascii(n@);
        lemma_ascii_valid(content@);
    }
    match string_from_utf8(content) {
        Some(s) => s,
        None => vstd::pervasive::unreached(),
    }
}

/// The JSON string content for a text value: the U+FEFF marker, then the
/// text itself.
fn text_json_string(t: &String) -> (r: String)
    ensures
        r@ == seq!['\u{FEFF}'].add(t@),
{
    let marker = String::from_str("\u{FEFF}");
    proof {
        reveal_strlit("\u{FEFF}");
        assert(marker@ =~= seq!['\u{FEFF}']);
    }
    marker.concat(t.as_str())
}

/// The JSON string content for a dictionary key.
fn key_json_string(key: &BencodexKey, enc: BinaryEncoding) -> (r: String)
    ensures
        r@ == key_json_content(key@, enc),
{
    match key {
        BencodexKey::Binary(b) => binary_json_string(b.as_slice(), enc),
        BencodexKey::Text(t) => text_json_string(t),
    }
}

/// Builds the JSON document for a value.
pub fn value_to_json(value: &BencodexValue, enc: BinaryEncoding) -> (r: JsonValue)
    requires
        value_wf(*value),
    ensures
        json_model(r) == spec_to_json(value_model(*value), enc),
    decreases *value,
{
    match value {
        BencodexValue::Binary(b) => JsonValue::String(binary_json_string(b.as_slice(), enc)),
        BencodexValue::Text(t) => JsonValue::String(text_json_string(t)),
        BencodexValue::Boolean(b) => JsonValue::Bool(*b),
        BencodexValue::Number(n) => JsonValue::String(number_json_string(n)),
        BencodexValue::List(xs) => {
            let out = to_json_values(xs, enc);
            let r = JsonValue::Array(out);
            proof {
                lemma_json_models(out@);
                lemma_list_models(xs@);
                lemma_spec_to_json_items(list_models(xs@), enc);
                assert(json_model(r)->Array_0 =~= spec_to_json(value_model(*value), enc)->Array_0);
            }
            r
        },
        BencodexValue::Dictionary(es) => {
            let out = to_json_entries(es, enc);
            let r = JsonValue::Object(out);
            proof {
                lemma_json_entry_models(out@);
                lemma_dict_entries_model(es@);
                lemma_spec_to_json_entries(dict_entries_model(es@), enc);
                assert(json_model(r)->Object_0 =~= spec_to_json(value_model(*value), enc)->Object_0);
            }
            r
        },
        BencodexValue::Null => JsonValue::Null,
    }
}

/// Builds the JSON documents of a list's elements, in order.
fn to_json_values(xs: &Vec<BencodexValue>, enc: BinaryEncoding) -> (out: Vec<JsonValue>)
    requires
        forall|k: int| #![trigger xs@[k]] 0 <= k < xs@.len() ==> value_wf(xs@[k]),
    ensures
        out@.len() == xs@.len(),
        forall|k: int|
            0 <= k < xs@.len() ==> json_model(#[trigger] out@[k]) == spec_to_json(
                value_model(xs@[k]),
                enc,
            ),
    decreases xs@,
{
    let mut out: Vec<JsonValue> = Vec::new();
    let n = xs.len();
    let mut i: usize = 0;
    while i < n
        invariant
            0 <= i <= n,
            n == xs@.len(),
            out@.len() == i,
            forall|k: int| #![trigger xs@[k]] 0 <= k < n ==> value_wf(xs@[k]),
            forall|k: int|
                0 <= k < i ==> json_model(#[trigger] out@[k]) == spec_to_json(
                    value_model(xs@[k]),
                    enc,
                ),
        decreases n - i,
    {
        let j = value_to_json(&xs[i], enc);
        out.push(j);
        i = i + 1;
    }
    out
}

/// Builds the JSON object entries of a dictionary, in storage order.
fn to_json_entries(es: &Vec<(BencodexKey, BencodexValue)>, enc: BinaryEncoding) -> (out: Vec<
    (String, JsonValue),
>)
    requires
        forall|k: int| #![trigger es@[k]] 0 <= k < es@.len() ==> value_wf(es@[k].1),
    ensures
        out@.len() == es@.len(),
        forall|k: int|
            0 <= k < es@.len() ==> (#[trigger] out@[k].0)@ == key_json_content(
                key_model(es@[k].0),
                enc,
            ) && json_model(out@[k].1) == spec_to_json(value_model(es@[k].1), enc),
    decreases es@,
{
    let mut out: Vec<(String, JsonValue)> = Vec::new();
    let n = es.len();
    let mut i: usize = 0;
    while i < n
        invariant
            0 <= i <= n,
            n == es@.len(),
            out@.len() == i,
            forall|k: int| #![trigger es@[k]] 0 <= k < n ==> value_wf(es@[k].1),
            forall|k: int|
                0 <= k < i ==> (#[trigger] out@[k].0)@ == key_json_content(
                    key_model(es@[k].0),
                    enc,
                ) && json_model(out@[k].1) == spec_to_json(value_model(es@[k].1), enc),
        decreases n - i,
    {
        let entry = &es[i];
        let ks = key_json_string(&entry.0, enc);
        let jv = entry_value_to_json(entry, enc);
        out.push((ks, jv));
        i = i + 1;
    }
    out
}

/// Builds the JSON document of one entry's value.
fn entry_value_to_json(entry: &(BencodexKey, BencodexValue), enc: BinaryEncoding) -> (r: JsonValue)
    requires
        value_wf(entry.1),
    ensures
        json_model(r) == spec_to_json(value_model(entry.1), enc),
    decreases *entry,
{
    value_to_json(&entry.1, enc)
}

/// The lowercase hex digit character for `n`.
pub open spec fn hex_digit_char(n: int) -> char {
    if n == 0 {
        '0'
    } else if n == 1 {
        '1'
    } else if n == 2 {
        '2'
    } else if n == 3 {
        '3'
    } else if n == 4 {
        '4'
    } else if n == 5 {
        '5'
    } else if n == 6 {
        '6'
    } else if n == 7 {
        '7'
    } else if n == 8 {
        '8'
    } else if n == 9 {
        '9'
    } else if n == 10 {
        'a'
    } else if n == 11 {
        'b'
    } else if n == 12 {
        'c'
    } else if n == 13 {
        'd'
    } else if n == 14 {
        'e'
    } else {
        'f'
    }
}

/// How one character stands inside a JSON string: quotes, backslashes and
/// control characters are escaped, everything else stands as itself.
pub open spec fn escaped_char(c: char) -> Seq<char> {
    if c == '"' {
        seq!['\\', '"']
    } else if c == '\\' {
        seq!['\\', '\\']
    } else if c == '\n' {
        seq!['\\', 'n']
    } else if c == '\r' {
        seq!['\\', 'r']
    } else if c == '\t' {
        seq!['\\', 't']
    } else if (c as u32) < 32 {
        seq!['\\', 'u', '0', '0', hex_digit_char(c as u32 as int / 16), hex_digit_char(c as u32 as int % 16)]
    } else {
        seq![c]
    }
}

/// A string's characters, escaped for standing inside a JSON string.
pub open spec fn escape_chars(s: Seq<char>) -> Seq<char>
    decreases s,
{
    if s.len() == 0 {
        Seq::empty()
    } else {
        escaped_char(s[0]).add(escape_chars(s.drop_first()))
    }
}

/// Appending a character appends its escape.
proof fn lemma_escape_chars_push(s: Seq<char>, c: char)
    ensures
        escape_chars(s.push(c)) == escape_chars(s).add(escaped_char(c)),
    decreases s,
{
    if s.len() == 0 {
        assert(s.push(c).drop_first() =~= Seq::<char>::empty());
        assert(s.push(c)[0] == c);
        assert(escape_chars(Seq::<char>::empty()) == Seq::<char>::empty());
        assert(escape_chars(s.push(c)) =~= escape_chars(s).add(escaped_char(c)));
    } else {
        assert(s.push(c).drop_first() =~= s.drop_first().push(c));
        assert(s.push(c)[0] == s[0]);
        lemma_escape_chars_push(s.drop_first(), c);
        assert(escape_chars(s.push(c)) =~= escape_chars(s).add(escaped_char(c)));
    }
}

/// The JSON text of a document, as characters. A numeric node, which this
/// bridge itself never produces, is written as `null`.
pub open spec fn spec_json_text(j: JsonModel) -> Seq<char>
    decreases j,
{
    match j {
        JsonModel::Null => seq!['n', 'u', 'l', 'l'],
        JsonModel::Bool(b) => if b {
            seq!['t', 'r', 'u', 'e']
        } else {
            seq!['f', 'a', 'l', 's', 'e']
        },
        JsonModel::Number => seq!['n', 'u', 'l', 'l'],
        JsonModel::String(s) => seq!['"'].add(escape_chars(s)).add(seq!['"']),
        JsonModel::Array(xs) => seq!['['].add(spec_render_items(xs)).add(seq![']']),
        JsonModel::Object(es) => seq!['{'].add(spec_render_entries(es)).add(seq!['}']),
    }
}

/// Array elements, comma separated.
pub open spec fn spec_render_items(xs: Seq<JsonModel>) -> Seq<char>
    decreases xs,
{
    if xs.len() == 0 {
        Seq::empty()
    } else {
        spec_json_text(xs[0]).add(spec_render_items_tail(xs.drop_first()))
    }
}

/// The elements after the first, each with its leading comma.
pub open spec fn spec_render_items_tail(xs: Seq<JsonModel>) -> Seq<char>
    decreases xs,
{
    if xs.len() == 0 {
        Seq::empty()
    } else {
        seq![','].add(spec_json_text(xs[0])).add(spec_render_items_tail(xs.drop_first()))
    }
}

/// One object entry: the quoted, escaped key, a colon, and the value.
pub open spec fn spec_render_entry(e: (Seq<char>, JsonModel)) -> Seq<char>
    decreases e,
{
    seq!['"'].add(escape_chars(e.0)).add(seq!['"', ':']).add(spec_json_text(e.1))
}

/// Object entries, comma separated.
pub open spec fn spec_render_entries(es: Seq<(Seq<char>, JsonModel)>) -> Seq<char>
    decreases es,
{
    if es.len() == 0 {
        Seq::empty()
    } else {
        spec_render_entry(es[0]).add(spec_render_entries_tail(es.drop_first()))
    }
}

/// The entries after the first, each with its leading comma.
pub open spec fn spec_render_entries_tail(es: Seq<(Seq<char>, JsonModel)>) -> Seq<char>
    decreases es,
{
    if es.len() == 0 {
        Seq::empty()
    } else {
        seq![','].add(spec_render_entry(es[0])).add(spec_render_entries_tail(es.drop_first()))
    }
}

/// Appending an element appends a comma and its text.
proof fn lemma_render_items_tail_push(xs: Seq<JsonModel>, x: JsonModel)
    ensures
        spec_render_items_tail(xs.push(x)) == spec_render_items_tail(xs).add(seq![',']).add(
            spec_json_text(x),
        ),
    decreases xs,
{
    if xs.len() == 0 {
        assert(xs.push(x).drop_first() =~= Seq::<JsonModel>::empty());
        assert(xs.push(x)[0] == x);
        assert(spec_render_items_tail(Seq::<JsonModel>::empty()) == Seq::<char>::empty());
        assert(spec_render_items_tail(xs.push(x)) =~= spec_render_items_tail(xs).add(
            seq![','],
        ).add(spec_json_text(x)));
    } else {
        assert(xs.push(x).drop_first() =~= xs.drop_first().push(x));
        assert(xs.push(x)[0] == xs[0]);
        lemma_render_items_tail_push(xs.drop_first(), x);
        assert(spec_render_items_tail(xs.push(x)) =~= spec_render_items_tail(xs).add(
            seq![','],
        ).add(spec_json_text(x)));
    }
}

/// Appending an entry appends a comma and its text.
proof fn lemma_render_entries_tail_push(es: Seq<(Seq<char>, JsonModel)>, e: (Seq<char>, JsonModel))
    ensures
        spec_render_entries_tail(es.push(e)) == spec_render_entries_tail(es).add(seq![',']).add(
            spec_render_entry(e),
        ),
    decreases es,
{
    if es.len() == 0 {
        assert(es.push(e).drop_first() =~= Seq::<(Seq<char>, JsonModel)>::empty());
        assert(es.push(e)[0] == e);
        assert(spec_render_entries_tail(Seq::<(Seq<char>, JsonModel)>::empty())
            == Seq::<char>::empty());
        assert(spec_render_entries_tail(es.push(e)) =~= spec_render_entries_tail(es).add(
            seq![','],
        ).add(spec_render_entry(e)));
    } else {
        assert(es.push(e).drop_first() =~= es.drop_first().push(e));
        assert(es.push(e)[0] == es[0]);
        lemma_render_entries_tail_push(es.drop_first(), e);
        assert(spec_render_entries_tail(es.push(e)) =~= spec_render_entries_tail(es).add(
            seq![','],
        ).add(spec_render_entry(e)));
    }
}

/// The lowercase hex digit character for `n`.
fn hex_digit_char_of(n: u32) -> (c: char)
    requires
        n < 16,
    ensures
        c == hex_digit_char(n as int),
{
    if n == 0 {
        '0'
    } else if n == 1 {
        '1'
    } else if n == 2 {
        '2'
    } else if n == 3 {
        '3'
    } else if n == 4 {
        '4'
    } else if n == 5 {
        '5'
    } else if n == 6 {
        '6'
    } else if n == 7 {
        '7'
    } else if n == 8 {
        '8'
    } else if n == 9 {
        '9'
    } else if n == 10 {
        'a'
    } else if n == 11 {
        'b'
    } else if n == 12 {
        'c'
    } else if n == 13 {
        'd'
    } else if n == 14 {
        'e'
    } else {
        'f'
    }
}

/// Writes a string's characters, escaped, to the output.
fn escape_into(s: &String, out: &mut Vec<char>)
    ensures
        final (out)@ == old(out)@.add(escape_chars(s@)),
{
    let cs = string_chars(s.as_str());
    let n = cs.len();
    let mut i: usize = 0;
    proof {
        assert(cs@.subrange(0, 0) =~= Seq::<char>::empty());
    }
    while i < n
        invariant
            0 <= i <= n,
            n == cs@.len(),
            cs@ == s@,
            out@ == old(out)@.add(escape_chars(cs@.subrange(0, i as int))),
        decreases n - i,
    {
        let c = cs[i];
        if c == '"' {
            out.push('\\');
            out.push('"');
        } else if c == '\\' {
            out.push('\\');
            out.push('\\');
        } else if c == '\n' {
            out.push('\\');
            out.push('n');
        } else if c == '\r' {
            out.push('\\');
            out.push('r');
        } else if c == '\t' {
            out.push('\\');
            out.push('t');
        } else {
            let u = c as u32;
            if u < 32 {
                out.push('\\');
                out.push('u');
                out.push('0');
                out.push('0');
                out.push(hex_digit_char_of(u / 16));
                out.push(hex_digit_char_of(u % 16));
            } else {
                out.push(c);
            }
        }
        proof {
            lemma_escape_chars_push(cs@.subrange(0, i as int), cs@[i as int]);
            assert(cs@.subrange(0, i as int).push(cs@[i as int]) =~= cs@.subrange(0, i + 1));
            assert(out@ =~= old(out)@.add(escape_chars(cs@.subrange(0, i + 1))));
        }
        i = i + 1;
    }
    proof {
        assert(cs@.subrange(0, n as int) =~= cs@);
    }
}

/// Writes the JSON text of a document to the output.
fn render_json(j: &JsonValue, out: &mut Vec<char>)
    ensures
        final (out)@ == old(out)@.add(spec_json_text(json_model(*j))),
    decreases *j,
{
    match j {
        JsonValue::Null => {
            out.push('n');
            out.push('u');
            out.push('l');
            out.push('l');
            proof {
                assert(out@ =~= old(out)@.add(spec_json_text(json_model(*j))));
            }
        },
        JsonValue::Bool(b) => {
            if *b {
                out.push('t');
                out.push('r');
                out.push('u');
                out.push('e');
            } else {
                out.push('f');
                out.push('a');
                out.push('l');
                out.push('s');
                out.push('e');
            }
            proof {
                assert(out@ =~= old(out)@.add(spec_json_text(json_model(*j))));
            }
        },
        JsonValue::Number => {
            out.push('n');
            out.push('u');
            out.push('l');
            out.push('l');
            proof {
                assert(out@ =~= old(out)@.add(spec_json_text(json_model(*j))));
            }
        },
        JsonValue::String(s) => {
            out.push('"');
            escape_into(s, out);
            out.push('"');
            proof {
                assert(out@ =~= old(out)@.add(spec_json_text(json_model(*j))));
            }
        },
        JsonValue::Array(xs) => {
            out.push('[');
            render_array(xs, out);
            out.push(']');
            proof {
                assert(out@ =~= old(out)@.add(spec_json_text(json_model(*j))));
            }
        },
        JsonValue::Object(es) => {
            out.push('{');
            render_object(es, out);
            out.push('}');
            proof {
                assert(out@ =~= old(out)@.add(spec_json_text(json_model(*j))));
            }
        },
    }
}

/// Writes an array's elements, comma separated.
fn render_array(xs: &Vec<JsonValue>, out: &mut Vec<char>)
    ensures
        final (out)@ == old(out)@.add(spec_render_items(json_models(xs@))),
    decreases xs@,
{
    let ghost ms = json_models(xs@);
    proof {
        lemma_json_models(xs@);
    }
    let n = xs.len();
    let mut i: usize = 0;
    while i < n
        invariant
            0 <= i <= n,
            n == xs@.len(),
            ms == json_models(xs@),
            ms.len() == n,
            forall|k: int| 0 <= k < n ==> #[trigger] ms[k] == json_model(xs@[k]),
            i == 0 ==> out@ == old(out)@,
            i > 0 ==> out@ == old(out)@.add(spec_json_text(ms[0])).add(
                spec_render_items_tail(ms.subrange(1, i as int)),
            ),
        decreases n - i,
    {
        if i > 0 {
            out.push(',');
        }
        render_json(&xs[i], out);
        proof {
            if i == 0 {
                assert(ms.subrange(1, 1) =~= Seq::<JsonModel>::empty());
                assert(out@ =~= old(out)@.add(spec_json_text(ms[0])).add(
                    spec_render_items_tail(ms.subrange(1, 1)),
                ));
            } else {
                lemma_render_items_tail_push(ms.subrange(1, i as int), ms[i as int]);
                assert(ms.subrange(1, i as int).push(ms[i as int]) =~= ms.subrange(1int, i + 1));
                assert(out@ =~= old(out)@.add(spec_json_text(ms[0])).add(
                    spec_render_items_tail(ms.subrange(1, i + 1)),
                ));
            }
        }
        i = i + 1;
    }
    proof {
        if n == 0 {
            assert(out@ =~= old(out)@.add(spec_render_items(ms)));
        } else {
            assert(ms.subrange(1, n as int) =~= ms.drop_first());
            assert(out@ =~= old(out)@.add(spec_render_items(ms)));
        }
    }
}

/// Writes an object's entries, comma separated.
fn render_object(es: &Vec<(String, JsonValue)>, out: &mut Vec<char>)
    ensures
        final (out)@ == old(out)@.add(spec_render_entries(json_entry_models(es@))),
    decreases es@,
{
    let ghost ms = json_entry_models(es@);
    proof {
        lemma_json_entry_models(es@);
    }
    let n = es.len();
    let mut i: usize = 0;
    while i < n
        invariant
            0 <= i <= n,
            n == es@.len(),
            ms == json_entry_models(es@),
            ms.len() == n,
            forall|k: int| 0 <= k < n ==> #[trigger] ms[k] == (es@[k].0@, json_model(es@[k].1)),
            i == 0 ==> out@ == old(out)@,
            i > 0 ==> out@ == old(out)@.add(spec_render_entry(ms[0])).add(
                spec_render_entries_tail(ms.subrange(1, i as int)),
            ),
        decreases n - i,
    {
        if i > 0 {
            out.push(',');
        }
        let entry = &es[i];
        out.push('"');
        escape_into(&entry.0, out);
        out.push('"');
        out.push(':');
        render_entry_value(entry, out);
        proof {
            assert(spec_render_entry(ms[i as int]) == seq!['"'].add(
                escape_chars(es@[i as int].0@),
            ).add(seq!['"', ':']).add(spec_json_text(json_model(es@[i as int].1))));
            if i == 0 {
                assert(ms.subrange(1, 1) =~= Seq::<(Seq<char>, JsonModel)>::empty());
                assert(out@ =~= old(out)@.add(spec_render_entry(ms[0])).add(
                    spec_render_entries_tail(ms.subrange(1, 1)),
                ));
            } else {
                lemma_render_entries_tail_push(ms.subrange(1, i as int), ms[i as int]);
                assert(ms.subrange(1, i as int).push(ms[i as int]) =~= ms.subrange(1, i + 1));
                assert(out@ =~= old(out)@.add(spec_render_entry(ms[0])).add(
                    spec_render_entries_tail(ms.subrange(1, i + 1)),
                ));
            }
        }
        i = i + 1;
    }
    proof {
        if n == 0 {
            assert(out@ =~= old(out)@.add(spec_render_entries(ms)));
        } else {
            assert(ms.subrange(1, n as int) =~= ms.drop_first());
            assert(out@ =~= old(out)@.add(spec_render_entries(ms)));
        }
    }
}

/// Writes the JSON text of one entry's value.
fn render_entry_value(entry: &(String, JsonValue), out: &mut Vec<char>)
    ensures
        final (out)@ == old(out)@.add(spec_json_text(json_model(entry.1))),
    decreases *entry,
{
    render_json(&entry.1, out)
}

/// Encodes a value as JSON text, with the given options.
pub fn to_json_with_options(value: &BencodexValue, options: JsonEncodeOptions) -> (r: String)
    requires
        value_wf(*value),
    ensures
        r@ == spec_json_text(spec_to_json(value_model(*value), options.binary_encoding)),
{
    let tree = value_to_json(value, options.binary_encoding);
    let mut out: Vec<char> = Vec::new();
    render_json(&tree, &mut out);
    proof {
        assert(out@ =~= spec_json_text(spec_to_json(value_model(*value), options.binary_encoding)));
    }
    chars_to_string(&out)
}

/// Encodes a value as JSON text with the default options: binary values
/// in base64.
pub fn to_json(value: &BencodexValue) -> (r: String)
    requires
        value_wf(*value),
    ensures
        r@ == spec_json_text(spec_to_json(value_model(*value), BinaryEncoding::Base64)),
{
    to_json_with_options(value, JsonEncodeOptions::default())
}

impl BencodexValue {
    /// A human-readable rendering of the value: its JSON form, with
    /// binary values written in hexadecimal.
    pub fn to_display_string(&self) -> (r: String)
        requires
            value_wf(*self),
        ensures
            r@ == spec_json_text(spec_to_json(value_model(*self), BinaryEncoding::Hex)),
    {
        to_json_with_options(self, JsonEncodeOptions { binary_encoding: BinaryEncoding::Hex })
    }
}

} // verus!
