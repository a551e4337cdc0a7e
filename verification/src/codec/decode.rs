//! The binary decoder: parses a byte buffer into a value, reporting how
//! many bytes were consumed and where the input breaks the grammar.
//!
//! Every decoding function is specified against the mathematical decoder
//! `spec_decode`, a total function over byte sequences that mirrors the
//! wire grammar exactly, including which error each malformed input gives.
//! Two inputs the grammar can never reach through the dispatch byte are
//! settled here by choice and documented on the functions: a negative
//! byte-string length and a duplicate dictionary key both fail with
//! [`DecodeError::InvalidBencodexValueError`].

use crate::ascii::{
    COLON, DIGIT_0, DIGIT_9, MINUS, TOK_DICT, TOK_END, TOK_FALSE, TOK_INT, TOK_LIST, TOK_NULL,
    TOK_TEXT, TOK_TRUE,
};
use crate::codec::dict::{spec_dict_contains, spec_dict_insert, dict_insert};
use crate::codec::number::{
    digits_value, is_digit_byte, lemma_digits_value_leading_zero, lemma_digits_value_nonneg,
    lemma_no_leading_zero_positive, BencodexNumber,
};
use crate::codec::types::{
    dict_entries_model, dict_model_sorted, lemma_list_models_push, list_models, value_model,
    value_wf, BencodexKey, BencodexValue, KeyModel, ValueModel,
};
use vstd::prelude::*;
use vstd::slice::{slice_subrange, slice_to_vec};
use vstd::utf8::{decode_utf8, valid_utf8};

verus! {

/// The mathematical model of a decode error.
pub enum DecodeErrorModel {
    /// Structurally invalid input: truncated, or malformed past repair.
    Invalid,
    /// A byte that breaks the grammar, and the offset where it sits.
    Unexpected { token: u8, point: int },
}

/// The error returned when decoding fails.
#[derive(Debug, PartialEq)]
pub enum DecodeError {
    /// The input is structurally invalid: a declared length overruns the
    /// buffer, a terminator is missing, the text is not UTF-8, a
    /// dictionary key is repeated or not a byte string or text.
    InvalidBencodexValueError,
    /// The byte `token` at offset `point` breaks the grammar.
    UnexpectedTokenError { token: u8, point: usize },
}

impl View for DecodeError {
    type V = DecodeErrorModel;

    open spec fn view(&self) -> DecodeErrorModel {
        match *self {
            DecodeError::InvalidBencodexValueError => DecodeErrorModel::Invalid,
            DecodeError::UnexpectedTokenError { token, point } => DecodeErrorModel::Unexpected {
                token,
                point: point as int,
            },
        }
    }
}

impl DecodeError {
    /// The name of the error's variant, for display purposes.
    pub fn to_string(&self) -> (r: String)
        ensures
            *self is InvalidBencodexValueError ==> r@ == "InvalidBencodexValueError"@,
            *self is UnexpectedTokenError ==> r@ == "UnexpectedTokenError"@,
    {
        match self {
            DecodeError::InvalidBencodexValueError => String::from_str(
                "InvalidBencodexValueError",
            ),
            DecodeError::UnexpectedTokenError { .. } => String::from_str("UnexpectedTokenError"),
        }
    }
}

/// How many consecutive ASCII digits stand in `s` from position `i` on.
pub open spec fn spec_digit_run_len(s: Seq<u8>, i: int) -> int
    decreases s.len() - i,
{
    if i < 0 || i >= s.len() || !is_digit_byte(s[i]) {
        0
    } else {
        1 + spec_digit_run_len(s, i + 1)
    }
}

/// The number at the head of `s`: an optional minus sign, then one or
/// more ASCII digits. Yields the signed value and how many bytes the
/// number occupies; `None` when no digit follows the optional sign.
pub open spec fn spec_read_number(s: Seq<u8>) -> Option<(int, int)> {
    if s.len() == 0 {
        None
    } else {
        let neg = s[0] == MINUS;
        let sign: int = if neg {
            1int
        } else {
            0int
        };
        let d = spec_digit_run_len(s, sign);
        if d == 0 {
            None
        } else {
            let size = sign + d;
            let magnitude = digits_value(s.subrange(sign, size));
            Some((if neg {
                -magnitude
            } else {
                magnitude
            }, size))
        }
    }
}

/// The mathematical decoder: reads one value at position `start` and
/// yields its model and the bytes consumed, or the error the input
/// deserves. It dispatches on the byte at the cursor.
pub open spec fn spec_decode(bytes: Seq<u8>, start: int) -> Result<
    (ValueModel, int),
    DecodeErrorModel,
>
    decreases bytes.len() - start, 2int,
{
    if start < 0 || start >= bytes.len() {
        Err(DecodeErrorModel::Invalid)
    } else {
        let b = bytes[start];
        if b == TOK_DICT {
            spec_decode_dict(bytes, start)
        } else if b == TOK_LIST {
            spec_decode_list(bytes, start)
        } else if b == TOK_TEXT {
            spec_decode_text(bytes, start)
        } else if b == TOK_INT {
            spec_decode_number(bytes, start)
        } else if is_digit_byte(b) {
            spec_decode_binary(bytes, start)
        } else if b == TOK_TRUE {
            Ok((ValueModel::Boolean(true), 1))
        } else if b == TOK_FALSE {
            Ok((ValueModel::Boolean(false), 1))
        } else if b == TOK_NULL {
            Ok((ValueModel::Null, 1))
        } else {
            Err(DecodeErrorModel::Unexpected { token: b, point: start })
        }
    }
}

/// The dictionary production: `'d'`, then key-value pairs until `'e'`.
pub open spec fn spec_decode_dict(bytes: Seq<u8>, start: int) -> Result<
    (ValueModel, int),
    DecodeErrorModel,
>
    decreases bytes.len() - start, 1int,
{
    if start < 0 || start >= bytes.len() {
        Err(DecodeErrorModel::Invalid)
    } else if bytes[start] != TOK_DICT {
        Err(DecodeErrorModel::Unexpected { token: bytes[start], point: start })
    } else {
        match spec_decode_entries(bytes, start + 1, Seq::empty()) {
            Err(e) => Err(e),
            Ok((es, end)) => Ok((ValueModel::Dictionary(es), end - start)),
        }
    }
}

/// The dictionary pair loop: decodes a key, narrows it to a byte string
/// or text, decodes its value, and inserts the pair in canonical key
/// order; a repeated key is invalid input.
pub open spec fn spec_decode_entries(
    bytes: Seq<u8>,
    i: int,
    acc: Seq<(KeyModel, ValueModel)>,
) -> Result<(Seq<(KeyModel, ValueModel)>, int), DecodeErrorModel>
    decreases bytes.len() - i, 3int,
{
    if i < 0 || i >= bytes.len() {
        Err(DecodeErrorModel::Invalid)
    } else if bytes[i] == TOK_END {
        Ok((acc, i + 1))
    } else {
        match spec_decode(bytes, i) {
            Err(e) => Err(e),
            Ok((kv, ksize)) => {
                let key = match kv {
                    ValueModel::Text(t) => Some(KeyModel::Text(t)),
                    ValueModel::Binary(b) => Some(KeyModel::Binary(b)),
                    _ => None,
                };
                if key is None {
                    Err(DecodeErrorModel::Invalid)
                } else if ksize < 1 || i + ksize > bytes.len() {
                    Err(DecodeErrorModel::Invalid)
                } else {
                    match spec_decode(bytes, i + ksize) {
                        Err(e) => Err(e),
                        Ok((v, vsize)) => {
                            if spec_dict_contains(acc, key.unwrap()) {
                                Err(DecodeErrorModel::Invalid)
                            } else if vsize < 1 || i + ksize + vsize > bytes.len() {
                                Err(DecodeErrorModel::Invalid)
                            } else {
                                spec_decode_entries(
                                    bytes,
                                    i + ksize + vsize,
                                    spec_dict_insert(acc, key.unwrap(), v),
                                )
                            }
                        },
                    }
                }
            },
        }
    }
}

/// The list production: `'l'`, then values until `'e'`.
pub open spec fn spec_decode_list(bytes: Seq<u8>, start: int) -> Result<
    (ValueModel, int),
    DecodeErrorModel,
>
    decreases bytes.len() - start, 1int,
{
    if start < 0 || start >= bytes.len() {
        Err(DecodeErrorModel::Invalid)
    } else if bytes[start] != TOK_LIST {
        Err(DecodeErrorModel::Unexpected { token: bytes[start], point: start })
    } else {
        match spec_decode_items(bytes, start + 1) {
            Err(e) => Err(e),
            Ok((xs, end)) => Ok((ValueModel::List(xs), end - start)),
        }
    }
}

/// The list element loop: decodes values until the terminator.
pub open spec fn spec_decode_items(bytes: Seq<u8>, i: int) -> Result<
    (Seq<ValueModel>, int),
    DecodeErrorModel,
>
    decreases bytes.len() - i, 3int,
{
    if i < 0 || i >= bytes.len() {
        Err(DecodeErrorModel::Invalid)
    } else if bytes[i] == TOK_END {
        Ok((Seq::empty(), i + 1))
    } else {
        match spec_decode(bytes, i) {
            Err(e) => Err(e),
            Ok((v, size)) => {
                if size < 1 || i + size > bytes.len() {
                    Err(DecodeErrorModel::Invalid)
                } else {
                    match spec_decode_items(bytes, i + size) {
                        Err(e) => Err(e),
                        Ok((rest, end)) => Ok((seq![v].add(rest), end)),
                    }
                }
            },
        }
    }
}

/// The byte-string production: a decimal length, `':'`, then that many
/// raw bytes. A negative or overlong length cannot be satisfied by any
/// buffer and is invalid input.
pub open spec fn spec_decode_binary(bytes: Seq<u8>, start: int) -> Result<
    (ValueModel, int),
    DecodeErrorModel,
>
    decreases bytes.len() - start, 1int,
{
    if start < 0 || start > bytes.len() {
        Err(DecodeErrorModel::Invalid)
    } else {
        match spec_read_number(bytes.subrange(start, bytes.len() as int)) {
            None => Err(DecodeErrorModel::Invalid),
            Some((length, size)) => {
                let i = start + size;
                if i >= bytes.len() {
                    Err(DecodeErrorModel::Invalid)
                } else if bytes[i] != COLON {
                    Err(DecodeErrorModel::Unexpected { token: bytes[i], point: i })
                } else if length < 0 {
                    Err(DecodeErrorModel::Invalid)
                } else if bytes.len() < i + 1 + length {
                    Err(DecodeErrorModel::Invalid)
                } else {
                    Ok(
                        (
                            ValueModel::Binary(bytes.subrange(i + 1, i + 1 + length)),
                            size + 1 + length,
                        ),
                    )
                }
            },
        }
    }
}

/// The text production: `'u'`, a decimal length, `':'`, then that many
/// UTF-8 bytes. A negative length is an unexpected token at the sign; a
/// byte payload that is not UTF-8 is invalid input.
pub open spec fn spec_decode_text(bytes: Seq<u8>, start: int) -> Result<
    (ValueModel, int),
    DecodeErrorModel,
>
    decreases bytes.len() - start, 1int,
{
    if start < 0 || start >= bytes.len() {
        Err(DecodeErrorModel::Invalid)
    } else if bytes[start] != TOK_TEXT {
        Err(DecodeErrorModel::Unexpected { token: bytes[start], point: start })
    } else if bytes.len() < start + 2 {
        Err(DecodeErrorModel::Invalid)
    } else {
        match spec_read_number(bytes.subrange(start + 1, bytes.len() as int)) {
            None => Err(DecodeErrorModel::Invalid),
            Some((length, size)) => {
                if length < 0 {
                    Err(
                        DecodeErrorModel::Unexpected {
                            token: bytes[start + 1],
                            point: start + 1,
                        },
                    )
                } else {
                    let i = start + 1 + size;
                    if i >= bytes.len() {
                        Err(DecodeErrorModel::Invalid)
                    } else if bytes[i] != COLON {
                        Err(DecodeErrorModel::Unexpected { token: bytes[i], point: i })
                    } else if bytes.len() < i + 1 + length {
                        Err(DecodeErrorModel::Invalid)
                    } else if !valid_utf8(bytes.subrange(i + 1, i + 1 + length)) {
                        Err(DecodeErrorModel::Invalid)
                    } else {
                        Ok(
                            (
                                ValueModel::Text(decode_utf8(bytes.subrange(i + 1, i + 1 + length))),
                                1 + size + 1 + length,
                            ),
                        )
                    }
                }
            },
        }
    }
}

/// The number production: `'i'`, an optional sign and decimal digits,
/// then `'e'`.
pub open spec fn spec_decode_number(bytes: Seq<u8>, start: int) -> Result<
    (ValueModel, int),
    DecodeErrorModel,
>
    decreases bytes.len() - start, 1int,
{
    if start < 0 || bytes.len() < start + 2 {
        Err(DecodeErrorModel::Invalid)
    } else {
        match spec_read_number(bytes.subrange(start + 1, bytes.len() as int)) {
            None => Err(
                DecodeErrorModel::Unexpected { token: bytes[start + 1], point: start + 1 },
            ),
            Some((value, size)) => {
                let i = start + 1 + size;
                if i >= bytes.len() {
                    Err(DecodeErrorModel::Invalid)
                } else if bytes[i] != TOK_END {
                    Err(DecodeErrorModel::Unexpected { token: bytes[i], point: i })
                } else {
                    Ok((ValueModel::Number(value), 1 + size + 1))
                }
            },
        }
    }
}

/// What the top-level decode returns: the first value in the buffer,
/// trailing bytes ignored.
pub open spec fn spec_top_decode(bytes: Seq<u8>) -> Result<ValueModel, DecodeErrorModel> {
    match spec_decode(bytes, 0) {
        Ok((v, _)) => Ok(v),
        Err(e) => Err(e),
    }
}

/// A digit run ends exactly at the first non-digit.
pub proof fn lemma_digit_run(s: Seq<u8>, i: int, j: int)
    requires
        0 <= i <= j <= s.len(),
        forall|k: int| i <= k < j ==> is_digit_byte(#[trigger] s[k]),
        j == s.len() || !is_digit_byte(s[j]),
    ensures
        spec_digit_run_len(s, i) == j - i,
    decreases j - i,
{
    if i < j {
        lemma_digit_run(s, i + 1, j);
    }
}

/// Every byte of a digit run is a digit, and the run fits in the buffer.
pub proof fn lemma_digit_run_bounds(s: Seq<u8>, i: int)
    requires
        0 <= i <= s.len(),
    ensures
        0 <= spec_digit_run_len(s, i),
        i + spec_digit_run_len(s, i) <= s.len(),
        forall|k: int| i <= k < i + spec_digit_run_len(s, i) ==> is_digit_byte(#[trigger] s[k]),
    decreases s.len() - i,
{
    if i < s.len() && is_digit_byte(s[i]) {
        lemma_digit_run_bounds(s, i + 1);
    }
}

/// Reads the number at the head of `s`: an optional minus sign, then one
/// or more ASCII digits. Yields the number in canonical form and how many
/// bytes it occupies; `None` when no digit follows the optional sign.
pub fn read_number(s: &[u8]) -> (r: Option<(BencodexNumber, usize)>)
    ensures
        r is Some <==> spec_read_number(s@) is Some,
        r matches Some(p) ==> spec_read_number(s@) matches Some(q) && p.0.wf() && p.0@ == q.0
            && p.1 as int == q.1 && 1 <= p.1 <= s@.len(),
{
    let n = s.len();
    if n == 0 {
        return None;
    }
    let negative = s[0] == MINUS;
    let sign_len: usize = if negative {
        1
    } else {
        0
    };
    let mut size: usize = sign_len;
    loop
        invariant
            sign_len <= size <= n,
            n == s@.len(),
            sign_len == 1 <==> s@[0] == MINUS,
            sign_len <= 1,
            forall|k: int| sign_len <= k < size ==> is_digit_byte(#[trigger] s@[k]),
        ensures
            sign_len <= size <= n,
            forall|k: int| sign_len <= k < size ==> is_digit_byte(#[trigger] s@[k]),
            size == n || !is_digit_byte(s@[size as int]),
        decreases n - size,
    {
        if size >= n {
            break ;
        }
        let b = s[size];
        if b < DIGIT_0 || b > DIGIT_9 {
            break ;
        }
        size = size + 1;
    }
    proof {
        lemma_digit_run(s@, sign_len as int, size as int);
    }
    if size == sign_len {
        return None;
    }
    // Strip leading zeros down to the canonical form; keep one digit.
    let mut d0: usize = sign_len;
    loop
        invariant
            sign_len <= d0 < size <= n,
            n == s@.len(),
            forall|k: int| sign_len <= k < size ==> is_digit_byte(#[trigger] s@[k]),
            digits_value(s@.subrange(sign_len as int, size as int)) == digits_value(
                s@.subrange(d0 as int, size as int),
            ),
        ensures
            sign_len <= d0 < size,
            digits_value(s@.subrange(sign_len as int, size as int)) == digits_value(
                s@.subrange(d0 as int, size as int),
            ),
            d0 + 1 == size || s@[d0 as int] != DIGIT_0,
        decreases size - d0,
    {
        if d0 + 1 >= size {
            break ;
        }
        let b = s[d0];
        if b != DIGIT_0 {
            break ;
        }
        proof {
            let cur = s@.subrange(d0 as int, size as int);
            lemma_digits_value_leading_zero(cur);
            assert(cur.subrange(1, cur.len() as int) =~= s@.subrange(d0 + 1, size as int));
        }
        d0 = d0 + 1;
    }
    let digits = slice_to_vec(slice_subrange(s, d0, size));
    proof {
        assert(digits@ == s@.subrange(d0 as int, size as int));
        assert forall|k: int| 0 <= k < digits@.len() implies is_digit_byte(
            #[trigger] digits@[k],
        ) by {
            assert(digits@[k] == s@[d0 + k]);
        }
    }
    let is_zero = digits.len() == 1 && digits[0] == DIGIT_0;
    let neg_final = negative && !is_zero;
    let number = BencodexNumber { negative: neg_final, digits };
    proof {
        let whole = s@.subrange(sign_len as int, size as int);
        lemma_digits_value_nonneg(number.digits@);
        if is_zero {
            assert(number.digits@ =~= seq![DIGIT_0]);
            assert(number.digits@.drop_last() =~= Seq::<u8>::empty());
            assert(digits_value(Seq::<u8>::empty()) == 0);
            assert(number.digits@.last() == DIGIT_0);
            assert(digits_value(number.digits@) == 0);
        } else {
            if number.digits@.len() == 1 {
                assert(number.digits@[0] != DIGIT_0);
            }
            lemma_no_leading_zero_positive(number.digits@);
        }
        assert(number.wf());
        assert(spec_read_number(s@) is Some);
    }
    Some((number, size))
}

/// The models of an executable decode result: the value's model and the
/// consumed count, or the error's model.
pub open spec fn decode_result_models(r: Result<(BencodexValue, usize), DecodeError>) -> Result<
    (ValueModel, int),
    DecodeErrorModel,
> {
    match r {
        Ok(p) => Ok((value_model(p.0), p.1 as int)),
        Err(e) => Err(e@),
    }
}

/// Decodes one value at offset `start`, dispatching on the byte there.
pub fn decode_impl(vector: &[u8], start: usize) -> (r: Result<(BencodexValue, usize), DecodeError>)
    ensures
        decode_result_models(r) == spec_decode(vector@, start as int),
        r matches Ok(p) ==> value_wf(p.0) && 1 <= p.1 && start + p.1 <= vector@.len(),
    decreases vector@.len() - start, 2int,
{
    if start >= vector.len() {
        return Err(DecodeError::InvalidBencodexValueError);
    }
    let b = vector[start];
    if b == TOK_DICT {
        decode_dict_impl(vector, start)
    } else if b == TOK_LIST {
        decode_list_impl(vector, start)
    } else if b == TOK_TEXT {
        decode_unicode_string_impl(vector, start)
    } else if b == TOK_INT {
        decode_number_impl(vector, start)
    } else if DIGIT_0 <= b && b <= DIGIT_9 {
        decode_byte_string_impl(vector, start)
    } else if b == TOK_TRUE {
        Ok((BencodexValue::Boolean(true), 1))
    } else if b == TOK_FALSE {
        Ok((BencodexValue::Boolean(false), 1))
    } else if b == TOK_NULL {
        Ok((BencodexValue::Null, 1))
    } else {
        Err(DecodeError::UnexpectedTokenError { token: b, point: start })
    }
}

/// Decodes the byte-string production: a decimal length, `':'`, then that
/// many raw bytes. A negative or overlong declared length can be met by
/// no buffer and is invalid input.
pub fn decode_byte_string_impl(vector: &[u8], start: usize) -> (r: Result<
    (BencodexValue, usize),
    DecodeError,
>)
    ensures
        decode_result_models(r) == spec_decode_binary(vector@, start as int),
        r matches Ok(p) ==> value_wf(p.0) && 1 <= p.1 && start + p.1 <= vector@.len(),
    decreases vector@.len() - start, 1int,
{
    let n = vector.len();
    if start > n {
        return Err(DecodeError::InvalidBencodexValueError);
    }
    let tail = slice_subrange(vector, start, n);
    match read_number(tail) {
        None => Err(DecodeError::InvalidBencodexValueError),
        Some((num, size)) => {
            proof {
                lemma_digits_value_nonneg(num.digits@);
            }
            let index = start + size;
            if index >= n {
                return Err(DecodeError::InvalidBencodexValueError);
            }
            let c = vector[index];
            if c != COLON {
                return Err(DecodeError::UnexpectedTokenError { token: c, point: index });
            }
            if num.negative {
                return Err(DecodeError::InvalidBencodexValueError);
            }
            match num.magnitude_to_usize() {
                None => Err(DecodeError::InvalidBencodexValueError),
                Some(length) => {
                    if length > n - index - 1 {
                        return Err(DecodeError::InvalidBencodexValueError);
                    }
                    let payload = slice_to_vec(
                        slice_subrange(vector, index + 1, index + 1 + length),
                    );
                    Ok((BencodexValue::Binary(payload), size + 1 + length))
                },
            }
        },
    }
}

/// Decodes the text production: `'u'`, a decimal length, `':'`, then that
/// many UTF-8 bytes. A negative length is an unexpected token at its sign.
pub fn decode_unicode_string_impl(vector: &[u8], start: usize) -> (r: Result<
    (BencodexValue, usize),
    DecodeError,
>)
    ensures
        decode_result_models(r) == spec_decode_text(vector@, start as int),
        r matches Ok(p) ==> value_wf(p.0) && 1 <= p.1 && start + p.1 <= vector@.len(),
    decreases vector@.len() - start, 1int,
{
    let n = vector.len();
    if start >= n {
        return Err(DecodeError::InvalidBencodexValueError);
    }
    let b0 = vector[start];
    if b0 != TOK_TEXT {
        return Err(DecodeError::UnexpectedTokenError { token: b0, point: start });
    }
    if n - start < 2 {
        return Err(DecodeError::InvalidBencodexValueError);
    }
    let tail = slice_subrange(vector, start + 1, n);
    match read_number(tail) {
        None => Err(DecodeError::InvalidBencodexValueError),
        Some((num, size)) => {
            proof {
                lemma_digits_value_nonneg(num.digits@);
            }
            if num.negative {
                return Err(
                    DecodeError::UnexpectedTokenError {
                        token: vector[start + 1],
                        point: start + 1,
                    },
                );
            }
            let index = start + 1 + size;
            if index >= n {
                return Err(DecodeError::InvalidBencodexValueError);
            }
            let c = vector[index];
            if c != COLON {
                return Err(DecodeError::UnexpectedTokenError { token: c, point: index });
            }
            match num.magnitude_to_usize() {
                None => Err(DecodeError::InvalidBencodexValueError),
                Some(length) => {
                    if length > n - index - 1 {
                        return Err(DecodeError::InvalidBencodexValueError);
                    }
                    let payload = slice_to_vec(
                        slice_subrange(vector, index + 1, index + 1 + length),
                    );
                    match crate::strings::string_from_utf8(payload) {
                        None => Err(DecodeError::InvalidBencodexValueError),
                        Some(text) => Ok((BencodexValue::Text(text), 1 + size + 1 + length)),
                    }
                },
            }
        },
    }
}

/// Decodes the number production: `'i'`, an optional sign and decimal
/// digits, then `'e'`.
pub fn decode_number_impl(vector: &[u8], start: usize) -> (r: Result<
    (BencodexValue, usize),
    DecodeError,
>)
    ensures
        decode_result_models(r) == spec_decode_number(vector@, start as int),
        r matches Ok(p) ==> value_wf(p.0) && 1 <= p.1 && start + p.1 <= vector@.len(),
    decreases vector@.len() - start, 1int,
{
    let n = vector.len();
    if start >= n || n - start < 2 {
        return Err(DecodeError::InvalidBencodexValueError);
    }
    let tail = slice_subrange(vector, start + 1, n);
    match read_number(tail) {
        None => Err(
            DecodeError::UnexpectedTokenError { token: vector[start + 1], point: start + 1 },
        ),
        Some((num, size)) => {
            let index = start + 1 + size;
            if index >= n {
                return Err(DecodeError::InvalidBencodexValueError);
            }
            let c = vector[index];
            if c != TOK_END {
                return Err(DecodeError::UnexpectedTokenError { token: c, point: index });
            }
            Ok((BencodexValue::Number(num), 1 + size + 1))
        },
    }
}

/// Decodes the list production: `'l'`, then values until `'e'`.
pub fn decode_list_impl(vector: &[u8], start: usize) -> (r: Result<
    (BencodexValue, usize),
    DecodeError,
>)
    ensures
        decode_result_models(r) == spec_decode_list(vector@, start as int),
        r matches Ok(p) ==> value_wf(p.0) && 1 <= p.1 && start + p.1 <= vector@.len(),
    decreases vector@.len() - start, 1int,
{
    let n = vector.len();
    if start >= n {
        return Err(DecodeError::InvalidBencodexValueError);
    }
    let b0 = vector[start];
    if b0 != TOK_LIST {
        return Err(DecodeError::UnexpectedTokenError { token: b0, point: start });
    }
    let mut list: Vec<BencodexValue> = Vec::new();
    let mut index = start + 1;
    proof {
        assert(list_models(list@) =~= Seq::<ValueModel>::empty());
    }
    loop
        invariant
            start + 1 <= index <= n,
            n == vector@.len(),
            start < n,
            vector@[start as int] == TOK_LIST,
            forall|k: int| #![trigger list@[k]] 0 <= k < list@.len() ==> value_wf(list@[k]),
            spec_decode_items(vector@, (start + 1) as int) == (match spec_decode_items(
                vector@,
                index as int,
            ) {
                Ok(p) => Ok::<(Seq<ValueModel>, int), DecodeErrorModel>(
                    (list_models(list@).add(p.0), p.1),
                ),
                Err(e) => Err(e),
            }),
        ensures
            start + 1 <= index < n,
            n == vector@.len(),
            vector@[index as int] == TOK_END,
            forall|k: int| #![trigger list@[k]] 0 <= k < list@.len() ==> value_wf(list@[k]),
            spec_decode_items(vector@, (start + 1) as int) == Ok::<
                (Seq<ValueModel>, int),
                DecodeErrorModel,
            >((list_models(list@), index + 1)),
        decreases n - index,
    {
        if index >= n {
            return Err(DecodeError::InvalidBencodexValueError);
        }
        let b = vector[index];
        if b == TOK_END {
            proof {
                assert(list_models(list@).add(Seq::<ValueModel>::empty()) =~= list_models(list@));
            }
            break ;
        }
        match decode_impl(vector, index) {
            Err(e) => {
                return Err(e);
            },
            Ok((value, size)) => {
                proof {
                    let ghost rest = spec_decode_items(vector@, index + size);
                    lemma_list_models_push(list@, value);
                    match rest {
                        Ok(p) => {
                            assert(list_models(list@).add(
                                seq![value_model(value)].add(p.0),
                            ) =~= list_models(list@).push(value_model(value)).add(p.0));
                        },
                        Err(_) => {},
                    }
                }
                list.push(value);
                index = index + size;
            },
        }
    }
    Ok((BencodexValue::List(list), index + 1 - start))
}

/// Decodes the dictionary production: `'d'`, then key-value pairs until
/// `'e'`. A key must decode to a byte string or a text, and a repeated
/// key is invalid input.
pub fn decode_dict_impl(vector: &[u8], start: usize) -> (r: Result<
    (BencodexValue, usize),
    DecodeError,
>)
    ensures
        decode_result_models(r) == spec_decode_dict(vector@, start as int),
        r matches Ok(p) ==> value_wf(p.0) && 1 <= p.1 && start + p.1 <= vector@.len(),
    decreases vector@.len() - start, 1int,
{
    let n = vector.len();
    if start >= n {
        return Err(DecodeError::InvalidBencodexValueError);
    }
    let b0 = vector[start];
    if b0 != TOK_DICT {
        return Err(DecodeError::UnexpectedTokenError { token: b0, point: start });
    }
    let mut dict: Vec<(BencodexKey, BencodexValue)> = Vec::new();
    let mut index = start + 1;
    proof {
        assert(dict_entries_model(dict@) =~= Seq::<(KeyModel, ValueModel)>::empty());
    }
    loop
        invariant
            start + 1 <= index <= n,
            n == vector@.len(),
            start < n,
            vector@[start as int] == TOK_DICT,
            dict_model_sorted(dict_entries_model(dict@)),
            forall|k: int| #![trigger dict@[k]] 0 <= k < dict@.len() ==> value_wf(dict@[k].1),
            spec_decode_entries(vector@, (start + 1) as int, Seq::empty()) == spec_decode_entries(
                vector@,
                index as int,
                dict_entries_model(dict@),
            ),
        ensures
            start + 1 <= index < n,
            n == vector@.len(),
            vector@[index as int] == TOK_END,
            dict_model_sorted(dict_entries_model(dict@)),
            forall|k: int| #![trigger dict@[k]] 0 <= k < dict@.len() ==> value_wf(dict@[k].1),
            spec_decode_entries(vector@, (start + 1) as int, Seq::empty()) == Ok::<
                (Seq<(KeyModel, ValueModel)>, int),
                DecodeErrorModel,
            >((dict_entries_model(dict@), index + 1)),
        decreases n - index,
    {
        if index >= n {
            return Err(DecodeError::InvalidBencodexValueError);
        }
        let b = vector[index];
        if b == TOK_END {
            break ;
        }
        match decode_impl(vector, index) {
            Err(e) => {
                return Err(e);
            },
            Ok((kvalue, ksize)) => {
                let key: BencodexKey = match kvalue {
                    BencodexValue::Text(t) => BencodexKey::Text(t),
                    BencodexValue::Binary(bs) => BencodexKey::Binary(bs),
                    _ => {
                        return Err(DecodeError::InvalidBencodexValueError);
                    },
                };
                let kindex = index + ksize;
                match decode_impl(vector, kindex) {
                    Err(e) => {
                        return Err(e);
                    },
                    Ok((value, vsize)) => {
                        let ghost acc_old = dict_entries_model(dict@);
                        let replaced = dict_insert(&mut dict, key, value);
                        match replaced {
                            Some(_) => {
                                return Err(DecodeError::InvalidBencodexValueError);
                            },
                            None => {},
                        }
                        index = kindex + vsize;
                    },
                }
            },
        }
    }
    Ok((BencodexValue::Dictionary(dict), index + 1 - start))
}

/// `Decode` parses a Bencodex value out of a byte buffer.
pub trait Decode {
    /// The bytes this decoder reads.
    spec fn source(&self) -> Seq<u8>;

    /// Decodes the value at the head of the buffer; bytes after the first
    /// complete value are ignored.
    fn decode(self) -> (r: Result<BencodexValue, DecodeError>) where Self: Sized
        ensures
            spec_top_decode(self.source()) matches Ok(m) ==> r matches Ok(v) && value_model(v) == m
                && value_wf(v),
            spec_top_decode(self.source()) matches Err(e) ==> r matches Err(x) && x@ == e,
    ;
}

impl Decode for Vec<u8> {
    open spec fn source(&self) -> Seq<u8> {
        self@
    }

    fn decode(self) -> (r: Result<BencodexValue, DecodeError>) {
        match decode_impl(self.as_slice(), 0) {
            Ok(p) => Ok(p.0),
            Err(e) => Err(e),
        }
    }
}

/// Checks one byte of input against the byte the grammar demands.
pub trait Expect {
    /// The input byte this value stands for.
    spec fn token(&self) -> u8;

    /// `Ok` exactly when this byte is the expected one; otherwise the
    /// unexpected-token error carrying this byte and the given offset.
    fn expect(self, expected: u8, point: usize) -> (r: Result<(), DecodeError>) where Self: Sized
        ensures
            r is Ok <==> self.token() == expected,
            r matches Err(e) ==> e == (DecodeError::UnexpectedTokenError {
                token: self.token(),
                point,
            }),
    ;
}

impl Expect for u8 {
    open spec fn token(&self) -> u8 {
        *self
    }

    fn expect(self, expected: u8, point: usize) -> (r: Result<(), DecodeError>) {
        if self != expected {
            Err(DecodeError::UnexpectedTokenError { token: self, point })
        } else {
            Ok(())
        }
    }
}

} // verus!
