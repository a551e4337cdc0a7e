//! The binary encoder: writes the canonical byte form of a value to an
//! output sink. The canonical form is the spec function `spec_encoded`;
//! every writer below is proved to emit exactly those bytes when the sink
//! accepts every write.

use crate::ascii::{COLON, MINUS, TOK_DICT, TOK_END, TOK_FALSE, TOK_INT, TOK_LIST, TOK_NULL,
    TOK_TEXT, TOK_TRUE};
use crate::codec::number::{
    dec_digits, lemma_canonical_digits_unique, lemma_digits_value_nonneg, BencodexNumber,
};
use crate::codec::types::{
    dict_entries_model, key_model, lemma_dict_entries_model, lemma_list_models, list_models,
    value_model, value_wf, BencodexKey, BencodexValue, KeyModel, ValueModel,
};
use vstd::prelude::*;
use vstd::utf8::encode_utf8;

verus! {

#[verifier::external_type_specification]
#[verifier::external_body]
pub struct ExIoError(std::io::Error);

/// The canonical bytes of an integer: an optional minus sign, then the
/// decimal digits of the magnitude without leading zeros.
pub open spec fn spec_encoded_int(n: int) -> Seq<u8> {
    if n < 0 {
        seq![MINUS].add(dec_digits((-n) as nat))
    } else {
        dec_digits(n as nat)
    }
}

/// The canonical bytes of a dictionary key: `<len>:<bytes>` for a binary
/// key, `u<len>:<utf-8 bytes>` for a text key.
pub open spec fn spec_encoded_key(k: KeyModel) -> Seq<u8> {
    match k {
        KeyModel::Binary(b) => dec_digits(b.len()).add(seq![COLON]).add(b),
        KeyModel::Text(t) => seq![TOK_TEXT].add(dec_digits(encode_utf8(t).len())).add(
            seq![COLON],
        ).add(encode_utf8(t)),
    }
}

/// The canonical encoding of a value.
pub open spec fn spec_encoded(m: ValueModel) -> Seq<u8>
    decreases m,
{
    match m {
        ValueModel::Binary(b) => spec_encoded_key(KeyModel::Binary(b)),
        ValueModel::Text(t) => spec_encoded_key(KeyModel::Text(t)),
        ValueModel::Boolean(b) => seq![if b { TOK_TRUE } else { TOK_FALSE }],
        ValueModel::Number(n) => seq![TOK_INT].add(spec_encoded_int(n)).add(seq![TOK_END]),
        ValueModel::List(xs) => seq![TOK_LIST].add(spec_encoded_items(xs)).add(seq![TOK_END]),
        ValueModel::Dictionary(es) => seq![TOK_DICT].add(spec_encoded_entries(es)).add(
            seq![TOK_END],
        ),
        ValueModel::Null => seq![TOK_NULL],
    }
}

/// The concatenated encodings of a list's elements.
pub open spec fn spec_encoded_items(xs: Seq<ValueModel>) -> Seq<u8>
    decreases xs,
{
    if xs.len() == 0 {
        Seq::empty()
    } else {
        spec_encoded(xs[0]).add(spec_encoded_items(xs.drop_first()))
    }
}

/// The concatenated encodings of a dictionary's entries, each as the
/// encoded key followed by the encoded value.
pub open spec fn spec_encoded_entries(es: Seq<(KeyModel, ValueModel)>) -> Seq<u8>
    decreases es,
{
    if es.len() == 0 {
        Seq::empty()
    } else {
        spec_encoded_key(es[0].0).add(spec_encoded(es[0].1)).add(
            spec_encoded_entries(es.drop_first()),
        )
    }
}

/// Appending an element appends its encoding.
pub proof fn lemma_encoded_items_push(xs: Seq<ValueModel>, x: ValueModel)
    ensures
        spec_encoded_items(xs.push(x)) == spec_encoded_items(xs).add(spec_encoded(x)),
    decreases xs,
{
    if xs.len() == 0 {
        assert(xs.push(x).drop_first() =~= Seq::<ValueModel>::empty());
        assert(xs.push(x)[0] == x);
        assert(spec_encoded_items(Seq::<ValueModel>::empty()) == Seq::<u8>::empty());
        assert(spec_encoded_items(xs) == Seq::<u8>::empty());
        assert(spec_encoded_items(xs.push(x)) == spec_encoded(x).add(Seq::<u8>::empty()));
        assert(spec_encoded_items(xs.push(x)) =~= spec_encoded_items(xs).add(spec_encoded(x)));
    } else {
        assert(xs.push(x).drop_first() =~= xs.drop_first().push(x));
        assert(xs.push(x)[0] == xs[0]);
        lemma_encoded_items_push(xs.drop_first(), x);
        assert(spec_encoded_items(xs.push(x)) =~= spec_encoded_items(xs).add(spec_encoded(x)));
    }
}

/// Appending an entry appends its encoding.
pub proof fn lemma_encoded_entries_push(es: Seq<(KeyModel, ValueModel)>, e: (KeyModel, ValueModel))
    ensures
        spec_encoded_entries(es.push(e)) == spec_encoded_entries(es).add(
            spec_encoded_key(e.0),
        ).add(spec_encoded(e.1)),
    decreases es,
{
    if es.len() == 0 {
        assert(es.push(e).drop_first() =~= Seq::<(KeyModel, ValueModel)>::empty());
        assert(es.push(e)[0] == e);
        assert(spec_encoded_entries(Seq::<(KeyModel, ValueModel)>::empty()) == Seq::<u8>::empty());
        assert(spec_encoded_entries(es) == Seq::<u8>::empty());
        assert(spec_encoded_entries(es.push(e)) == spec_encoded_key(e.0).add(spec_encoded(e.1)).add(
            Seq::<u8>::empty(),
        ));
        assert(spec_encoded_entries(es.push(e)) =~= spec_encoded_entries(es).add(
            spec_encoded_key(e.0),
        ).add(spec_encoded(e.1)));
    } else {
        assert(es.push(e).drop_first() =~= es.drop_first().push(e));
        assert(es.push(e)[0] == es[0]);
        lemma_encoded_entries_push(es.drop_first(), e);
        assert(spec_encoded_entries(es.push(e)) =~= spec_encoded_entries(es).add(
            spec_encoded_key(e.0),
        ).add(spec_encoded(e.1)));
    }
}

/// An output sink for the encoder. The encoder hands the sink each piece
/// of the encoding in wire order; `out` is the sequence of bytes the sink
/// has accepted so far. A failing sink aborts the remaining writes, and
/// partial output is acceptable: nothing is promised after a failure.
pub trait Sink {
    /// The bytes accepted so far.
    spec fn out(&self) -> Seq<u8>;

    /// Whether this sink can refuse a write at all. A sink that cannot
    /// fail never returns an error, so encoding into it always succeeds;
    /// writes never change which kind of sink this is.
    spec fn may_fail(&self) -> bool;

    /// Appends `bytes` to the output, or reports the sink's own failure.
    fn write_bytes(&mut self, bytes: &[u8]) -> (r: Result<(), std::io::Error>)
        ensures
            r is Ok ==> final (self).out() == old(self).out().add(bytes@),
            r is Err ==> old(self).may_fail(),
            final (self).may_fail() == old(self).may_fail(),
    ;
}

impl Sink for Vec<u8> {
    /// A byte vector accepts every write and accumulates the bytes.
    open spec fn out(&self) -> Seq<u8> {
        self@
    }

    /// A byte vector never refuses a write.
    open spec fn may_fail(&self) -> bool {
        false
    }

    fn write_bytes(&mut self, bytes: &[u8]) -> (r: Result<(), std::io::Error>)
        ensures
            r is Ok,
            final (self).out() == old(self).out().add(bytes@),
    {
        self.extend_from_slice(bytes);
        Ok(())
    }
}

/// The decimal digits of a length.
fn len_digits(n: usize) -> (r: Vec<u8>)
    ensures
        r@ == dec_digits(n as nat),
{
    let num = BencodexNumber::from_u64(n as u64);
    proof {
        lemma_canonical_digits_unique(num.digits@);
        lemma_digits_value_nonneg(num.digits@);
    }
    num.digits
}

/// Writes one byte to the sink, as one write call.
fn sink_byte<W: Sink>(writer: &mut W, b: u8) -> (r: Result<(), std::io::Error>)
    ensures
        r is Ok ==> final (writer).out() == old(writer).out().push(b),
        r is Err ==> old(writer).may_fail(),
        final (writer).may_fail() == old(writer).may_fail(),
{
    let mut buf: Vec<u8> = Vec::new();
    buf.push(b);
    proof {
        assert(buf@ =~= seq![b]);
    }
    let r = writer.write_bytes(buf.as_slice());
    proof {
        if r is Ok {
            assert(writer.out() =~= old(writer).out().push(b));
        }
    }
    r
}

/// Writes `i<sign><digits>e`: three write calls, the middle one carrying
/// the sign and the digits together.
fn sink_number<W: Sink>(n: &BencodexNumber, writer: &mut W) -> (r: Result<(), std::io::Error>)
    requires
        n.wf(),
    ensures
        r is Ok ==> final (writer).out() == old(writer).out().add(seq![TOK_INT]).add(
            spec_encoded_int(n@),
        ).add(seq![TOK_END]),
        r is Err ==> old(writer).may_fail(),
        final (writer).may_fail() == old(writer).may_fail(),
{
    let mut body: Vec<u8> = Vec::new();
    if n.negative {
        body.push(MINUS);
    }
    body.extend_from_slice(n.digits.as_slice());
    proof {
        lemma_canonical_digits_unique(n.digits@);
        lemma_digits_value_nonneg(n.digits@);
        if n.negative {
            assert(body@ =~= seq![MINUS].add(n.digits@));
        } else {
            assert(body@ =~= n.digits@);
        }
        assert(body@ == spec_encoded_int(n@));
    }
    sink_byte(writer, TOK_INT)?;
    writer.write_bytes(body.as_slice())?;
    sink_byte(writer, TOK_END)?;
    proof {
        assert(writer.out() =~= old(writer).out().add(seq![TOK_INT]).add(
            spec_encoded_int(n@),
        ).add(seq![TOK_END]));
    }
    Ok(())
}

/// The canonical bytes of a dictionary key, as a fresh vector.
pub fn encode_key(key: &BencodexKey) -> (r: Vec<u8>)
    ensures
        r@ == spec_encoded_key(key@),
{
    let mut buf: Vec<u8> = Vec::new();
    match key {
        BencodexKey::Binary(b) => {
            let digits = len_digits(b.len());
            buf.extend_from_slice(digits.as_slice());
            buf.push(COLON);
            buf.extend_from_slice(b.as_slice());
            proof {
                assert(buf@ =~= spec_encoded_key(key@));
            }
        },
        BencodexKey::Text(t) => {
            let bytes = t.as_str().as_bytes();
            let digits = len_digits(bytes.len());
            buf.push(TOK_TEXT);
            buf.extend_from_slice(digits.as_slice());
            buf.push(COLON);
            buf.extend_from_slice(bytes);
            proof {
                assert(buf@ =~= spec_encoded_key(key@));
            }
        },
    }
    buf
}

/// Writes the canonical bytes of a key to the sink: three write calls for
/// a binary key, four for a text key.
fn encode_key_sink<W: Sink>(key: &BencodexKey, writer: &mut W) -> (r: Result<
    (),
    std::io::Error,
>)
    ensures
        r is Ok ==> final (writer).out() == old(writer).out().add(spec_encoded_key(key@)),
        r is Err ==> old(writer).may_fail(),
        final (writer).may_fail() == old(writer).may_fail(),
{
    match key {
        BencodexKey::Binary(b) => {
            let digits = len_digits(b.len());
            writer.write_bytes(digits.as_slice())?;
            sink_byte(writer, COLON)?;
            writer.write_bytes(b.as_slice())?;
            proof {
                assert(writer.out() =~= old(writer).out().add(spec_encoded_key(key@)));
            }
        },
        BencodexKey::Text(t) => {
            let bytes = t.as_str().as_bytes();
            let digits = len_digits(bytes.len());
            sink_byte(writer, TOK_TEXT)?;
            writer.write_bytes(digits.as_slice())?;
            sink_byte(writer, COLON)?;
            writer.write_bytes(bytes)?;
            proof {
                assert(writer.out() =~= old(writer).out().add(spec_encoded_key(key@)));
            }
        },
    }
    Ok(())
}

/// Writes the canonical encoding of a value to the sink. A sink failure
/// aborts the remaining writes and is returned as it came.
pub fn encode_value<W: Sink>(value: &BencodexValue, writer: &mut W) -> (r: Result<
    (),
    std::io::Error,
>)
    requires
        value_wf(*value),
    ensures
        r is Ok ==> final (writer).out() == old(writer).out().add(spec_encoded(value@)),
        r is Err ==> old(writer).may_fail(),
        final (writer).may_fail() == old(writer).may_fail(),
    decreases *value,
{
    match value {
        BencodexValue::Binary(b) => {
            let digits = len_digits(b.len());
            writer.write_bytes(digits.as_slice())?;
            sink_byte(writer, COLON)?;
            writer.write_bytes(b.as_slice())?;
            proof {
                assert(writer.out() =~= old(writer).out().add(spec_encoded(value@)));
            }
        },
        BencodexValue::Text(t) => {
            let bytes = t.as_str().as_bytes();
            let digits = len_digits(bytes.len());
            sink_byte(writer, TOK_TEXT)?;
            writer.write_bytes(digits.as_slice())?;
            sink_byte(writer, COLON)?;
            writer.write_bytes(bytes)?;
            proof {
                assert(writer.out() =~= old(writer).out().add(spec_encoded(value@)));
            }
        },
        BencodexValue::Boolean(b) => {
            sink_byte(writer, if *b {
                TOK_TRUE
            } else {
                TOK_FALSE
            })?;
            proof {
                assert(writer.out() =~= old(writer).out().add(spec_encoded(value@)));
            }
        },
        BencodexValue::Number(n) => {
            sink_number(n, writer)?;
            proof {
                assert(writer.out() =~= old(writer).out().add(spec_encoded(value@)));
            }
        },
        BencodexValue::List(xs) => {
            sink_byte(writer, TOK_LIST)?;
            encode_values(xs, writer)?;
            sink_byte(writer, TOK_END)?;
            proof {
                assert(writer.out() =~= old(writer).out().add(spec_encoded(value@)));
            }
        },
        BencodexValue::Dictionary(es) => {
            sink_byte(writer, TOK_DICT)?;
            encode_entries(es, writer)?;
            sink_byte(writer, TOK_END)?;
            proof {
                assert(writer.out() =~= old(writer).out().add(spec_encoded(value@)));
            }
        },
        BencodexValue::Null => {
            sink_byte(writer, TOK_NULL)?;
            proof {
                assert(writer.out() =~= old(writer).out().add(spec_encoded(value@)));
            }
        },
    }
    Ok(())
}

/// Writes the encodings of a list's elements, in order.
fn encode_values<W: Sink>(xs: &Vec<BencodexValue>, writer: &mut W) -> (r: Result<
    (),
    std::io::Error,
>)
    requires
        forall|k: int| #![trigger xs@[k]] 0 <= k < xs@.len() ==> value_wf(xs@[k]),
    ensures
        r is Ok ==> final (writer).out() == old(writer).out().add(
            spec_encoded_items(list_models(xs@)),
        ),
        r is Err ==> old(writer).may_fail(),
        final (writer).may_fail() == old(writer).may_fail(),
    decreases xs@,
{
    let ghost ms = list_models(xs@);
    proof {
        lemma_list_models(xs@);
        assert(ms.subrange(0, 0) =~= Seq::<ValueModel>::empty());
    }
    let n = xs.len();
    let mut i: usize = 0;
    while i < n
        invariant
            0 <= i <= n,
            n == xs@.len(),
            ms == list_models(xs@),
            ms.len() == n,
            forall|k: int| 0 <= k < n ==> #[trigger] ms[k] == value_model(xs@[k]),
            forall|k: int| #![trigger xs@[k]] 0 <= k < n ==> value_wf(xs@[k]),
            writer.out() == old(writer).out().add(spec_encoded_items(ms.subrange(0, i as int))),
            writer.may_fail() == old(writer).may_fail(),
        decreases n - i,
    {
        encode_value(&xs[i], writer)?;
        proof {
            lemma_encoded_items_push(ms.subrange(0, i as int), ms[i as int]);
            assert(ms.subrange(0, i as int).push(ms[i as int]) =~= ms.subrange(0, i + 1));
        }
        i = i + 1;
    }
    proof {
        assert(ms.subrange(0, n as int) =~= ms);
    }
    Ok(())
}

/// Writes the encodings of a dictionary's entries, in storage order, which
/// is the canonical key order.
fn encode_entries<W: Sink>(es: &Vec<(BencodexKey, BencodexValue)>, writer: &mut W) -> (r: Result<
    (),
    std::io::Error,
>)
    requires
        forall|k: int| #![trigger es@[k]] 0 <= k < es@.len() ==> value_wf(es@[k].1),
    ensures
        r is Ok ==> final (writer).out() == old(writer).out().add(
            spec_encoded_entries(dict_entries_model(es@)),
        ),
        r is Err ==> old(writer).may_fail(),
        final (writer).may_fail() == old(writer).may_fail(),
    decreases es@,
{
    let ghost ms = dict_entries_model(es@);
    proof {
        lemma_dict_entries_model(es@);
        assert(ms.subrange(0, 0) =~= Seq::<(KeyModel, ValueModel)>::empty());
    }
    let n = es.len();
    let mut i: usize = 0;
    while i < n
        invariant
            0 <= i <= n,
            n == es@.len(),
            ms == dict_entries_model(es@),
            ms.len() == n,
            forall|k: int|
                0 <= k < n ==> #[trigger] ms[k] == (key_model(es@[k].0), value_model(es@[k].1)),
            forall|k: int| #![trigger es@[k]] 0 <= k < n ==> value_wf(es@[k].1),
            writer.out() == old(writer).out().add(spec_encoded_entries(ms.subrange(0, i as int))),
            writer.may_fail() == old(writer).may_fail(),
        decreases n - i,
    {
        let entry = &es[i];
        encode_key_sink(&entry.0, writer)?;
        encode_entry_value(entry, writer)?;
        proof {
            lemma_encoded_entries_push(ms.subrange(0, i as int), ms[i as int]);
            assert(ms.subrange(0, i as int).push(ms[i as int]) =~= ms.subrange(0, i + 1));
        }
        i = i + 1;
    }
    proof {
        assert(ms.subrange(0, n as int) =~= ms);
    }
    Ok(())
}

/// The canonical bytes of a value, as a fresh vector. A byte vector
/// accepts every write, so encoding into one cannot fail and the
/// contract is unconditional.
pub fn encode_to_bytes(value: &BencodexValue) -> (r: Vec<u8>)
    requires
        value_wf(*value),
    ensures
        r@ == spec_encoded(value_model(*value)),
{
    let mut buf: Vec<u8> = Vec::new();
    match encode_value(value, &mut buf) {
        Ok(_) => {
            proof {
                assert(Seq::<u8>::empty().add(spec_encoded(value_model(*value))) =~= spec_encoded(
                    value_model(*value),
                ));
            }
            buf
        },
        Err(_) => vstd::pervasive::unreached(),
    }
}

/// Writes the encoding of one entry's value.
fn encode_entry_value<W: Sink>(entry: &(BencodexKey, BencodexValue), writer: &mut W) -> (r: Result<
    (),
    std::io::Error,
>)
    requires
        value_wf(entry.1),
    ensures
        r is Ok ==> final (writer).out() == old(writer).out().add(spec_encoded(entry.1@)),
        r is Err ==> old(writer).may_fail(),
        final (writer).may_fail() == old(writer).may_fail(),
    decreases *entry,
{
    encode_value(&entry.1, writer)
}

/// `Encode` writes a value's canonical Bencodex bytes to an output sink.
///
/// Encoding never fails on the value itself: the only failure is the
/// sink's own, which is returned as it came, aborting the remaining
/// writes.
pub trait Encode: Sized {
    /// Whether this value may be encoded: its dictionaries are sorted and
    /// its numbers canonical.
    spec fn encodable(&self) -> bool;

    /// The canonical bytes this value encodes to.
    spec fn encoded(&self) -> Seq<u8>;

    /// Writes the canonical bytes of `self` to `writer`. The only
    /// failure is the sink's own: into a sink that cannot fail, such as a
    /// byte vector, encoding always succeeds.
    fn encode<W: Sink>(self, writer: &mut W) -> (r: Result<(), std::io::Error>)
        requires
            self.encodable(),
        ensures
            r is Ok ==> final (writer).out() == old(writer).out().add(self.encoded()),
            r is Err ==> old(writer).may_fail(),
            final (writer).may_fail() == old(writer).may_fail(),
    ;
}

impl Encode for BencodexValue {
    open spec fn encodable(&self) -> bool {
        value_wf(*self)
    }

    open spec fn encoded(&self) -> Seq<u8> {
        spec_encoded(value_model(*self))
    }

    fn encode<W: Sink>(self, writer: &mut W) -> (r: Result<(), std::io::Error>) {
        encode_value(&self, writer)
    }
}

impl Encode for Vec<u8> {
    open spec fn encodable(&self) -> bool {
        true
    }

    open spec fn encoded(&self) -> Seq<u8> {
        spec_encoded(ValueModel::Binary(self@))
    }

    fn encode<W: Sink>(self, writer: &mut W) -> (r: Result<(), std::io::Error>) {
        encode_value(&BencodexValue::Binary(self), writer)
    }
}

impl Encode for String {
    open spec fn encodable(&self) -> bool {
        true
    }

    open spec fn encoded(&self) -> Seq<u8> {
        spec_encoded(ValueModel::Text(self@))
    }

    fn encode<W: Sink>(self, writer: &mut W) -> (r: Result<(), std::io::Error>) {
        encode_value(&BencodexValue::Text(self), writer)
    }
}

impl Encode for bool {
    open spec fn encodable(&self) -> bool {
        true
    }

    open spec fn encoded(&self) -> Seq<u8> {
        spec_encoded(ValueModel::Boolean(*self))
    }

    fn encode<W: Sink>(self, writer: &mut W) -> (r: Result<(), std::io::Error>) {
        encode_value(&BencodexValue::Boolean(self), writer)
    }
}

impl Encode for i64 {
    open spec fn encodable(&self) -> bool {
        true
    }

    open spec fn encoded(&self) -> Seq<u8> {
        spec_encoded(ValueModel::Number(*self as int))
    }

    fn encode<W: Sink>(self, writer: &mut W) -> (r: Result<(), std::io::Error>) {
        let n = BencodexNumber::from_i64(self);
        encode_value(&BencodexValue::Number(n), writer)
    }
}

impl Encode for BencodexNumber {
    open spec fn encodable(&self) -> bool {
        self.wf()
    }

    open spec fn encoded(&self) -> Seq<u8> {
        spec_encoded(ValueModel::Number(self@))
    }

    fn encode<W: Sink>(self, writer: &mut W) -> (r: Result<(), std::io::Error>) {
        encode_value(&BencodexValue::Number(self), writer)
    }
}

impl Encode for () {
    open spec fn encodable(&self) -> bool {
        true
    }

    open spec fn encoded(&self) -> Seq<u8> {
        spec_encoded(ValueModel::Null)
    }

    fn encode<W: Sink>(self, writer: &mut W) -> (r: Result<(), std::io::Error>) {
        encode_value(&BencodexValue::Null, writer)
    }
}

impl Encode for Vec<BencodexValue> {
    open spec fn encodable(&self) -> bool {
        value_wf(BencodexValue::List(*self))
    }

    open spec fn encoded(&self) -> Seq<u8> {
        spec_encoded(value_model(BencodexValue::List(*self)))
    }

    fn encode<W: Sink>(self, writer: &mut W) -> (r: Result<(), std::io::Error>) {
        encode_value(&BencodexValue::List(self), writer)
    }
}

impl Encode for Vec<(BencodexKey, BencodexValue)> {
    open spec fn encodable(&self) -> bool {
        value_wf(BencodexValue::Dictionary(*self))
    }

    open spec fn encoded(&self) -> Seq<u8> {
        spec_encoded(value_model(BencodexValue::Dictionary(*self)))
    }

    fn encode<W: Sink>(self, writer: &mut W) -> (r: Result<(), std::io::Error>) {
        encode_value(&BencodexValue::Dictionary(self), writer)
    }
}

} // verus!
