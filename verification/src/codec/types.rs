//! The Bencodex value model: the `BencodexValue` tree and the `BencodexKey`
//! type for dictionary keys, together with their mathematical models.
//!
//! A value's model replaces every executable container by its mathematical
//! counterpart: byte vectors become `Seq<u8>`, strings become their
//! character sequences, numbers become the `int` they denote, and a
//! dictionary becomes the sequence of its entries in canonical key order.
//! Dictionaries are stored sorted by the canonical key order with no
//! duplicate keys; `value_wf` states that invariant.

use crate::codec::number::BencodexNumber;
use crate::codec::order::spec_cmp_key;
use core::cmp::Ordering;
use vstd::prelude::*;

verus! {

broadcast use vstd::std_specs::vec::group_vec_axioms;

/// The mathematical model of a dictionary key.
pub enum KeyModel {
    Binary(Seq<u8>),
    Text(Seq<char>),
}

/// The mathematical model of a value tree.
pub enum ValueModel {
    Binary(Seq<u8>),
    Text(Seq<char>),
    Boolean(bool),
    Number(int),
    List(Seq<ValueModel>),
    Dictionary(Seq<(KeyModel, ValueModel)>),
    Null,
}

/// A dictionary key: an arbitrary byte string or a Unicode text. No other
/// kind of value may key a dictionary.
#[derive(Debug, PartialEq, Eq, PartialOrd, Ord)]
pub enum BencodexKey {
    Binary(Vec<u8>),
    Text(String),
}

/// A Bencodex value tree.
#[derive(Debug, PartialEq)]
pub enum BencodexValue {
    Binary(Vec<u8>),
    Text(String),
    Boolean(bool),
    Number(BencodexNumber),
    List(Vec<BencodexValue>),
    Dictionary(Vec<(BencodexKey, BencodexValue)>),
    Null,
}

/// A list of values; order is significant and preserved.
pub type BencodexList = Vec<BencodexValue>;

/// A dictionary: its entries, kept sorted by the canonical key order with
/// no duplicate keys. Build one with [`crate::codec::dict::dict_insert`].
pub type BencodexDictionary = Vec<(BencodexKey, BencodexValue)>;

/// The null value.
pub const BENCODEX_NULL: BencodexValue = BencodexValue::Null;

/// The model of a key.
pub open spec fn key_model(k: BencodexKey) -> KeyModel {
    match k {
        BencodexKey::Binary(b) => KeyModel::Binary(b@),
        BencodexKey::Text(t) => KeyModel::Text(t@),
    }
}

impl View for BencodexKey {
    type V = KeyModel;

    open spec fn view(&self) -> KeyModel {
        key_model(*self)
    }
}

/// The model of a value.
pub open spec fn value_model(v: BencodexValue) -> ValueModel
    decreases v,
{
    match v {
        BencodexValue::Binary(b) => ValueModel::Binary(b@),
        BencodexValue::Text(t) => ValueModel::Text(t@),
        BencodexValue::Boolean(b) => ValueModel::Boolean(b),
        BencodexValue::Number(n) => ValueModel::Number(n@),
        BencodexValue::List(xs) => ValueModel::List(list_models(xs@)),
        BencodexValue::Dictionary(es) => ValueModel::Dictionary(dict_entries_model(es@)),
        BencodexValue::Null => ValueModel::Null,
    }
}

/// The models of a sequence of values, elementwise.
pub open spec fn list_models(s: Seq<BencodexValue>) -> Seq<ValueModel>
    decreases s,
{
    if s.len() == 0 {
        Seq::empty()
    } else {
        seq![value_model(s[0])].add(list_models(s.drop_first()))
    }
}

/// The model of a dictionary's entry sequence, elementwise.
pub open spec fn dict_entries_model(es: Seq<(BencodexKey, BencodexValue)>) -> Seq<
    (KeyModel, ValueModel),
>
    decreases es,
{
    if es.len() == 0 {
        Seq::empty()
    } else {
        seq![(key_model(es[0].0), value_model(es[0].1))].add(dict_entries_model(es.drop_first()))
    }
}

/// `list_models` maps the model over the sequence, elementwise.
pub broadcast proof fn lemma_list_models(s: Seq<BencodexValue>)
    ensures
        (#[trigger] list_models(s)).len() == s.len(),
        forall|i: int| 0 <= i < s.len() ==> #[trigger] list_models(s)[i] == value_model(s[i]),
    decreases s,
{
    if s.len() > 0 {
        lemma_list_models(s.drop_first());
    }
}

/// `dict_entries_model` maps the models over the entries, elementwise.
pub broadcast proof fn lemma_dict_entries_model(es: Seq<(BencodexKey, BencodexValue)>)
    ensures
        (#[trigger] dict_entries_model(es)).len() == es.len(),
        forall|i: int|
            0 <= i < es.len() ==> #[trigger] dict_entries_model(es)[i] == (
            key_model(es[i].0),
            value_model(es[i].1),
            ),
    decreases es,
{
    if es.len() > 0 {
        lemma_dict_entries_model(es.drop_first());
    }
}

impl View for BencodexValue {
    type V = ValueModel;

    open spec fn view(&self) -> ValueModel {
        value_model(*self)
    }
}

/// Whether the entries of a model dictionary are strictly sorted in the
/// canonical key order; this also rules out duplicate keys.
pub open spec fn dict_model_sorted(es: Seq<(KeyModel, ValueModel)>) -> bool {
    forall|i: int, j: int|
        0 <= i < j < es.len() ==> spec_cmp_key(#[trigger] es[i].0, #[trigger] es[j].0)
            == Ordering::Less
}

/// Well-formedness of a model value: every dictionary in the tree is
/// strictly sorted in the canonical key order.
pub open spec fn model_wf(m: ValueModel) -> bool
    decreases m,
{
    match m {
        ValueModel::List(xs) => forall|i: int|
            #![trigger xs[i]]
            0 <= i < xs.len() ==> model_wf(xs[i]),
        ValueModel::Dictionary(es) => {
            &&& dict_model_sorted(es)
            &&& forall|i: int| #![trigger es[i]] 0 <= i < es.len() ==> model_wf(es[i].1)
        },
        _ => true,
    }
}

/// Well-formedness of an executable value: every number is in canonical
/// decimal form and every dictionary is strictly sorted in the canonical
/// key order.
pub open spec fn value_wf(v: BencodexValue) -> bool
    decreases v,
{
    match v {
        BencodexValue::Number(n) => n.wf(),
        BencodexValue::List(xs) => forall|i: int|
            #![trigger xs@[i]]
            0 <= i < xs@.len() ==> value_wf(xs@[i]),
        BencodexValue::Dictionary(es) => {
            &&& dict_model_sorted(dict_entries_model(es@))
            &&& forall|i: int| #![trigger es@[i]] 0 <= i < es@.len() ==> value_wf(es@[i].1)
        },
        _ => true,
    }
}

impl Clone for BencodexKey {
    /// Clones the key; the copy has the same model.
    fn clone(&self) -> (r: Self)
        ensures
            r@ == self@,
    {
        match self {
            BencodexKey::Binary(b) => {
                let c = b.clone();
                proof {
                    assert(c@ =~= b@);
                }
                BencodexKey::Binary(c)
            },
            BencodexKey::Text(t) => BencodexKey::Text(t.clone()),
        }
    }
}

impl Clone for BencodexValue {
    /// Clones the value; the copy has the same model and stays well-formed.
    fn clone(&self) -> (r: Self)
        ensures
            r@ == self@,
            value_wf(*self) ==> value_wf(r),
        decreases *self,
    {
        match self {
            BencodexValue::Binary(b) => {
                let c = b.clone();
                proof {
                    assert(c@ =~= b@);
                }
                BencodexValue::Binary(c)
            },
            BencodexValue::Text(t) => BencodexValue::Text(t.clone()),
            BencodexValue::Boolean(b) => BencodexValue::Boolean(*b),
            BencodexValue::Number(n) => {
                let d = n.digits.clone();
                proof {
                    assert(d@ =~= n.digits@);
                }
                BencodexValue::Number(BencodexNumber { negative: n.negative, digits: d })
            },
            BencodexValue::List(xs) => {
                let out = clone_values(xs);
                let r = BencodexValue::List(out);
                proof {
                    lemma_list_models(out@);
                    lemma_list_models(xs@);
                    assert(value_model(r)->List_0 =~= value_model(*self)->List_0);
                    if value_wf(*self) {
                        assert forall|k: int| 0 <= k < out@.len() implies value_wf(
                            #[trigger] out@[k],
                        ) by {
                            assert(value_wf(xs@[k]));
                        }
                    }
                }
                r
            },
            BencodexValue::Dictionary(es) => {
                let out = clone_entries(es);
                let r = BencodexValue::Dictionary(out);
                proof {
                    lemma_dict_entries_model(out@);
                    lemma_dict_entries_model(es@);
                    assert(value_model(r)->Dictionary_0 =~= value_model(*self)->Dictionary_0);
                    if value_wf(*self) {
                        assert forall|k: int| 0 <= k < out@.len() implies value_wf(
                            #[trigger] out@[k].1,
                        ) by {
                            assert(value_wf(es@[k].1));
                        }
                        assert(dict_entries_model(out@) == dict_entries_model(es@));
                    }
                }
                r
            },
            BencodexValue::Null => BencodexValue::Null,
        }
    }
}

/// Clones every element of a value sequence.
fn clone_values(xs: &Vec<BencodexValue>) -> (out: Vec<BencodexValue>)
    ensures
        out@.len() == xs@.len(),
        forall|k: int|
            #![trigger out@[k]]
            0 <= k < xs@.len() ==> out@[k]@ == xs@[k]@ && (value_wf(xs@[k]) ==> value_wf(out@[k])),
    decreases xs@,
{
    let mut out: Vec<BencodexValue> = Vec::new();
    let mut i: usize = 0;
    let n = xs.len();
    while i < n
        invariant
            0 <= i <= n,
            n == xs@.len(),
            out@.len() == i,
            forall|k: int|
                #![trigger out@[k]]
                0 <= k < i ==> out@[k]@ == xs@[k]@ && (value_wf(xs@[k]) ==> value_wf(out@[k])),
        decreases n - i,
    {
        let c = xs[i].clone();
        out.push(c);
        i = i + 1;
    }
    out
}

/// Clones every entry of a dictionary's entry vector.
fn clone_entries(es: &Vec<(BencodexKey, BencodexValue)>) -> (out: Vec<
    (BencodexKey, BencodexValue),
>)
    ensures
        out@.len() == es@.len(),
        forall|k: int|
            #![trigger out@[k]]
            0 <= k < es@.len() ==> out@[k].0@ == es@[k].0@ && out@[k].1@ == es@[k].1@ && (value_wf(
                es@[k].1,
            ) ==> value_wf(out@[k].1)),
    decreases es@,
{
    let mut out: Vec<(BencodexKey, BencodexValue)> = Vec::new();
    let mut i: usize = 0;
    let n = es.len();
    while i < n
        invariant
            0 <= i <= n,
            n == es@.len(),
            out@.len() == i,
            forall|k: int|
                #![trigger out@[k]]
                0 <= k < i ==> out@[k].0@ == es@[k].0@ && out@[k].1@ == es@[k].1@ && (value_wf(
                    es@[k].1,
                ) ==> value_wf(out@[k].1)),
        decreases n - i,
    {
        let entry = &es[i];
        let k = entry.0.clone();
        let v = entry.1.clone();
        out.push((k, v));
        i = i + 1;
    }
    out
}

/// A well-formed executable value has a well-formed model.
pub proof fn lemma_value_wf_model(v: BencodexValue)
    requires
        value_wf(v),
    ensures
        model_wf(value_model(v)),
    decreases v,
{
    match v {
        BencodexValue::List(xs) => {
            lemma_list_models(xs@);
            lemma_values_wf_model(xs@);
            let m = value_model(v)->List_0;
            assert forall|i: int| 0 <= i < m.len() implies model_wf(#[trigger] m[i]) by {
                assert(m[i] == value_model(xs@[i]));
            }
        },
        BencodexValue::Dictionary(es) => {
            lemma_dict_entries_model(es@);
            lemma_entries_wf_model(es@);
            let m = value_model(v)->Dictionary_0;
            assert forall|i: int| 0 <= i < m.len() implies model_wf(#[trigger] m[i].1) by {
                assert(m[i] == (key_model(es@[i].0), value_model(es@[i].1)));
            }
        },
        _ => {},
    }
}

/// Well-formedness carries from a sequence of values to their models.
proof fn lemma_values_wf_model(s: Seq<BencodexValue>)
    requires
        forall|i: int| #![trigger s[i]] 0 <= i < s.len() ==> value_wf(s[i]),
    ensures
        forall|i: int| #![trigger s[i]] 0 <= i < s.len() ==> model_wf(value_model(s[i])),
    decreases s,
{
    if s.len() > 0 {
        lemma_value_wf_model(s[0]);
        assert forall|i: int| 0 <= i < s.drop_first().len() implies value_wf(
            #[trigger] s.drop_first()[i],
        ) by {
            assert(s.drop_first()[i] == s[i + 1]);
        }
        lemma_values_wf_model(s.drop_first());
        assert forall|i: int| 0 <= i < s.len() implies model_wf(value_model(#[trigger] s[i])) by {
            if i > 0 {
                assert(s.drop_first()[i - 1] == s[i]);
            }
        }
    }
}

/// Well-formedness carries from a dictionary's entries to their models.
proof fn lemma_entries_wf_model(es: Seq<(BencodexKey, BencodexValue)>)
    requires
        forall|i: int| #![trigger es[i]] 0 <= i < es.len() ==> value_wf(es[i].1),
    ensures
        forall|i: int| #![trigger es[i]] 0 <= i < es.len() ==> model_wf(value_model(es[i].1)),
    decreases es,
{
    if es.len() > 0 {
        lemma_value_wf_model(es[0].1);
        assert forall|i: int| 0 <= i < es.drop_first().len() implies value_wf(
            #[trigger] es.drop_first()[i].1,
        ) by {
            assert(es.drop_first()[i] == es[i + 1]);
        }
        lemma_entries_wf_model(es.drop_first());
        assert forall|i: int| 0 <= i < es.len() implies model_wf(
            value_model(#[trigger] es[i].1),
        ) by {
            if i > 0 {
                assert(es.drop_first()[i - 1] == es[i]);
            }
        }
    }
}

/// Appending a value appends its model.
pub proof fn lemma_list_models_push(s: Seq<BencodexValue>, x: BencodexValue)
    ensures
        list_models(s.push(x)) == list_models(s).push(value_model(x)),
{
    lemma_list_models(s.push(x));
    lemma_list_models(s);
    assert(list_models(s.push(x)) =~= list_models(s).push(value_model(x)));
}

/// Whether the entries stand strictly sorted in the canonical key order.
fn entries_sorted(es: &Vec<(BencodexKey, BencodexValue)>) -> (r: bool)
    ensures
        r == dict_model_sorted(dict_entries_model(es@)),
{
    proof {
        lemma_dict_entries_model(es@);
    }
    let len = es.len();
    if len == 0 {
        return true;
    }
    let mut i: usize = 1;
    while i < len
        invariant
            1 <= i <= len,
            len == es@.len(),
            forall|p: int, q: int|
                #![trigger es@[p], es@[q]]
                0 <= p < q < i ==> spec_cmp_key(es@[p].0@, es@[q].0@) == Ordering::Less,
        decreases len - i,
    {
        let prev = &es[i - 1];
        let cur = &es[i];
        match crate::codec::order::compare_key(&prev.0, &cur.0) {
            Ordering::Less => {},
            _ => {
                proof {
                    lemma_dict_entries_model(es@);
                    let m = dict_entries_model(es@);
                    assert(m[i - 1].0 == es@[i - 1].0@ && m[i as int].0 == es@[i as int].0@);
                    assert(!dict_model_sorted(m));
                }
                return false;
            },
        }
        proof {
            assert forall|p: int| 0 <= p < i implies spec_cmp_key(
                (#[trigger] es@[p]).0@,
                es@[i as int].0@,
            ) == Ordering::Less by {
                if p < i - 1 {
                    crate::codec::order::lemma_cmp_key_trans(
                        es@[p].0@,
                        es@[i - 1].0@,
                        es@[i as int].0@,
                    );
                }
            }
        }
        i = i + 1;
    }
    proof {
        let m = dict_entries_model(es@);
        assert forall|p: int, q: int| 0 <= p < q < m.len() implies spec_cmp_key(
            #[trigger] m[p].0,
            #[trigger] m[q].0,
        ) == Ordering::Less by {
            assert(m[p].0 == es@[p].0@ && m[q].0 == es@[q].0@);
        }
    }
    true
}

impl BencodexValue {
    /// Whether the value is canonical: every number in canonical decimal
    /// form and every dictionary strictly sorted in the canonical key
    /// order. Values built through this crate's decoders and constructors
    /// always are; the check serves callers that assemble values by hand.
    pub fn is_canonical(&self) -> (r: bool)
        ensures
            r == value_wf(*self),
        decreases *self,
    {
        match self {
            BencodexValue::Number(n) => n.is_canonical(),
            BencodexValue::List(xs) => values_canonical(xs),
            BencodexValue::Dictionary(es) => {
                if !entries_sorted(es) {
                    return false;
                }
                entries_canonical(es)
            },
            _ => true,
        }
    }
}

/// Whether every value in the sequence is canonical.
fn values_canonical(xs: &Vec<BencodexValue>) -> (r: bool)
    ensures
        r == forall|k: int| #![trigger xs@[k]] 0 <= k < xs@.len() ==> value_wf(xs@[k]),
    decreases xs@,
{
    let len = xs.len();
    let mut i: usize = 0;
    while i < len
        invariant
            0 <= i <= len,
            len == xs@.len(),
            forall|k: int| #![trigger xs@[k]] 0 <= k < i ==> value_wf(xs@[k]),
        decreases len - i,
    {
        if !xs[i].is_canonical() {
            return false;
        }
        i = i + 1;
    }
    true
}

/// Whether every value of the entries is canonical.
fn entries_canonical(es: &Vec<(BencodexKey, BencodexValue)>) -> (r: bool)
    ensures
        r == forall|k: int| #![trigger es@[k]] 0 <= k < es@.len() ==> value_wf(es@[k].1),
    decreases es@,
{
    let len = es.len();
    let mut i: usize = 0;
    while i < len
        invariant
            0 <= i <= len,
            len == es@.len(),
            forall|k: int| #![trigger es@[k]] 0 <= k < i ==> value_wf(es@[k].1),
        decreases len - i,
    {
        let entry = &es[i];
        if !entry.1.is_canonical() {
            return false;
        }
        i = i + 1;
    }
    true
}

} // verus!