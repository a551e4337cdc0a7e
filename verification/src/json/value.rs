//! The JSON document tree the bridge works on, and the boundary to the
//! serde_json parser. The bridge's own logic never reads a serde value:
//! a trusted conversion turns one into a [`JsonValue`], and everything
//! after that is verified against the tree's mathematical model.

use vstd::prelude::*;

verus! {

#[verifier::external_type_specification]
#[verifier::external_body]
pub struct ExSerdeValue(serde_json::Value);

/// The mathematical model of a JSON document.
pub enum JsonModel {
    Null,
    Bool(bool),
    /// A numeric literal. The bridge rejects these, so the model keeps
    /// only the fact that one stood here.
    Number,
    String(Seq<char>),
    Array(Seq<JsonModel>),
    Object(Seq<(Seq<char>, JsonModel)>),
}

/// A JSON document. Object entries keep the order in which the document
/// gave them.
pub enum JsonValue {
    Null,
    Bool(bool),
    /// A numeric literal; its value is dropped, since the bridge rejects
    /// numbers that do not arrive as strings.
    Number,
    String(String),
    Array(Vec<JsonValue>),
    Object(Vec<(String, JsonValue)>),
}

/// The model of a JSON tree.
pub open spec fn json_model(j: JsonValue) -> JsonModel
    decreases j,
{
    match j {
        JsonValue::Null => JsonModel::Null,
        JsonValue::Bool(b) => JsonModel::Bool(b),
        JsonValue::Number => JsonModel::Number,
        JsonValue::String(s) => JsonModel::String(s@),
        JsonValue::Array(xs) => JsonModel::Array(json_models(xs@)),
        JsonValue::Object(es) => JsonModel::Object(json_entry_models(es@)),
    }
}

/// The models of a sequence of JSON trees, elementwise.
pub open spec fn json_models(s: Seq<JsonValue>) -> Seq<JsonModel>
    decreases s,
{
    if s.len() == 0 {
        Seq::empty()
    } else {
        seq![json_model(s[0])].add(json_models(s.drop_first()))
    }
}

/// The models of an object's entries, elementwise.
pub open spec fn json_entry_models(es: Seq<(String, JsonValue)>) -> Seq<(Seq<char>, JsonModel)>
    decreases es,
{
    if es.len() == 0 {
        Seq::empty()
    } else {
        seq![(es[0].0@, json_model(es[0].1))].add(json_entry_models(es.drop_first()))
    }
}

/// `json_models` maps the model over the sequence, elementwise.
pub proof fn lemma_json_models(s: Seq<JsonValue>)
    ensures
        json_models(s).len() == s.len(),
        forall|i: int| 0 <= i < s.len() ==> #[trigger] json_models(s)[i] == json_model(s[i]),
    decreases s,
{
    if s.len() > 0 {
        lemma_json_models(s.drop_first());
    }
}

/// `json_entry_models` maps the models over the entries, elementwise.
pub proof fn lemma_json_entry_models(es: Seq<(String, JsonValue)>)
    ensures
        json_entry_models(es).len() == es.len(),
        forall|i: int|
            0 <= i < es.len() ==> #[trigger] json_entry_models(es)[i] == (
            es[i].0@,
            json_model(es[i].1),
            ),
    decreases es,
{
    if es.len() > 0 {
        lemma_json_entry_models(es.drop_first());
    }
}

impl View for JsonValue {
    type V = JsonModel;

    open spec fn view(&self) -> JsonModel {
        json_model(*self)
    }
}

/// Relies on the shape of `serde_json::Value`: each variant is carried
/// over one for one, dropping only the numeric payload the bridge rejects
/// anyway. Nothing is assumed of the result.
#[verifier::external_body]
pub(crate) fn json_tree(v: &serde_json::Value) -> JsonValue {
    match v {
        serde_json::Value::Null => JsonValue::Null,
        serde_json::Value::Bool(b) => JsonValue::Bool(*b),
        serde_json::Value::Number(_) => JsonValue::Number,
        serde_json::Value::String(s) => JsonValue::String(s.clone()),
        serde_json::Value::Array(xs) => JsonValue::Array(xs.iter().map(json_tree).collect()),
        serde_json::Value::Object(m) => JsonValue::Object(
            m.iter().map(|e| (e.0.clone(), json_tree(e.1))).collect(),
        ),
    }
}

/// Relies on `serde_json::from_str`: it parses a well-formed JSON
/// document and refuses anything else. Nothing is assumed of the value it
/// returns.
#[verifier::external_body]
pub(crate) fn parse_json(s: &str) -> Option<serde_json::Value> {
    serde_json::from_str(s).ok()
}

} // verus!
