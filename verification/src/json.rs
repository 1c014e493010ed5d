//! JSON documents.
use vstd::prelude::*;
use crate::order::{same_text, Duplicate};

verus! {

/// The type of parsed documents of the `serde_json` crate.
#[verifier::external_type_specification]
#[verifier::external_body]
pub struct ExJsonValue(serde_json::Value);

/// A number of a document: as an integer and as a natural number, where it is one that fits 64
/// bits, and as a double pattern.
#[derive(Clone, Copy, Debug, PartialEq, Eq, Structural)]
pub struct JsonNumber {
    pub integer: Option<i64>,
    pub natural: Option<u64>,
    pub double: Option<u64>,
}

/// A document.
pub enum Json {
    Null,
    Bool(bool),
    Number(JsonNumber),
    Text(String),
    Array(Vec<Json>),
    Object(Vec<(String, Json)>),
}

/// The mathematical value of a document.
pub enum JsonModel {
    Null,
    Bool(bool),
    Number(JsonNumber),
    Text(Seq<char>),
    Array(Seq<JsonModel>),
    Object(Seq<(Seq<char>, JsonModel)>),
}

/// The mathematical value of a document.
pub open spec fn model_of(j: Json) -> JsonModel
    decreases j,
{
    match j {
        Json::Null => JsonModel::Null,
        Json::Bool(b) => JsonModel::Bool(b),
        Json::Number(n) => JsonModel::Number(n),
        Json::Text(s) => JsonModel::Text(s@),
        Json::Array(items) => JsonModel::Array(
            Seq::new(
                items@.len(),
                |i: int|
                    if 0 <= i < items@.len() {
                        model_of(items@[i])
                    } else {
                        JsonModel::Null
                    },
            ),
        ),
        Json::Object(entries) => JsonModel::Object(
            Seq::new(
                entries@.len(),
                |i: int|
                    if 0 <= i < entries@.len() {
                        (entries@[i].0@, model_of(entries@[i].1))
                    } else {
                        (Seq::empty(), JsonModel::Null)
                    },
            ),
        ),
    }
}

impl DeepView for Json {
    type V = JsonModel;

    open spec fn deep_view(&self) -> JsonModel {
        model_of(*self)
    }
}

pub(crate) proof fn lemma_array_view(items: Vec<Json>)
    ensures
        Json::Array(items).deep_view() == JsonModel::Array(items.deep_view()),
{
    assert(model_of(Json::Array(items))->Array_0 =~= items.deep_view());
}

pub(crate) proof fn lemma_object_view(entries: Vec<(String, Json)>)
    ensures
        Json::Object(entries).deep_view() == JsonModel::Object(entries.deep_view()),
{
    assert(model_of(Json::Object(entries))->Object_0 =~= entries.deep_view());
}

/// The document that a text holds, or the message that says why it holds none.
pub uninterp spec fn json_read(text: Seq<char>) -> Result<JsonModel, Seq<char>>;

/// What a document of `serde_json` holds.
pub uninterp spec fn json_contents(value: serde_json::Value) -> JsonModel;

/// A document of `serde_json`, one level deep.
enum Parts<'a> {
    Null,
    Bool(bool),
    Number(JsonNumber),
    Text(&'a String),
    Array(&'a Vec<serde_json::Value>),
    Object(Vec<(&'a String, &'a serde_json::Value)>),
}

/// The document that parts make up.
spec fn joined(parts: Parts) -> JsonModel {
    match parts {
        Parts::Null => JsonModel::Null,
        Parts::Bool(b) => JsonModel::Bool(b),
        Parts::Number(n) => JsonModel::Number(n),
        Parts::Text(s) => JsonModel::Text(s@),
        Parts::Array(items) => JsonModel::Array(
            Seq::new(items@.len(), |i: int| json_contents(items@[i])),
        ),
        Parts::Object(entries) => JsonModel::Object(
            Seq::new(entries@.len(), |i: int| (entries@[i].0@, json_contents(*entries@[i].1))),
        ),
    }
}

/// Takes a `serde_json::Value` apart by its variants. A number is asked for itself with `as_i64`,
/// `as_u64` and `as_f64`, and the entries of an object come in the order in which `serde_json::Map`
/// walks them. The claim is that the parts make up what the value holds.
#[verifier::external_body]
fn take_apart<'a>(value: &'a serde_json::Value) -> (r: Parts<'a>)
    ensures
        joined(r) == json_contents(*value),
{
    match value {
        serde_json::Value::Null => Parts::Null,
        serde_json::Value::Bool(b) => Parts::Bool(*b),
        serde_json::Value::Number(n) => Parts::Number(JsonNumber {
            integer: n.as_i64(),
            natural: n.as_u64(),
            double: n.as_f64().map(|x| x.to_bits()),
        }),
        serde_json::Value::String(s) => Parts::Text(s),
        serde_json::Value::Array(v) => Parts::Array(v),
        serde_json::Value::Object(m) => Parts::Object(m.iter().collect()),
    }
}

/// Reads a document with `serde_json::from_str`. The claim is that what it holds, or the message of
/// the error, depends on the text alone.
#[verifier::external_body]
fn read_value(text: &str) -> (r: Result<serde_json::Value, String>)
    ensures
        match json_read(text@) {
            Ok(m) => r matches Ok(v) && json_contents(v) == m,
            Err(m) => r matches Err(e) && e@ == m,
        },
{
    serde_json::from_str(text).map_err(|error| error.to_string())
}

fn json_tree(value: &serde_json::Value) -> (r: Json)
    ensures
        r.deep_view() == json_contents(*value),
    decreases json_contents(*value),
{
    match take_apart(value) {
        Parts::Null => Json::Null,
        Parts::Bool(b) => Json::Bool(b),
        Parts::Number(n) => Json::Number(n),
        Parts::Text(s) => Json::Text(s.duplicate()),
        Parts::Array(items) => {
            let ghost want = json_contents(*value)->Array_0;
            let mut out: Vec<Json> = Vec::new();
            let mut i: usize = 0;
            while i < items.len()
                invariant
                    json_contents(*value) == JsonModel::Array(want),
                    want == Seq::new(items@.len(), |i: int| json_contents(items@[i])),
                    i <= items@.len(),
                    out@.len() == i,
                    forall|k: int| 0 <= k < i ==> (#[trigger] out@[k]).deep_view() == want[k],
                decreases items@.len() - i,
            {
                proof {
                    assert(want[i as int] == json_contents(items@[i as int]));
                    let whole = json_contents(*value);
                    assert(decreases_to!(whole => whole->Array_0));
                    assert(decreases_to!(whole->Array_0 => whole->Array_0[i as int]));
                }
                out.push(json_tree(&items[i]));
                i += 1;
            }
            proof {
                lemma_array_view(out);
                assert(out.deep_view() =~= want);
            }
            Json::Array(out)
        },
        Parts::Object(entries) => {
            let ghost want = json_contents(*value)->Object_0;
            let mut out: Vec<(String, Json)> = Vec::new();
            let mut i: usize = 0;
            while i < entries.len()
                invariant
                    json_contents(*value) == JsonModel::Object(want),
                    want == Seq::new(
                        entries@.len(),
                        |i: int| (entries@[i].0@, json_contents(*entries@[i].1)),
                    ),
                    i <= entries@.len(),
                    out@.len() == i,
                    forall|k: int| 0 <= k < i ==> (#[trigger] out@[k]).deep_view() == want[k],
                decreases entries@.len() - i,
            {
                let (key, inner) = entries[i];
                proof {
                    assert(want[i as int] == (key@, json_contents(*inner)));
                    let whole = json_contents(*value);
                    assert(decreases_to!(whole => whole->Object_0));
                    assert(decreases_to!(whole->Object_0 => whole->Object_0[i as int]));
                    assert(decreases_to!(want[i as int] => want[i as int].1));
                }
                out.push((key.duplicate(), json_tree(inner)));
                i += 1;
            }
            proof {
                lemma_object_view(out);
                assert(out.deep_view() =~= want);
            }
            Json::Object(out)
        },
    }
}

/// Reads a document.
pub fn read_json(text: &str) -> (r: Result<Json, String>)
    ensures
        match json_read(text@) {
            Ok(m) => r matches Ok(j) && j.deep_view() == m,
            Err(m) => r matches Err(e) && e@ == m,
        },
{
    match read_value(text) {
        Ok(value) => Ok(json_tree(&value)),
        Err(m) => Err(m),
    }
}

/// The position of the first entry of a key, or the number of entries.
pub open spec fn entry_position(entries: Seq<(Seq<char>, JsonModel)>, key: Seq<char>) -> nat
    decreases entries.len(),
{
    if entries.len() == 0 || entries[0].0 == key {
        0
    } else {
        entry_position(entries.drop_first(), key) + 1
    }
}

/// The entry of a key, where there is one.
pub open spec fn entry_of(entries: Seq<(Seq<char>, JsonModel)>, key: Seq<char>) -> Option<JsonModel> {
    let i = entry_position(entries, key);
    if i < entries.len() {
        Some(entries[i as int].1)
    } else {
        None
    }
}

/// The entry of a key, where there is one.
pub fn find_entry<'a>(entries: &'a Vec<(String, Json)>, key: &str) -> (r: Option<&'a Json>)
    ensures
        match entry_of(entries.deep_view(), key@) {
            Some(m) => r matches Some(j) && j.deep_view() == m,
            None => r is None,
        },
{
    let ghost all = entries.deep_view();
    let mut i: usize = 0;
    proof {
        assert(all.skip(0) =~= all);
    }
    while i < entries.len()
        invariant
            i <= entries@.len(),
            all == entries.deep_view(),
            entry_position(all, key@) == i + entry_position(all.skip(i as int), key@),
        decreases entries@.len() - i,
    {
        proof {
            assert(all.skip(i as int)[0] == entries@[i as int].deep_view());
            assert(all.skip(i as int).drop_first() =~= all.skip(i + 1));
        }
        if same_text(entries[i].0.as_str(), key) {
            proof {
                assert(all[i as int] == entries@[i as int].deep_view());
            }
            return Some(&entries[i].1);
        }
        i += 1;
    }
    None
}

} // verus!
