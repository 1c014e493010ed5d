//! Records, search results and statistics as JSON documents.
use vstd::prelude::*;
use crate::float_bits::{
    double_finite, double_from_integer, double_from_magnitude, double_is_finite, double_of_int,
    double_of_nat, law_widened_narrowed, single_finite, single_is_finite, widen, widened,
};
use crate::json::{lemma_array_view, lemma_object_view, Json, JsonModel, JsonNumber};
use crate::json_values::{metadata_entries, metadata_items, metadata_json, Dialect};
use crate::json_vectors::{singles_json, vector_json};
use crate::metadata::{lemma_list_view, lemma_map_view, Metadata, MetadataValue, ValueModel};
use crate::order::Duplicate;
use crate::ordered_map::{ascending, lemma_insert_last};
use crate::payload_index::{index_name, PayloadIndexType};
use crate::record::{MultiVectors, NamedVectors, Record, RecordModel, SparseVector};
use crate::search_options::{MultiVectorSearchResult, SearchOutcome, SearchResult, SearchStats};
use crate::value_codec::value_ordered;

verus! {

/// The document of an integer.
pub open spec fn integer_out(i: i64) -> JsonModel {
    JsonModel::Number(
        JsonNumber {
            integer: Some(i),
            natural: if i >= 0 {
                Some(i as u64)
            } else {
                None
            },
            double: Some(double_of_int(i as int) as u64),
        },
    )
}

/// The document of a natural number.
pub open spec fn natural_out(n: u64) -> JsonModel {
    JsonModel::Number(
        JsonNumber {
            integer: if n <= i64::MAX {
                Some(n as i64)
            } else {
                None
            },
            natural: Some(n),
            double: Some(double_of_nat(n as nat) as u64),
        },
    )
}

/// The document of a double. JSON has no infinities and no NaN: they become null.
pub open spec fn double_out(bits: u64) -> JsonModel {
    if double_is_finite(bits) {
        JsonModel::Number(JsonNumber { integer: None, natural: None, double: Some(bits) })
    } else {
        JsonModel::Null
    }
}

/// The document of a single.
pub open spec fn single_out(bits: u32) -> JsonModel {
    if single_is_finite(bits) {
        JsonModel::Number(JsonNumber { integer: None, natural: None, double: Some(widened(bits)) })
    } else {
        JsonModel::Null
    }
}

/// The document of a metadata value.
pub open spec fn value_out(v: ValueModel) -> JsonModel
    decreases v,
{
    match v {
        ValueModel::Text(s) => JsonModel::Text(s),
        ValueModel::Integer(i) => integer_out(i),
        ValueModel::Float(bits) => double_out(bits),
        ValueModel::Boolean(b) => JsonModel::Bool(b),
        ValueModel::Null => JsonModel::Null,
        ValueModel::List(items) => JsonModel::Array(
            Seq::new(
                items.len(),
                |i: int|
                    if 0 <= i < items.len() {
                        value_out(items[i])
                    } else {
                        JsonModel::Null
                    },
            ),
        ),
        ValueModel::Object(pairs) => JsonModel::Object(
            Seq::new(
                pairs.len(),
                |i: int|
                    if 0 <= i < pairs.len() {
                        (pairs[i].0, value_out(pairs[i].1))
                    } else {
                        (Seq::empty(), JsonModel::Null)
                    },
            ),
        ),
    }
}

fn integer_number(i: i64) -> (r: Json)
    ensures
        r.deep_view() == integer_out(i),
{
    Json::Number(
        JsonNumber {
            integer: Some(i),
            natural: if i >= 0 {
                Some(i as u64)
            } else {
                None
            },
            double: Some(double_from_integer(i)),
        },
    )
}

fn natural_number(n: u64) -> (r: Json)
    ensures
        r.deep_view() == natural_out(n),
{
    Json::Number(
        JsonNumber {
            integer: if n <= 0x7fff_ffff_ffff_ffff {
                Some(n as i64)
            } else {
                None
            },
            natural: Some(n),
            double: Some(double_from_magnitude(n)),
        },
    )
}

/// The document of a double.
pub fn float_value(bits: u64) -> (r: Json)
    ensures
        r.deep_view() == double_out(bits),
{
    if double_finite(bits) {
        Json::Number(JsonNumber { integer: None, natural: None, double: Some(bits) })
    } else {
        Json::Null
    }
}

fn single_value(bits: u32) -> (r: Json)
    ensures
        r.deep_view() == single_out(bits),
{
    if single_finite(bits) {
        Json::Number(JsonNumber { integer: None, natural: None, double: Some(widen(bits)) })
    } else {
        Json::Null
    }
}

/// The document of a metadata value.
pub fn metadata_value_to_json(v: &MetadataValue) -> (r: Json)
    ensures
        r.deep_view() == value_out(v.deep_view()),
    decreases v,
{
    match v {
        MetadataValue::String(s) => Json::Text(s.duplicate()),
        MetadataValue::Integer(i) => integer_number(*i),
        MetadataValue::Float(bits) => float_value(*bits),
        MetadataValue::Boolean(b) => Json::Bool(*b),
        MetadataValue::Null => Json::Null,
        MetadataValue::List(items) => {
            let mut out: Vec<Json> = Vec::new();
            let mut i: usize = 0;
            while i < items.len()
                invariant
                    i <= items@.len(),
                    out@.len() == i,
                    v == MetadataValue::List(*items),
                    forall|k: int|
                        0 <= k < i ==> (#[trigger] out@[k]).deep_view() == value_out(
                            items@[k].deep_view(),
                        ),
                decreases items@.len() - i,
            {
                proof {
                    assert(decreases_to!(*v => v->List_0@[i as int]));
                }
                out.push(metadata_value_to_json(&items[i]));
                i += 1;
            }
            proof {
                lemma_list_view(*items);
                lemma_array_view(out);
                assert(out.deep_view() =~= value_out(v.deep_view())->Array_0);
            }
            Json::Array(out)
        },
        MetadataValue::Object(map) => {
            let mut out: Vec<(String, Json)> = Vec::new();
            let mut i: usize = 0;
            while i < map.entries.len()
                invariant
                    i <= map.entries@.len(),
                    out@.len() == i,
                    v == MetadataValue::Object(*map),
                    forall|k: int|
                        0 <= k < i ==> (#[trigger] out@[k]).deep_view() == (
                            map.entries@[k].0@,
                            value_out(map.entries@[k].1.deep_view()),
                        ),
                decreases map.entries@.len() - i,
            {
                proof {
                    assert(decreases_to!(*v => v->Object_0.entries@[i as int].1));
                }
                let e = &map.entries[i];
                out.push((e.0.duplicate(), metadata_value_to_json(&e.1)));
                i += 1;
            }
            proof {
                lemma_map_view(*map);
                lemma_object_view(out);
                assert(out.deep_view() =~= value_out(v.deep_view())->Object_0);
            }
            Json::Object(out)
        },
    }
}

/// Whether every double in a value is finite.
pub open spec fn value_finite(v: ValueModel) -> bool
    decreases v,
{
    match v {
        ValueModel::Float(bits) => double_is_finite(bits),
        ValueModel::List(items) => forall|i: int|
            0 <= i < items.len() ==> value_finite(#[trigger] items[i]),
        ValueModel::Object(pairs) => forall|i: int|
            0 <= i < pairs.len() ==> value_finite((#[trigger] pairs[i]).1),
        _ => true,
    }
}

pub(crate) proof fn lemma_items_back(d: Dialect, items: Seq<ValueModel>, n: nat)
    requires
        n <= items.len(),
        value_ordered(ValueModel::List(items)),
        value_finite(ValueModel::List(items)),
    ensures
        metadata_items(d, value_out(ValueModel::List(items))->Array_0, n) == Ok::<
            Seq<ValueModel>,
            Seq<char>,
        >(items.take(n as int)),
    decreases items, n,
{
    let out = value_out(ValueModel::List(items))->Array_0;
    if n == 0 {
        assert(items.take(0) =~= Seq::<ValueModel>::empty());
    } else {
        lemma_items_back(d, items, (n - 1) as nat);
        assert(out[n - 1] == value_out(items[n - 1]));
        law_metadata_json(d, items[n - 1]);
        assert(items.take(n as int) =~= items.take(n - 1).push(items[n - 1]));
    }
}

proof fn lemma_pairs_back(d: Dialect, pairs: Seq<(Seq<char>, ValueModel)>, n: nat)
    requires
        n <= pairs.len(),
        value_ordered(ValueModel::Object(pairs)),
        value_finite(ValueModel::Object(pairs)),
    ensures
        metadata_entries(d, value_out(ValueModel::Object(pairs))->Object_0, n) == Ok::<
            Seq<(Seq<char>, ValueModel)>,
            Seq<char>,
        >(pairs.take(n as int)),
    decreases pairs, n,
{
    let out = value_out(ValueModel::Object(pairs))->Object_0;
    if n == 0 {
        assert(pairs.take(0) =~= Seq::<(Seq<char>, ValueModel)>::empty());
    } else {
        lemma_pairs_back(d, pairs, (n - 1) as nat);
        let p = pairs[n - 1];
        assert(out[n - 1] == (p.0, value_out(p.1)));
        assert(decreases_to!(pairs[n - 1] => pairs[n - 1].1));
        law_metadata_json(d, p.1);
        let before = pairs.take(n - 1);
        assert(ascending::<String, ValueModel>(before.push(p))) by {
            assert(before.push(p) =~= pairs.take(n as int));
        }
        lemma_insert_last::<String, ValueModel>(before, p.0, p.1);
        assert(pairs.take(n as int) =~= before.push(p));
    }
}

/// A metadata value whose doubles are finite is read back from its document.
pub proof fn law_metadata_json(d: Dialect, v: ValueModel)
    requires
        value_ordered(v),
        value_finite(v),
    ensures
        metadata_json(d, value_out(v)) == Ok::<ValueModel, Seq<char>>(v),
    decreases v,
{
    match v {
        ValueModel::List(items) => {
            lemma_items_back(d, items, items.len());
            assert(items.take(items.len() as int) =~= items);
        },
        ValueModel::Object(pairs) => {
            lemma_pairs_back(d, pairs, pairs.len());
            assert(pairs.take(pairs.len() as int) =~= pairs);
        },
        _ => {},
    }
}

/// The document of a vector.
pub open spec fn vector_out(v: Seq<u32>) -> JsonModel {
    JsonModel::Array(Seq::new(v.len(), |i: int| single_out(v[i])))
}

fn vector_to_json(v: &Vec<u32>) -> (r: Json)
    ensures
        r.deep_view() == vector_out(v@),
{
    let mut out: Vec<Json> = Vec::new();
    let mut i: usize = 0;
    while i < v.len()
        invariant
            i <= v@.len(),
            out@.len() == i,
            forall|k: int| 0 <= k < i ==> (#[trigger] out@[k]).deep_view() == single_out(v@[k]),
        decreases v@.len() - i,
    {
        out.push(single_value(v[i]));
        i += 1;
    }
    proof {
        lemma_array_view(out);
        assert(out.deep_view() =~= vector_out(v@)->Array_0);
    }
    Json::Array(out)
}

proof fn lemma_singles_back(v: Seq<u32>, n: nat)
    requires
        n <= v.len(),
        forall|i: int| 0 <= i < v.len() ==> single_is_finite(#[trigger] v[i]),
    ensures
        singles_json(vector_out(v)->Array_0, n) == Some(v.take(n as int)),
    decreases n,
{
    if n == 0 {
        assert(v.take(0) =~= Seq::<u32>::empty());
    } else {
        lemma_singles_back(v, (n - 1) as nat);
        law_widened_narrowed(v[n - 1]);
        assert(v.take(n as int) =~= v.take(n - 1).push(v[n - 1]));
    }
}

/// A vector of finite numbers is read back from its document.
pub proof fn law_vector_json(d: Dialect, label: Seq<char>, v: Seq<u32>)
    requires
        forall|i: int| 0 <= i < v.len() ==> single_is_finite(#[trigger] v[i]),
    ensures
        vector_json(d, label, vector_out(v)) == Ok::<Seq<u32>, Seq<char>>(v),
{
    lemma_singles_back(v, v.len());
    assert(v.take(v.len() as int) =~= v);
}

/// The document of metadata.
pub open spec fn metadata_out(pairs: Seq<(Seq<char>, ValueModel)>) -> JsonModel {
    JsonModel::Object(Seq::new(pairs.len(), |i: int| (pairs[i].0, value_out(pairs[i].1))))
}

/// The document of metadata.
pub fn metadata_to_json(metadata: &Metadata) -> (r: Json)
    ensures
        r.deep_view() == metadata_out(metadata.pairs()),
{
    let ghost all = metadata.pairs();
    let mut out: Vec<(String, Json)> = Vec::new();
    let mut i: usize = 0;
    while i < metadata.len()
        invariant
            all == metadata.pairs(),
            i <= all.len(),
            out@.len() == i,
            forall|k: int|
                0 <= k < i ==> (#[trigger] out@[k]).deep_view() == (all[k].0, value_out(all[k].1)),
        decreases all.len() - i,
    {
        out.push((metadata.key_at(i).duplicate(), metadata_value_to_json(metadata.value_at(i))));
        i += 1;
    }
    proof {
        lemma_object_view(out);
        assert(out.deep_view() =~= metadata_out(all)->Object_0);
    }
    Json::Object(out)
}

/// The document of numbers by name.
pub open spec fn weights_out(pairs: Seq<(Seq<char>, u32)>) -> JsonModel {
    JsonModel::Object(Seq::new(pairs.len(), |i: int| (pairs[i].0, single_out(pairs[i].1))))
}

/// The document of a sparse vector.
pub fn sparse_to_json(sparse: &SparseVector) -> (r: Json)
    ensures
        r.deep_view() == weights_out(sparse.pairs()),
{
    let ghost all = sparse.pairs();
    let mut out: Vec<(String, Json)> = Vec::new();
    let mut i: usize = 0;
    while i < sparse.len()
        invariant
            all == sparse.pairs(),
            i <= all.len(),
            out@.len() == i,
            forall|k: int|
                0 <= k < i ==> (#[trigger] out@[k]).deep_view() == (all[k].0, single_out(all[k].1)),
        decreases all.len() - i,
    {
        out.push((sparse.key_at(i).duplicate(), single_value(*sparse.value_at(i))));
        i += 1;
    }
    proof {
        lemma_object_view(out);
        assert(out.deep_view() =~= weights_out(all)->Object_0);
    }
    Json::Object(out)
}

/// The document of vectors by name.
pub open spec fn named_out(pairs: Seq<(Seq<char>, Seq<u32>)>) -> JsonModel {
    JsonModel::Object(Seq::new(pairs.len(), |i: int| (pairs[i].0, vector_out(pairs[i].1))))
}

/// The document of vectors by name.
pub fn named_vectors_to_json(vectors: &NamedVectors) -> (r: Json)
    ensures
        r.deep_view() == named_out(vectors.pairs()),
{
    let ghost all = vectors.pairs();
    let mut out: Vec<(String, Json)> = Vec::new();
    let mut i: usize = 0;
    while i < vectors.len()
        invariant
            all == vectors.pairs(),
            i <= all.len(),
            out@.len() == i,
            forall|k: int|
                0 <= k < i ==> (#[trigger] out@[k]).deep_view() == (all[k].0, vector_out(all[k].1)),
        decreases all.len() - i,
    {
        let v = vectors.value_at(i);
        proof {
            assert(v.deep_view() =~= v@);
        }
        out.push((vectors.key_at(i).duplicate(), vector_to_json(v)));
        i += 1;
    }
    proof {
        lemma_object_view(out);
        assert(out.deep_view() =~= named_out(all)->Object_0);
    }
    Json::Object(out)
}

/// The document of token vectors.
pub open spec fn tokens_out(tokens: Seq<Seq<u32>>) -> JsonModel {
    JsonModel::Array(Seq::new(tokens.len(), |i: int| vector_out(tokens[i])))
}

/// The document of token vectors by space.
pub open spec fn spaces_out(pairs: Seq<(Seq<char>, Seq<Seq<u32>>)>) -> JsonModel {
    JsonModel::Object(Seq::new(pairs.len(), |i: int| (pairs[i].0, tokens_out(pairs[i].1))))
}

fn tokens_to_json(tokens: &Vec<Vec<u32>>) -> (r: Json)
    ensures
        r.deep_view() == tokens_out(tokens.deep_view()),
{
    let mut out: Vec<Json> = Vec::new();
    let mut i: usize = 0;
    while i < tokens.len()
        invariant
            i <= tokens@.len(),
            out@.len() == i,
            forall|k: int|
                0 <= k < i ==> (#[trigger] out@[k]).deep_view() == vector_out(
                    tokens.deep_view()[k],
                ),
        decreases tokens@.len() - i,
    {
        proof {
            assert(tokens.deep_view()[i as int] =~= tokens@[i as int]@);
        }
        out.push(vector_to_json(&tokens[i]));
        i += 1;
    }
    proof {
        lemma_array_view(out);
        assert(out.deep_view() =~= tokens_out(tokens.deep_view())->Array_0);
    }
    Json::Array(out)
}

/// The document of token vectors by space.
pub fn multi_vectors_to_json(vectors: &MultiVectors) -> (r: Json)
    ensures
        r.deep_view() == spaces_out(vectors.pairs()),
{
    let ghost all = vectors.pairs();
    let mut out: Vec<(String, Json)> = Vec::new();
    let mut i: usize = 0;
    while i < vectors.len()
        invariant
            all == vectors.pairs(),
            i <= all.len(),
            out@.len() == i,
            forall|k: int|
                0 <= k < i ==> (#[trigger] out@[k]).deep_view() == (all[k].0, tokens_out(all[k].1)),
        decreases all.len() - i,
    {
        out.push((vectors.key_at(i).duplicate(), tokens_to_json(vectors.value_at(i))));
        i += 1;
    }
    proof {
        lemma_object_view(out);
        assert(out.deep_view() =~= spaces_out(all)->Object_0);
    }
    Json::Object(out)
}

/// The document of a text that may be missing.
pub open spec fn text_out(s: Option<Seq<char>>) -> JsonModel {
    match s {
        Some(x) => JsonModel::Text(x),
        None => JsonModel::Null,
    }
}

/// The document of a size that may be missing.
pub open spec fn size_out(n: Option<usize>) -> JsonModel {
    match n {
        Some(x) => natural_out(x as u64),
        None => JsonModel::Null,
    }
}

/// The document of a time that may be missing.
pub open spec fn time_out(t: Option<u64>) -> JsonModel {
    match t {
        Some(x) => double_out(x),
        None => JsonModel::Null,
    }
}

/// The document of a record.
pub open spec fn record_out(m: RecordModel) -> JsonModel {
    JsonModel::Object(
        seq![
            ("expires_at"@, time_out(m.expires_at)),
            ("id"@, JsonModel::Text(m.id)),
            ("metadata"@, metadata_out(m.metadata)),
            ("multi_vectors"@, spaces_out(m.multi_vectors)),
            ("namespace"@, JsonModel::Text(m.namespace)),
            ("sparse"@, weights_out(m.sparse)),
            ("vector"@, vector_out(m.vector)),
            ("vectors"@, named_out(m.vectors)),
        ],
    )
}

fn put(out: &mut Vec<(String, Json)>, key: &str, value: Json)
    ensures
        final(out).deep_view() == old(out).deep_view().push((key@, value.deep_view())),
{
    let ghost before = out.deep_view();
    out.push((key.to_owned(), value));
    proof {
        assert(out.deep_view() =~= before.push((key@, value.deep_view())));
    }
}

fn time_to_json(t: Option<u64>) -> (r: Json)
    ensures
        r.deep_view() == time_out(t),
{
    match t {
        Some(x) => float_value(x),
        None => Json::Null,
    }
}

fn text_to_json(s: &Option<String>) -> (r: Json)
    ensures
        r.deep_view() == text_out(s.deep_view()),
{
    match s {
        Some(x) => Json::Text(x.duplicate()),
        None => Json::Null,
    }
}

fn size_to_json(n: Option<usize>) -> (r: Json)
    ensures
        r.deep_view() == size_out(n),
{
    match n {
        Some(x) => natural_number(x as u64),
        None => Json::Null,
    }
}

/// The document of a record.
pub fn record_to_json(record: &Record) -> (r: Json)
    ensures
        r.deep_view() == record_out(record@),
{
    let mut out: Vec<(String, Json)> = Vec::new();
    proof {
        assert(out.deep_view() =~= Seq::<(Seq<char>, JsonModel)>::empty());
        assert(record.vector.deep_view() =~= record.vector@);
    }
    put(&mut out, "expires_at", time_to_json(record.expires_at));
    put(&mut out, "id", Json::Text(record.id.duplicate()));
    put(&mut out, "metadata", metadata_to_json(&record.metadata));
    put(&mut out, "multi_vectors", multi_vectors_to_json(&record.multi_vectors));
    put(&mut out, "namespace", Json::Text(record.namespace.duplicate()));
    put(&mut out, "sparse", sparse_to_json(&record.sparse));
    put(&mut out, "vector", vector_to_json(&record.vector));
    put(&mut out, "vectors", named_vectors_to_json(&record.vectors));
    proof {
        lemma_object_view(out);
        assert(out.deep_view() =~= record_out(record@)->Object_0);
    }
    Json::Object(out)
}

/// The document of texts.
pub open spec fn texts_out(list: Seq<Seq<char>>) -> JsonModel {
    JsonModel::Array(Seq::new(list.len(), |i: int| JsonModel::Text(list[i])))
}

fn texts_to_json(list: &Vec<String>) -> (r: Json)
    ensures
        r.deep_view() == texts_out(list.deep_view()),
{
    let mut out: Vec<Json> = Vec::new();
    let mut i: usize = 0;
    while i < list.len()
        invariant
            i <= list@.len(),
            out@.len() == i,
            forall|k: int|
                0 <= k < i ==> (#[trigger] out@[k]).deep_view() == JsonModel::Text(list@[k]@),
        decreases list@.len() - i,
    {
        out.push(Json::Text(list[i].duplicate()));
        i += 1;
    }
    proof {
        lemma_array_view(out);
        assert(out.deep_view() =~= texts_out(list.deep_view())->Array_0);
    }
    Json::Array(out)
}

/// How a result came about.
pub open spec fn explanation_out(r: SearchResult, fusion: Seq<char>) -> JsonModel {
    JsonModel::Object(
        seq![
            ("bm25_term_scores"@, weights_out(r.bm25_term_scores.pairs())),
            ("dense_rank"@, size_out(r.dense_rank)),
            ("dense_score"@, single_out(r.dense_score)),
            ("fusion"@, JsonModel::Text(fusion)),
            ("matched_terms"@, texts_out(r.matched_terms.deep_view())),
            ("sparse_rank"@, size_out(r.sparse_rank)),
            ("sparse_score"@, single_out(r.sparse_score)),
            ("vector_name"@, text_out(r.vector_name.deep_view())),
        ],
    )
}

/// The fields of a result that are always there, `explain` put in its place where it is wanted.
pub open spec fn result_out(r: SearchResult, explain: bool, fusion: Seq<char>) -> JsonModel {
    let head = seq![
        ("dense_rank"@, size_out(r.dense_rank)),
        ("dense_score"@, single_out(r.dense_score)),
    ];
    let middle = if explain {
        seq![("explain"@, explanation_out(r, fusion))]
    } else {
        Seq::empty()
    };
    let tail = seq![
        ("id"@, JsonModel::Text(r.id@)),
        ("matched_terms"@, texts_out(r.matched_terms.deep_view())),
        ("metadata"@, metadata_out(r.metadata.pairs())),
        ("namespace"@, JsonModel::Text(r.namespace@)),
        ("score"@, single_out(r.score)),
        ("sparse_rank"@, size_out(r.sparse_rank)),
        ("sparse_score"@, single_out(r.sparse_score)),
        ("vector_name"@, text_out(r.vector_name.deep_view())),
    ];
    JsonModel::Object(head + middle + tail)
}

fn explanation_to_json(r: &SearchResult, fusion: &str) -> (j: Json)
    ensures
        j.deep_view() == explanation_out(*r, fusion@),
{
    let mut out: Vec<(String, Json)> = Vec::new();
    proof {
        assert(out.deep_view() =~= Seq::<(Seq<char>, JsonModel)>::empty());
    }
    put(&mut out, "bm25_term_scores", sparse_to_json(&r.bm25_term_scores));
    put(&mut out, "dense_rank", size_to_json(r.dense_rank));
    put(&mut out, "dense_score", single_value(r.dense_score));
    put(&mut out, "fusion", Json::Text(fusion.to_owned()));
    put(&mut out, "matched_terms", texts_to_json(&r.matched_terms));
    put(&mut out, "sparse_rank", size_to_json(r.sparse_rank));
    put(&mut out, "sparse_score", single_value(r.sparse_score));
    put(&mut out, "vector_name", text_to_json(&r.vector_name));
    proof {
        lemma_object_view(out);
        assert(out.deep_view() =~= explanation_out(*r, fusion@)->Object_0);
    }
    Json::Object(out)
}

/// The document of a search result.
pub fn search_result_to_json(r: &SearchResult, explain: bool, fusion: &str) -> (j: Json)
    ensures
        j.deep_view() == result_out(*r, explain, fusion@),
{
    let mut out: Vec<(String, Json)> = Vec::new();
    proof {
        assert(out.deep_view() =~= Seq::<(Seq<char>, JsonModel)>::empty());
    }
    put(&mut out, "dense_rank", size_to_json(r.dense_rank));
    put(&mut out, "dense_score", single_value(r.dense_score));
    if explain {
        put(&mut out, "explain", explanation_to_json(r, fusion));
    }
    put(&mut out, "id", Json::Text(r.id.duplicate()));
    put(&mut out, "matched_terms", texts_to_json(&r.matched_terms));
    put(&mut out, "metadata", metadata_to_json(&r.metadata));
    put(&mut out, "namespace", Json::Text(r.namespace.duplicate()));
    put(&mut out, "score", single_value(r.score));
    put(&mut out, "sparse_rank", size_to_json(r.sparse_rank));
    put(&mut out, "sparse_score", single_value(r.sparse_score));
    put(&mut out, "vector_name", text_to_json(&r.vector_name));
    proof {
        lemma_object_view(out);
        assert(out.deep_view() =~= result_out(*r, explain, fusion@)->Object_0);
    }
    Json::Object(out)
}

/// The document of search results.
pub open spec fn results_out(list: Seq<SearchResult>, explain: bool, fusion: Seq<char>) -> JsonModel {
    JsonModel::Array(Seq::new(list.len(), |i: int| result_out(list[i], explain, fusion)))
}

/// The document of search results.
pub fn search_results_to_json(list: &Vec<SearchResult>, explain: bool, fusion: &str) -> (r: Json)
    ensures
        r.deep_view() == results_out(list@, explain, fusion@),
{
    let mut out: Vec<Json> = Vec::new();
    let mut i: usize = 0;
    while i < list.len()
        invariant
            i <= list@.len(),
            out@.len() == i,
            forall|k: int|
                0 <= k < i ==> (#[trigger] out@[k]).deep_view() == result_out(
                    list@[k],
                    explain,
                    fusion@,
                ),
        decreases list@.len() - i,
    {
        out.push(search_result_to_json(&list[i], explain, fusion));
        i += 1;
    }
    proof {
        lemma_array_view(out);
        assert(out.deep_view() =~= results_out(list@, explain, fusion@)->Array_0);
    }
    Json::Array(out)
}

/// The document of timings.
pub open spec fn timings_out(t: crate::search_options::SearchTimings) -> JsonModel {
    JsonModel::Object(
        seq![
            ("dense_us"@, natural_out(t.dense_us)),
            ("fusion_us"@, natural_out(t.fusion_us)),
            ("sparse_us"@, natural_out(t.sparse_us)),
            ("total_us"@, natural_out(t.total_us)),
        ],
    )
}

/// The document of statistics. The generated bindings leave out what only the Node.js binding
/// shows.
pub open spec fn stats_out(d: Dialect, s: SearchStats) -> JsonModel {
    match d {
        Dialect::Node => JsonModel::Object(
            seq![
                ("ann_candidate_count"@, natural_out(s.ann_candidate_count as u64)),
                ("ann_loaded_from_disk"@, JsonModel::Bool(s.ann_loaded_from_disk)),
                ("considered_count"@, natural_out(s.considered_count as u64)),
                ("effective_dimension"@, natural_out(s.effective_dimension as u64)),
                ("exact_fallback"@, JsonModel::Bool(s.exact_fallback)),
                ("fetch_k"@, natural_out(s.fetch_k as u64)),
                ("fusion"@, JsonModel::Text(s.fusion@)),
                ("matryoshka_truncated"@, JsonModel::Bool(s.matryoshka_truncated)),
                ("mmr_applied"@, JsonModel::Bool(s.mmr_applied)),
                ("rerank_applied"@, JsonModel::Bool(false)),
                ("rerank_count"@, natural_out(0)),
                ("sparse_candidate_count"@, natural_out(s.sparse_candidate_count as u64)),
                ("timings"@, timings_out(s.timings)),
                ("used_ann"@, JsonModel::Bool(s.used_ann)),
                ("wal_entries_replayed"@, natural_out(s.wal_entries_replayed as u64)),
            ],
        ),
        Dialect::Foreign => JsonModel::Object(
            seq![
                ("ann_candidate_count"@, natural_out(s.ann_candidate_count as u64)),
                ("considered_count"@, natural_out(s.considered_count as u64)),
                ("exact_fallback"@, JsonModel::Bool(s.exact_fallback)),
                ("fetch_k"@, natural_out(s.fetch_k as u64)),
                ("fusion"@, JsonModel::Text(s.fusion@)),
                ("mmr_applied"@, JsonModel::Bool(s.mmr_applied)),
                ("sparse_candidate_count"@, natural_out(s.sparse_candidate_count as u64)),
                ("timings"@, timings_out(s.timings)),
                ("used_ann"@, JsonModel::Bool(s.used_ann)),
            ],
        ),
    }
}

fn timings_to_json(t: &crate::search_options::SearchTimings) -> (r: Json)
    ensures
        r.deep_view() == timings_out(*t),
{
    let mut out: Vec<(String, Json)> = Vec::new();
    proof {
        assert(out.deep_view() =~= Seq::<(Seq<char>, JsonModel)>::empty());
    }
    put(&mut out, "dense_us", natural_number(t.dense_us));
    put(&mut out, "fusion_us", natural_number(t.fusion_us));
    put(&mut out, "sparse_us", natural_number(t.sparse_us));
    put(&mut out, "total_us", natural_number(t.total_us));
    proof {
        lemma_object_view(out);
        assert(out.deep_view() =~= timings_out(*t)->Object_0);
    }
    Json::Object(out)
}

/// The document of statistics.
pub fn search_stats_to_json(d: Dialect, s: &SearchStats) -> (r: Json)
    ensures
        r.deep_view() == stats_out(d, *s),
{
    let mut out: Vec<(String, Json)> = Vec::new();
    proof {
        assert(out.deep_view() =~= Seq::<(Seq<char>, JsonModel)>::empty());
    }
    let full: bool = match d {
        Dialect::Node => true,
        Dialect::Foreign => false,
    };
    put(&mut out, "ann_candidate_count", natural_number(s.ann_candidate_count as u64));
    if full {
        put(&mut out, "ann_loaded_from_disk", Json::Bool(s.ann_loaded_from_disk));
    }
    put(&mut out, "considered_count", natural_number(s.considered_count as u64));
    if full {
        put(&mut out, "effective_dimension", natural_number(s.effective_dimension as u64));
    }
    put(&mut out, "exact_fallback", Json::Bool(s.exact_fallback));
    put(&mut out, "fetch_k", natural_number(s.fetch_k as u64));
    put(&mut out, "fusion", Json::Text(s.fusion.duplicate()));
    if full {
        put(&mut out, "matryoshka_truncated", Json::Bool(s.matryoshka_truncated));
    }
    put(&mut out, "mmr_applied", Json::Bool(s.mmr_applied));
    if full {
        put(&mut out, "rerank_applied", Json::Bool(false));
        put(&mut out, "rerank_count", natural_number(0));
    }
    put(&mut out, "sparse_candidate_count", natural_number(s.sparse_candidate_count as u64));
    put(&mut out, "timings", timings_to_json(&s.timings));
    put(&mut out, "used_ann", Json::Bool(s.used_ann));
    if full {
        put(&mut out, "wal_entries_replayed", natural_number(s.wal_entries_replayed as u64));
    }
    proof {
        lemma_object_view(out);
        assert(out.deep_view() =~= stats_out(d, *s)->Object_0);
    }
    Json::Object(out)
}

/// The document of a search's results and statistics.
pub fn search_outcome_to_json(outcome: &SearchOutcome, explain: bool, fusion: &str) -> (r: Json)
    ensures
        r.deep_view() == JsonModel::Object(
            seq![
                ("results"@, results_out(outcome.results@, explain, fusion@)),
                ("stats"@, stats_out(Dialect::Node, outcome.stats)),
            ],
        ),
{
    let mut out: Vec<(String, Json)> = Vec::new();
    proof {
        assert(out.deep_view() =~= Seq::<(Seq<char>, JsonModel)>::empty());
    }
    put(&mut out, "results", search_results_to_json(&outcome.results, explain, fusion));
    put(&mut out, "stats", search_stats_to_json(Dialect::Node, &outcome.stats));
    proof {
        lemma_object_view(out);
        assert(out.deep_view() =~= seq![
            ("results"@, results_out(outcome.results@, explain, fusion@)),
            ("stats"@, stats_out(Dialect::Node, outcome.stats)),
        ]);
    }
    Json::Object(out)
}

/// The document of a payload index.
pub open spec fn index_out(field: Seq<char>, kind: PayloadIndexType) -> JsonModel {
    JsonModel::Object(
        seq![("field"@, JsonModel::Text(field)), ("type"@, JsonModel::Text(index_name(kind)))],
    )
}

/// The document of a list of payload indexes.
pub fn indexes_to_json(list: &Vec<(String, PayloadIndexType)>) -> (r: Json)
    ensures
        r.deep_view() == JsonModel::Array(
            Seq::new(list@.len(), |i: int| index_out(list@[i].0@, list@[i].1)),
        ),
{
    let mut out: Vec<Json> = Vec::new();
    let mut i: usize = 0;
    while i < list.len()
        invariant
            i <= list@.len(),
            out@.len() == i,
            forall|k: int|
                0 <= k < i ==> (#[trigger] out@[k]).deep_view() == index_out(
                    list@[k].0@,
                    list@[k].1,
                ),
        decreases list@.len() - i,
    {
        let mut entry: Vec<(String, Json)> = Vec::new();
        proof {
            assert(entry.deep_view() =~= Seq::<(Seq<char>, JsonModel)>::empty());
        }
        put(&mut entry, "field", Json::Text(list[i].0.duplicate()));
        put(&mut entry, "type", Json::Text(list[i].1.name().to_owned()));
        proof {
            lemma_object_view(entry);
            assert(entry.deep_view() =~= index_out(list@[i as int].0@, list@[i as int].1)->Object_0);
        }
        out.push(Json::Object(entry));
        i += 1;
    }
    proof {
        lemma_array_view(out);
        assert(out.deep_view() =~= Seq::new(
            list@.len(),
            |i: int| index_out(list@[i].0@, list@[i].1),
        ));
    }
    Json::Array(out)
}

/// The document of a result of a search by token vectors.
pub open spec fn token_result_out(r: MultiVectorSearchResult) -> JsonModel {
    JsonModel::Object(
        seq![
            ("id"@, JsonModel::Text(r.id@)),
            ("metadata"@, metadata_out(r.metadata.pairs())),
            ("namespace"@, JsonModel::Text(r.namespace@)),
            ("score"@, single_out(r.score)),
        ],
    )
}

/// The document of the results of a search by token vectors.
pub fn token_results_to_json(list: &Vec<MultiVectorSearchResult>) -> (r: Json)
    ensures
        r.deep_view() == JsonModel::Array(
            Seq::new(list@.len(), |i: int| token_result_out(list@[i])),
        ),
{
    let mut out: Vec<Json> = Vec::new();
    let mut i: usize = 0;
    while i < list.len()
        invariant
            i <= list@.len(),
            out@.len() == i,
            forall|k: int|
                0 <= k < i ==> (#[trigger] out@[k]).deep_view() == token_result_out(list@[k]),
        decreases list@.len() - i,
    {
        let mut entry: Vec<(String, Json)> = Vec::new();
        proof {
            assert(entry.deep_view() =~= Seq::<(Seq<char>, JsonModel)>::empty());
        }
        put(&mut entry, "id", Json::Text(list[i].id.duplicate()));
        put(&mut entry, "metadata", metadata_to_json(&list[i].metadata));
        put(&mut entry, "namespace", Json::Text(list[i].namespace.duplicate()));
        put(&mut entry, "score", single_value(list[i].score));
        proof {
            lemma_object_view(entry);
            assert(entry.deep_view() =~= token_result_out(list@[i as int])->Object_0);
        }
        out.push(Json::Object(entry));
        i += 1;
    }
    proof {
        lemma_array_view(out);
        assert(out.deep_view() =~= Seq::new(list@.len(), |i: int| token_result_out(list@[i])));
    }
    Json::Array(out)
}

/// The document of records.
pub open spec fn records_out(list: Seq<RecordModel>) -> JsonModel {
    JsonModel::Array(Seq::new(list.len(), |i: int| record_out(list[i])))
}

/// The document of records.
pub fn records_to_json(list: &Vec<&Record>) -> (r: Json)
    ensures
        r.deep_view() == records_out(Seq::new(list@.len(), |i: int| list@[i]@)),
{
    let mut out: Vec<Json> = Vec::new();
    let mut i: usize = 0;
    while i < list.len()
        invariant
            i <= list@.len(),
            out@.len() == i,
            forall|k: int|
                0 <= k < i ==> (#[trigger] out@[k]).deep_view() == record_out(list@[k]@),
        decreases list@.len() - i,
    {
        out.push(record_to_json(list[i]));
        i += 1;
    }
    proof {
        lemma_array_view(out);
        assert(out.deep_view() =~= records_out(
            Seq::new(list@.len(), |i: int| list@[i]@),
        )->Array_0);
    }
    Json::Array(out)
}

/// The document of a page of records with the place where the next one starts.
pub fn page_to_json(list: &Vec<&Record>, cursor: &Option<String>) -> (r: Json)
    ensures
        r.deep_view() == JsonModel::Object(
            seq![
                ("cursor"@, text_out(cursor.deep_view())),
                ("records"@, records_out(Seq::new(list@.len(), |i: int| list@[i]@))),
            ],
        ),
{
    let mut out: Vec<(String, Json)> = Vec::new();
    proof {
        assert(out.deep_view() =~= Seq::<(Seq<char>, JsonModel)>::empty());
    }
    put(&mut out, "cursor", text_to_json(cursor));
    put(&mut out, "records", records_to_json(list));
    proof {
        lemma_object_view(out);
        assert(out.deep_view() =~= seq![
            ("cursor"@, text_out(cursor.deep_view())),
            ("records"@, records_out(Seq::new(list@.len(), |i: int| list@[i]@))),
        ]);
    }
    Json::Object(out)
}

} // verus!
