//! Requests about token vectors in JSON.
use vstd::prelude::*;
use crate::error::{failure_text, Failure};
use crate::filter_model::FilterModel;
use crate::json::{
    entry_of, find_entry, json_read, lemma_array_view, lemma_object_view, read_json, Json,
    JsonModel,
};
use crate::json_filter::{filter_json, json_to_filter};
use crate::json_records::{entry_text, read_text_entry, Entries};
use crate::json_search::{loose_size, read_loose_size};
use crate::json_values::{agrees_with, json_to_metadata, metadata_document, Dialect};
use crate::json_vectors::{
    json_to_multi_vectors, json_to_single, lemma_singles_fail, singles_json, spaces_json,
};
use crate::metadata::{Metadata, ValueModel};
use crate::order::same_text;
use crate::ordered_map::OrderedMap;
use crate::payload_index::opt_text;
use crate::quantization::{MultiVectorQuantizationConfig, TwoBitQuantizationConfig};
use crate::record::MultiVectors;
use crate::search_options::MultiVectorSearchOptions;
use crate::text::{concat2, concat3};

verus! {

/// The words of an error about the format.
pub open spec fn format_message(m: Seq<char>) -> Seq<char> {
    failure_text(Failure::InvalidFormat(m))
}

fn format_error(m: &str) -> (r: String)
    ensures
        r@ == format_message(m@),
{
    concat2("invalid .vdb format: ", m)
}

/// The token vector of a document.
pub open spec fn token_of(j: JsonModel) -> Result<Seq<u32>, Seq<char>> {
    match j {
        JsonModel::Array(items) => match singles_json(items, items.len()) {
            Some(v) => Ok(v),
            None => Err(format_message("token values must be numbers"@)),
        },
        _ => Err(format_message("each query token must be an array of numbers"@)),
    }
}

/// The token vectors of the first `n` items.
pub open spec fn tokens_of(items: Seq<JsonModel>, n: nat) -> Result<Seq<Seq<u32>>, Seq<char>>
    decreases n,
{
    if n == 0 || n > items.len() {
        Ok(Seq::empty())
    } else {
        match tokens_of(items, (n - 1) as nat) {
            Err(m) => Err(m),
            Ok(v) => match token_of(items[n - 1]) {
                Err(m) => Err(m),
                Ok(x) => Ok(v.push(x)),
            },
        }
    }
}

/// The token vectors of a query.
pub open spec fn query_tokens(text: Seq<char>) -> Result<Seq<Seq<u32>>, Seq<char>> {
    match json_read(text) {
        Err(m) => Err(format_message(m)),
        Ok(JsonModel::Array(items)) => tokens_of(items, items.len()),
        Ok(_) => Err(format_message("query_tokens must be a JSON array of arrays"@)),
    }
}

proof fn lemma_tokens_fail(items: Seq<JsonModel>, k: nat, n: nat)
    requires
        k <= n <= items.len(),
        tokens_of(items, k) is Err,
    ensures
        tokens_of(items, n) == tokens_of(items, k),
    decreases n - k,
{
    if k < n {
        lemma_tokens_fail(items, k, (n - 1) as nat);
    }
}

fn read_token(j: &Json) -> (r: Result<Vec<u32>, String>)
    ensures
        agrees_with(r, token_of(j.deep_view())),
{
    match j {
        Json::Array(items) => {
            let ghost all = items.deep_view();
            let mut out: Vec<u32> = Vec::new();
            let mut i: usize = 0;
            proof {
                lemma_array_view(*items);
            }
            while i < items.len()
                invariant
                    j.deep_view() == JsonModel::Array(all),
                    i <= items@.len(),
                    all == items.deep_view(),
                    singles_json(all, i as nat) == Some(out@),
                decreases items@.len() - i,
            {
                proof {
                    assert(all[i as int] == items@[i as int].deep_view());
                }
                match json_to_single(&items[i]) {
                    Some(x) => {
                        out.push(x);
                    },
                    None => {
                        proof {
                            lemma_singles_fail(all, (i + 1) as nat, all.len());
                        }
                        return Err(format_error("token values must be numbers"));
                    },
                }
                i += 1;
            }
            proof {
                assert(out.deep_view() =~= out@);
            }
            Ok(out)
        },
        _ => Err(format_error("each query token must be an array of numbers")),
    }
}

/// The token vectors of a query.
pub fn parse_query_tokens(text: &str) -> (r: Result<Vec<Vec<u32>>, String>)
    ensures
        agrees_with(r, query_tokens(text@)),
{
    let j = match read_json(text) {
        Ok(j) => j,
        Err(m) => {
            return Err(format_error(m.as_str()));
        },
    };
    match &j {
        Json::Array(items) => {
            let ghost all = items.deep_view();
            let mut out: Vec<Vec<u32>> = Vec::new();
            let mut i: usize = 0;
            proof {
                lemma_array_view(*items);
                assert(out.deep_view() =~= Seq::<Seq<u32>>::empty());
            }
            while i < items.len()
                invariant
                    json_read(text@) == Ok::<JsonModel, Seq<char>>(JsonModel::Array(all)),
                    i <= items@.len(),
                    all == items.deep_view(),
                    tokens_of(all, i as nat) == Ok::<Seq<Seq<u32>>, Seq<char>>(out.deep_view()),
                decreases items@.len() - i,
            {
                let ghost before = out.deep_view();
                proof {
                    assert(all[i as int] == items@[i as int].deep_view());
                    if tokens_of(all, (i + 1) as nat) is Err {
                        lemma_tokens_fail(all, (i + 1) as nat, all.len());
                    }
                }
                match read_token(&items[i]) {
                    Ok(v) => {
                        out.push(v);
                        proof {
                            assert(out.deep_view() =~= before.push(v.deep_view()));
                        }
                    },
                    Err(m) => {
                        return Err(m);
                    },
                }
                i += 1;
            }
            Ok(out)
        },
        _ => Err(format_error("query_tokens must be a JSON array of arrays")),
    }
}

/// The entries of a document that may be missing; what is no object has none.
pub open spec fn entries_of(text: Option<Seq<char>>) -> Result<Entries, Seq<char>> {
    match text {
        None => Ok(Seq::empty()),
        Some(s) => match json_read(s) {
            Err(m) => Err(format_message(m)),
            Ok(JsonModel::Object(e)) => Ok(e),
            Ok(_) => Ok(Seq::empty()),
        },
    }
}

fn read_entries(text: Option<&str>) -> (r: Result<Vec<(String, Json)>, String>)
    ensures
        agrees_with(r, entries_of(opt_text(text))),
{
    let none: Vec<(String, Json)> = Vec::new();
    proof {
        assert(none.deep_view() =~= Seq::<(Seq<char>, JsonModel)>::empty());
    }
    match text {
        None => Ok(none),
        Some(s) => match read_json(s) {
            Err(m) => Err(format_error(m.as_str())),
            Ok(Json::Object(e)) => {
                proof {
                    lemma_object_view(e);
                }
                Ok(e)
            },
            Ok(_) => Ok(none),
        },
    }
}

/// The filter of the options of a search.
pub open spec fn token_filter(e: Entries) -> Result<Option<FilterModel>, Seq<char>> {
    match entry_of(e, "filter"@) {
        None => Ok(None),
        Some(j) => match filter_json(Dialect::Node, j) {
            Err(m) => Err(m),
            Ok(f) => Ok(Some(f)),
        },
    }
}

/// The options of a search by token vectors: how many results, a filter and a namespace.
pub fn parse_token_search_options(text: Option<&str>) -> (r: Result<
    MultiVectorSearchOptions,
    String,
>)
    ensures
        match entries_of(opt_text(text)) {
            Err(m) => r matches Err(x) && x@ == m,
            Ok(e) => match token_filter(e) {
                Err(m) => r matches Err(x) && x@ == m,
                Ok(f) => r matches Ok(o) && o.filter.deep_view() == f && o.namespace.deep_view()
                    == entry_text(e, "namespace"@) && o.top_k == (match loose_size(e, "k"@, "k"@) {
                    Some(k) => k,
                    None => 10,
                }),
            },
        },
{
    let e = match read_entries(text) {
        Ok(e) => e,
        Err(m) => {
            return Err(m);
        },
    };
    let filter = match find_entry(&e, "filter") {
        None => None,
        Some(j) => match json_to_filter(Dialect::Node, j) {
            Ok(f) => Some(f),
            Err(m) => {
                return Err(m);
            },
        },
    };
    let top_k: usize = match read_loose_size(&e, "k", "k") {
        Some(k) => k,
        None => 10,
    };
    Ok(MultiVectorSearchOptions { top_k, filter, namespace: read_text_entry(&e, "namespace") })
}

/// The metadata of the options of a record with token vectors.
pub open spec fn token_metadata(e: Entries) -> Result<Seq<(Seq<char>, ValueModel)>, Seq<char>> {
    match entry_of(e, "metadata"@) {
        None => Ok(Seq::empty()),
        Some(j) => metadata_document(Dialect::Node, j),
    }
}

/// The metadata and the namespace of a record with token vectors.
pub fn parse_token_record_options(text: Option<&str>) -> (r: Result<(Metadata, String), String>)
    ensures
        match entries_of(opt_text(text)) {
            Err(m) => r matches Err(x) && x@ == m,
            Ok(e) => match token_metadata(e) {
                Err(m) => r matches Err(x) && x@ == m,
                Ok(p) => r matches Ok(x) && x.0.pairs() == p && x.1@ == (match entry_text(
                    e,
                    "namespace"@,
                ) {
                    Some(s) => s,
                    None => Seq::empty(),
                }),
            },
        },
{
    let e = match read_entries(text) {
        Ok(e) => e,
        Err(m) => {
            return Err(m);
        },
    };
    let metadata = match find_entry(&e, "metadata") {
        None => OrderedMap::new(),
        Some(j) => match json_to_metadata(Dialect::Node, j) {
            Ok(x) => x,
            Err(m) => {
                return Err(m);
            },
        },
    };
    let namespace = match read_text_entry(&e, "namespace") {
        Some(s) => s,
        None => String::new(),
    };
    proof {
        assert(metadata.pairs() =~= token_metadata(e.deep_view())->Ok_0);
        assert(namespace@ =~= (match entry_text(e.deep_view(), "namespace"@) {
            Some(s) => s,
            None => Seq::empty(),
        }));
    }
    Ok((metadata, namespace))
}

/// The spaces of token vectors of a text.
pub fn parse_multi_vectors_json(text: &str) -> (r: Result<MultiVectors, String>)
    ensures
        match json_read(text@) {
            Err(m) => r matches Err(x) && x@ == format_message(m),
            Ok(j) => match spaces_json(j) {
                Ok(p) => r matches Ok(x) && x.pairs() == p,
                Err(m) => r matches Err(x) && x@ == m,
            },
        },
{
    match read_json(text) {
        Err(m) => Err(format_error(m.as_str())),
        Ok(j) => json_to_multi_vectors(&j),
    }
}

/// The quantization of token vectors by a method.
pub open spec fn token_quantization(method: Seq<char>, rescore: Option<usize>) -> Result<
    MultiVectorQuantizationConfig,
    Seq<char>,
> {
    if method == "two_bit"@ {
        Ok(
            MultiVectorQuantizationConfig::TwoBit(
                TwoBitQuantizationConfig {
                    rescore_multiplier: match rescore {
                        Some(n) => n,
                        None => 4,
                    },
                },
            ),
        )
    } else {
        Err("unknown multi-vector quantization method: "@ + method + ". Supported: two_bit"@)
    }
}

/// The quantization of token vectors by a method.
pub fn token_quantization_config(method: &str, rescore: Option<usize>) -> (r: Result<
    MultiVectorQuantizationConfig,
    String,
>)
    ensures
        match token_quantization(method@, rescore) {
            Ok(c) => r == Ok::<MultiVectorQuantizationConfig, String>(c),
            Err(m) => r matches Err(x) && x@ == m,
        },
{
    if same_text(method, "two_bit") {
        let rescore_multiplier: usize = match rescore {
            Some(n) => n,
            None => 4,
        };
        return Ok(
            MultiVectorQuantizationConfig::TwoBit(TwoBitQuantizationConfig { rescore_multiplier }),
        );
    }
    Err(
        concat3(
            "unknown multi-vector quantization method: ",
            method,
            ". Supported: two_bit",
        ),
    )
}

/// The method that an object names.
pub open spec fn token_method(e: Entries) -> Seq<char> {
    match entry_text(e, "method"@) {
        Some(s) => s,
        None => "two_bit"@,
    }
}

/// The quantization of token vectors that a text asks for.
pub fn parse_token_quantization(text: Option<&str>) -> (r: Result<
    MultiVectorQuantizationConfig,
    String,
>)
    ensures
        match entries_of(opt_text(text)) {
            Err(m) => r matches Err(x) && x@ == m,
            Ok(e) => match token_quantization(
                token_method(e),
                loose_size(e, "rescoreMultiplier"@, "rescore_multiplier"@),
            ) {
                Ok(c) => r == Ok::<MultiVectorQuantizationConfig, String>(c),
                Err(m) => r matches Err(x) && x@ == format_message(m),
            },
        },
{
    let e = match read_entries(text) {
        Ok(e) => e,
        Err(m) => {
            return Err(m);
        },
    };
    let method = match read_text_entry(&e, "method") {
        Some(s) => s,
        None => "two_bit".to_owned(),
    };
    let rescore: Option<usize> = read_loose_size(&e, "rescoreMultiplier", "rescore_multiplier");
    match token_quantization_config(method.as_str(), rescore) {
        Ok(c) => Ok(c),
        Err(m) => Err(format_error(m.as_str())),
    }
}

} // verus!
