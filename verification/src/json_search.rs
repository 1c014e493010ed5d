//! Search requests and quantization settings in JSON.
use vstd::prelude::*;
use crate::filter::MetadataFilter;
use crate::filter_model::FilterModel;
use crate::json::{entry_of, find_entry, json_read, lemma_object_view, read_json, Json, JsonModel};
use crate::json_filter::{filter_json, json_to_filter};
use crate::json_records::Entries;
use crate::json_values::{agrees_with, json_to_metadata, metadata_document, Dialect};
use crate::json_vectors::{
    json_to_named_vectors, json_to_single, json_to_sparse, json_to_vector, named_json, single_json,
    sparse_json, vector_json,
};
use crate::order::{same_text, Duplicate};
use crate::ordered_map::{insert_pair, OrderedMap};
use crate::payload_index::opt_text;
use crate::quantization::{
    default_product_num_sub_vectors, preferred_parts, BinaryQuantizationConfig,
    ProductQuantizationConfig, QuantizationConfig, ScalarQuantizationConfig,
};
use crate::metadata::Metadata;
use crate::record::{NamedVectors, SparseVector};
use crate::search_options::{FusionStrategy, HybridSearchOptions, ONE};
use crate::text::{concat2, concat3, lower_text, lowers_to};

verus! {

/// A search that was asked for.
pub struct SearchRequest {
    pub namespace: String,
    pub all_namespaces: bool,
    pub sparse: SparseVector,
    pub explain: bool,
    pub fusion_name: String,
    pub options: HybridSearchOptions,
}

/// The mathematical value of a search that was asked for.
pub struct RequestModel {
    pub namespace: Seq<char>,
    pub all_namespaces: bool,
    pub sparse: Seq<(Seq<char>, u32)>,
    pub explain: bool,
    pub fusion_name: Seq<char>,
    pub top_k: usize,
    pub filter: Option<FilterModel>,
    pub dense_weight: u32,
    pub sparse_weight: u32,
    pub fetch_k: usize,
    pub mmr_lambda: Option<u32>,
    pub vector_name: Option<Seq<char>>,
    pub fusion: FusionStrategy,
    pub truncate_dim: Option<usize>,
    pub queries: Seq<(Seq<char>, (Seq<u32>, u32))>,
}

impl DeepView for SearchRequest {
    type V = RequestModel;

    open spec fn deep_view(&self) -> RequestModel {
        RequestModel {
            namespace: self.namespace@,
            all_namespaces: self.all_namespaces,
            sparse: self.sparse.pairs(),
            explain: self.explain,
            fusion_name: self.fusion_name@,
            top_k: self.options.top_k,
            filter: self.options.filter.deep_view(),
            dense_weight: self.options.dense_weight,
            sparse_weight: self.options.sparse_weight,
            fetch_k: self.options.fetch_k,
            mmr_lambda: self.options.mmr_lambda,
            vector_name: self.options.vector_name.deep_view(),
            fusion: self.options.fusion,
            truncate_dim: self.options.truncate_dim,
            queries: self.options.multi_vector_queries.pairs(),
        }
    }
}

/// The entry of a key; a null counts as none.
pub open spec fn present(e: Entries, key: Seq<char>) -> Option<JsonModel> {
    match entry_of(e, key) {
        Some(JsonModel::Null) => None,
        other => other,
    }
}

/// The text of an entry, where there is one.
pub open spec fn text_option(e: Entries, key: Seq<char>) -> Result<Option<Seq<char>>, Seq<char>> {
    match present(e, key) {
        None => Ok(None),
        Some(JsonModel::Text(s)) => Ok(Some(s)),
        Some(_) => Err("value must be a string"@),
    }
}

/// The boolean of an entry, where there is one.
pub open spec fn bool_option(e: Entries, key: Seq<char>) -> Result<Option<bool>, Seq<char>> {
    match present(e, key) {
        None => Ok(None),
        Some(JsonModel::Bool(b)) => Ok(Some(b)),
        Some(_) => Err(key + " must be a boolean"@),
    }
}

/// The size of an entry, where there is one.
pub open spec fn size_option(e: Entries, key: Seq<char>) -> Result<Option<usize>, Seq<char>> {
    match present(e, key) {
        None => Ok(None),
        Some(j) => match natural_of(j) {
            Some(v) => Ok(Some(v as usize)),
            None => Err(key + " must be an unsigned integer"@),
        },
    }
}

/// The natural number of a document.
pub open spec fn natural_of(j: JsonModel) -> Option<u64> {
    match j {
        JsonModel::Number(n) => n.natural,
        _ => None,
    }
}

/// The single-precision number of an entry, where there is one.
pub open spec fn single_option(e: Entries, key: Seq<char>) -> Result<Option<u32>, Seq<char>> {
    match present(e, key) {
        None => Ok(None),
        Some(j) => match single_json(j) {
            Some(v) => Ok(Some(v)),
            None => Err(key + " must contain numeric values"@),
        },
    }
}

/// The filter of a request.
pub open spec fn filter_option(e: Entries) -> Result<Option<FilterModel>, Seq<char>> {
    match present(e, "filter"@) {
        None => Ok(None),
        Some(j) => match filter_json(Dialect::Node, j) {
            Ok(f) => Ok(Some(f)),
            Err(m) => Err(m),
        },
    }
}

/// The sparse vector of a request. A null is refused, as is all else that is no object.
pub open spec fn sparse_option(e: Entries) -> Result<Seq<(Seq<char>, u32)>, Seq<char>> {
    match entry_of(e, "sparse"@) {
        None => Ok(Seq::empty()),
        Some(j) => sparse_json(Dialect::Node, false, j),
    }
}

/// The strategy of a name.
pub open spec fn fusion_of(name: Seq<char>, rank_constant: usize) -> Result<
    FusionStrategy,
    Seq<char>,
> {
    if name == "linear"@ {
        Ok(FusionStrategy::Linear)
    } else if name == "rrf"@ {
        Ok(
            FusionStrategy::Rrf {
                rank_constant: if rank_constant == 0 {
                    1
                } else {
                    rank_constant
                },
            },
        )
    } else {
        Err("unsupported fusion strategy: "@ + name)
    }
}

/// The queries of the first `n` entries with their weights, which are one unless given.
pub open spec fn query_entries(
    vectors: Entries,
    weights: Option<Entries>,
    n: nat,
) -> Result<Seq<(Seq<char>, (Seq<u32>, u32))>, Seq<char>>
    decreases n,
{
    if n == 0 || n > vectors.len() {
        Ok(Seq::empty())
    } else {
        match query_entries(vectors, weights, (n - 1) as nat) {
            Err(m) => Err(m),
            Ok(v) => match query_weight(weights, vectors[n - 1].0) {
                Err(m) => Err(m),
                Ok(w) => match vector_json(Dialect::Node, "query vector"@, vectors[n - 1].1) {
                    Err(m) => Err(m),
                    Ok(x) => Ok(
                        insert_pair::<String, (Seq<u32>, u32)>(v, vectors[n - 1].0, (x, w)),
                    ),
                },
            },
        }
    }
}

/// The weight of a query.
pub open spec fn query_weight(weights: Option<Entries>, name: Seq<char>) -> Result<
    u32,
    Seq<char>,
> {
    match weights {
        None => Ok(ONE),
        Some(e) => match entry_of(e, name) {
            None => Ok(ONE),
            Some(j) => match single_json(j) {
                Some(w) => Ok(w),
                None => Err("vector weights must contain numeric values"@),
            },
        },
    }
}

/// The queries of a request by vector name.
pub open spec fn queries_option(e: Entries) -> Result<
    Seq<(Seq<char>, (Seq<u32>, u32))>,
    Seq<char>,
> {
    match entry_of(e, "queryVectors"@) {
        None => Ok(Seq::empty()),
        Some(JsonModel::Object(vectors)) => match entry_of(e, "vectorWeights"@) {
            None => query_entries(vectors, None, vectors.len()),
            Some(JsonModel::Object(weights)) => query_entries(
                vectors,
                Some(weights),
                vectors.len(),
            ),
            Some(_) => Err("vectorWeights must be a JSON object"@),
        },
        Some(_) => Err("queryVectors must be a JSON object"@),
    }
}

/// A value, or what stands for it where it is missing.
pub open spec fn or_else<A>(x: Option<A>, otherwise: A) -> A {
    match x {
        Some(a) => a,
        None => otherwise,
    }
}

/// The first error among optional parts of a request, in the order in which they are read.
pub open spec fn request_error(e: Entries) -> Option<Seq<char>> {
    let fusion_name = or_else(text_option(e, "fusion"@)->Ok_0, "linear"@);
    let rrf_k = or_else(size_option(e, "rrfK"@)->Ok_0, 60);
    if size_option(e, "k"@) is Err {
        Some(size_option(e, "k"@)->Err_0)
    } else if filter_option(e) is Err {
        Some(filter_option(e)->Err_0)
    } else if text_option(e, "namespace"@) is Err {
        Some(text_option(e, "namespace"@)->Err_0)
    } else if bool_option(e, "allNamespaces"@) is Err {
        Some(bool_option(e, "allNamespaces"@)->Err_0)
    } else if sparse_option(e) is Err {
        Some(sparse_option(e)->Err_0)
    } else if single_option(e, "denseWeight"@) is Err {
        Some(single_option(e, "denseWeight"@)->Err_0)
    } else if single_option(e, "sparseWeight"@) is Err {
        Some(single_option(e, "sparseWeight"@)->Err_0)
    } else if size_option(e, "fetchK"@) is Err {
        Some(size_option(e, "fetchK"@)->Err_0)
    } else if single_option(e, "mmrLambda"@) is Err {
        Some(single_option(e, "mmrLambda"@)->Err_0)
    } else if text_option(e, "vectorName"@) is Err {
        Some(text_option(e, "vectorName"@)->Err_0)
    } else if size_option(e, "truncateDim"@) is Err {
        Some(size_option(e, "truncateDim"@)->Err_0)
    } else if text_option(e, "fusion"@) is Err {
        Some(text_option(e, "fusion"@)->Err_0)
    } else if size_option(e, "rrfK"@) is Err {
        Some(size_option(e, "rrfK"@)->Err_0)
    } else if bool_option(e, "explain"@) is Err {
        Some(bool_option(e, "explain"@)->Err_0)
    } else if queries_option(e) is Err {
        Some(queries_option(e)->Err_0)
    } else if fusion_of(fusion_name, rrf_k) is Err {
        Some(fusion_of(fusion_name, rrf_k)->Err_0)
    } else {
        None
    }
}

/// The request of options without errors.
pub open spec fn request_of(e: Entries) -> RequestModel {
    let fusion_name = or_else(text_option(e, "fusion"@)->Ok_0, "linear"@);
    RequestModel {
        namespace: or_else(text_option(e, "namespace"@)->Ok_0, Seq::empty()),
        all_namespaces: or_else(bool_option(e, "allNamespaces"@)->Ok_0, false),
        sparse: sparse_option(e)->Ok_0,
        explain: or_else(bool_option(e, "explain"@)->Ok_0, false),
        fusion_name,
        top_k: or_else(size_option(e, "k"@)->Ok_0, 10),
        filter: filter_option(e)->Ok_0,
        dense_weight: or_else(single_option(e, "denseWeight"@)->Ok_0, ONE),
        sparse_weight: or_else(single_option(e, "sparseWeight"@)->Ok_0, ONE),
        fetch_k: or_else(size_option(e, "fetchK"@)->Ok_0, 0),
        mmr_lambda: single_option(e, "mmrLambda"@)->Ok_0,
        vector_name: text_option(e, "vectorName"@)->Ok_0,
        fusion: fusion_of(fusion_name, or_else(size_option(e, "rrfK"@)->Ok_0, 60))->Ok_0,
        truncate_dim: size_option(e, "truncateDim"@)->Ok_0,
        queries: queries_option(e)->Ok_0,
    }
}

/// The request of options.
pub open spec fn request_json(e: Entries) -> Result<RequestModel, Seq<char>> {
    match request_error(e) {
        Some(m) => Err(m),
        None => Ok(request_of(e)),
    }
}

fn find_present<'a>(e: &'a Vec<(String, Json)>, key: &str) -> (r: Option<&'a Json>)
    ensures
        match present(e.deep_view(), key@) {
            Some(m) => r matches Some(j) && j.deep_view() == m,
            None => r is None,
        },
{
    match find_entry(e, key) {
        Some(j) => match j {
            Json::Null => None,
            _ => Some(j),
        },
        None => None,
    }
}

fn get_string(e: &Vec<(String, Json)>, key: &str) -> (r: Result<Option<String>, String>)
    ensures
        agrees_with(r, text_option(e.deep_view(), key@)),
{
    match find_present(e, key) {
        None => Ok(None),
        Some(j) => match j {
            Json::Text(s) => Ok(Some(s.duplicate())),
            _ => Err("value must be a string".to_owned()),
        },
    }
}

fn get_bool(e: &Vec<(String, Json)>, key: &str) -> (r: Result<Option<bool>, String>)
    ensures
        match bool_option(e.deep_view(), key@) {
            Ok(v) => r == Ok::<Option<bool>, String>(v),
            Err(m) => r matches Err(x) && x@ == m,
        },
{
    match find_present(e, key) {
        None => Ok(None),
        Some(j) => match j {
            Json::Bool(b) => Ok(Some(*b)),
            _ => Err(concat2(key, " must be a boolean")),
        },
    }
}

fn get_usize(e: &Vec<(String, Json)>, key: &str) -> (r: Result<Option<usize>, String>)
    ensures
        match size_option(e.deep_view(), key@) {
            Ok(v) => r == Ok::<Option<usize>, String>(v),
            Err(m) => r matches Err(x) && x@ == m,
        },
{
    match find_present(e, key) {
        None => Ok(None),
        Some(j) => match read_natural(j) {
            Some(v) => Ok(Some(v as usize)),
            None => Err(concat2(key, " must be an unsigned integer")),
        },
    }
}

fn read_natural(j: &Json) -> (r: Option<u64>)
    ensures
        r == natural_of(j.deep_view()),
{
    match j {
        Json::Number(n) => n.natural,
        _ => None,
    }
}

fn get_f32(e: &Vec<(String, Json)>, key: &str) -> (r: Result<Option<u32>, String>)
    ensures
        match single_option(e.deep_view(), key@) {
            Ok(v) => r == Ok::<Option<u32>, String>(v),
            Err(m) => r matches Err(x) && x@ == m,
        },
{
    match find_present(e, key) {
        None => Ok(None),
        Some(j) => match json_to_single(j) {
            Some(v) => Ok(Some(v)),
            None => Err(concat2(key, " must contain numeric values")),
        },
    }
}

fn get_filter(e: &Vec<(String, Json)>) -> (r: Result<Option<MetadataFilter>, String>)
    ensures
        agrees_with(r, filter_option(e.deep_view())),
{
    match find_present(e, "filter") {
        None => Ok(None),
        Some(j) => match json_to_filter(Dialect::Node, j) {
            Ok(f) => Ok(Some(f)),
            Err(m) => Err(m),
        },
    }
}

fn get_sparse(e: &Vec<(String, Json)>) -> (r: Result<SparseVector, String>)
    ensures
        match sparse_option(e.deep_view()) {
            Ok(p) => r matches Ok(x) && x.pairs() == p,
            Err(m) => r matches Err(x) && x@ == m,
        },
{
    match find_entry(e, "sparse") {
        None => Ok(OrderedMap::new()),
        Some(j) => json_to_sparse(Dialect::Node, false, j),
    }
}

/// The strategy of a name.
pub fn parse_fusion(fusion: &str, rrf_k: usize) -> (r: Result<FusionStrategy, String>)
    ensures
        match fusion_of(fusion@, rrf_k) {
            Ok(v) => r == Ok::<FusionStrategy, String>(v),
            Err(m) => r matches Err(x) && x@ == m,
        },
{
    if same_text(fusion, "linear") {
        return Ok(FusionStrategy::Linear);
    }
    if same_text(fusion, "rrf") {
        return Ok(
            FusionStrategy::Rrf {
                rank_constant: if rrf_k == 0 {
                    1
                } else {
                    rrf_k
                },
            },
        );
    }
    Err(concat2("unsupported fusion strategy: ", fusion))
}

proof fn lemma_queries_fail(vectors: Entries, weights: Option<Entries>, k: nat, n: nat)
    requires
        k <= n <= vectors.len(),
        query_entries(vectors, weights, k) is Err,
    ensures
        query_entries(vectors, weights, n) == query_entries(vectors, weights, k),
    decreases n - k,
{
    if k < n {
        lemma_queries_fail(vectors, weights, k, (n - 1) as nat);
    }
}

/// The entries behind a reference that may be missing.
pub open spec fn opt_entries(e: Option<&Vec<(String, Json)>>) -> Option<Entries> {
    match e {
        Some(x) => Some(x.deep_view()),
        None => None,
    }
}

fn read_weight(weights: Option<&Vec<(String, Json)>>, name: &str) -> (r: Result<u32, String>)
    ensures
        match query_weight(opt_entries(weights), name@) {
            Ok(v) => r == Ok::<u32, String>(v),
            Err(m) => r matches Err(x) && x@ == m,
        },
{
    match weights {
        None => Ok(ONE),
        Some(e) => match find_entry(e, name) {
            None => Ok(ONE),
            Some(j) => match json_to_single(j) {
                Some(w) => Ok(w),
                None => Err("vector weights must contain numeric values".to_owned()),
            },
        },
    }
}

fn read_queries(vectors: &Vec<(String, Json)>, weights: Option<&Vec<(String, Json)>>) -> (r: Result<
    OrderedMap<String, (Vec<u32>, u32)>,
    String,
>)
    ensures
        match query_entries(vectors.deep_view(), opt_entries(weights), vectors@.len()) {
            Ok(p) => r matches Ok(x) && x.pairs() == p,
            Err(m) => r matches Err(x) && x@ == m,
        },
{
    let ghost all = vectors.deep_view();
    let ghost w = opt_entries(weights);
    let mut out: OrderedMap<String, (Vec<u32>, u32)> = OrderedMap::new();
    let mut i: usize = 0;
    while i < vectors.len()
        invariant
            i <= vectors@.len(),
            all == vectors.deep_view(),
            w == opt_entries(weights),
            query_entries(all, w, i as nat) == Ok::<
                Seq<(Seq<char>, (Seq<u32>, u32))>,
                Seq<char>,
            >(out.pairs()),
        decreases vectors@.len() - i,
    {
        proof {
            assert(all[i as int] == vectors@[i as int].deep_view());
            if query_entries(all, w, (i + 1) as nat) is Err {
                lemma_queries_fail(all, w, (i + 1) as nat, all.len());
            }
        }
        let weight: u32 = match read_weight(weights, vectors[i].0.as_str()) {
            Ok(x) => x,
            Err(m) => {
                return Err(m);
            },
        };
        match json_to_vector(Dialect::Node, "query vector", &vectors[i].1) {
            Ok(v) => {
                out.insert(vectors[i].0.duplicate(), (v, weight));
            },
            Err(m) => {
                return Err(m);
            },
        }
        i += 1;
    }
    Ok(out)
}

/// The queries of a request by vector name.
pub fn parse_multi_vector_queries(e: &Vec<(String, Json)>) -> (r: Result<
    OrderedMap<String, (Vec<u32>, u32)>,
    String,
>)
    ensures
        match queries_option(e.deep_view()) {
            Ok(p) => r matches Ok(x) && x.pairs() == p,
            Err(m) => r matches Err(x) && x@ == m,
        },
{
    let vectors = match find_entry(e, "queryVectors") {
        None => {
            return Ok(OrderedMap::new());
        },
        Some(j) => match j {
            Json::Object(v) => {
                proof {
                    lemma_object_view(*v);
                }
                v
            },
            _ => {
                return Err("queryVectors must be a JSON object".to_owned());
            },
        },
    };
    match find_entry(e, "vectorWeights") {
        None => read_queries(vectors, None),
        Some(j) => match j {
            Json::Object(w) => {
                proof {
                    lemma_object_view(*w);
                }
                read_queries(vectors, Some(w))
            },
            _ => Err("vectorWeights must be a JSON object".to_owned()),
        },
    }
}

/// The request of options.
pub fn json_to_search_request(e: &Vec<(String, Json)>) -> (r: Result<SearchRequest, String>)
    ensures
        agrees_with(r, request_json(e.deep_view())),
{
    let top_k: usize = match get_usize(e, "k") {
        Ok(v) => v.unwrap_or(10),
        Err(m) => {
            return Err(m);
        },
    };
    let filter = match get_filter(e) {
        Ok(f) => f,
        Err(m) => {
            return Err(m);
        },
    };
    let namespace = match get_string(e, "namespace") {
        Ok(Some(s)) => s,
        Ok(None) => {
            let none = String::new();
            proof {
                assert(none@ =~= Seq::<char>::empty());
            }
            none
        },
        Err(m) => {
            return Err(m);
        },
    };
    let all_namespaces: bool = match get_bool(e, "allNamespaces") {
        Ok(v) => v.unwrap_or(false),
        Err(m) => {
            return Err(m);
        },
    };
    let sparse = match get_sparse(e) {
        Ok(v) => v,
        Err(m) => {
            return Err(m);
        },
    };
    let dense_weight: u32 = match get_f32(e, "denseWeight") {
        Ok(v) => v.unwrap_or(ONE),
        Err(m) => {
            return Err(m);
        },
    };
    let sparse_weight: u32 = match get_f32(e, "sparseWeight") {
        Ok(v) => v.unwrap_or(ONE),
        Err(m) => {
            return Err(m);
        },
    };
    let fetch_k: usize = match get_usize(e, "fetchK") {
        Ok(v) => v.unwrap_or(0),
        Err(m) => {
            return Err(m);
        },
    };
    let mmr_lambda: Option<u32> = match get_f32(e, "mmrLambda") {
        Ok(v) => v,
        Err(m) => {
            return Err(m);
        },
    };
    let vector_name = match get_string(e, "vectorName") {
        Ok(v) => v,
        Err(m) => {
            return Err(m);
        },
    };
    let truncate_dim: Option<usize> = match get_usize(e, "truncateDim") {
        Ok(v) => v,
        Err(m) => {
            return Err(m);
        },
    };
    let fusion_name = match get_string(e, "fusion") {
        Ok(Some(s)) => s,
        Ok(None) => "linear".to_owned(),
        Err(m) => {
            return Err(m);
        },
    };
    let rrf_k: usize = match get_usize(e, "rrfK") {
        Ok(v) => v.unwrap_or(60),
        Err(m) => {
            return Err(m);
        },
    };
    let explain: bool = match get_bool(e, "explain") {
        Ok(v) => v.unwrap_or(false),
        Err(m) => {
            return Err(m);
        },
    };
    let multi_vector_queries = match parse_multi_vector_queries(e) {
        Ok(v) => v,
        Err(m) => {
            return Err(m);
        },
    };
    let fusion: FusionStrategy = match parse_fusion(fusion_name.as_str(), rrf_k) {
        Ok(v) => v,
        Err(m) => {
            return Err(m);
        },
    };
    Ok(
        SearchRequest {
            namespace,
            all_namespaces,
            sparse,
            explain,
            fusion_name,
            options: HybridSearchOptions {
                top_k,
                filter,
                dense_weight,
                sparse_weight,
                fetch_k,
                mmr_lambda,
                vector_name,
                fusion,
                truncate_dim,
                multi_vector_queries,
            },
        },
    )
}

/// The request of a text of options, which may be missing.
pub open spec fn request_text(text: Option<Seq<char>>) -> Result<RequestModel, Seq<char>> {
    match text {
        None => request_json(Seq::empty()),
        Some(s) => match json_read(s) {
            Err(m) => Err("invalid JSON payload: "@ + m),
            Ok(JsonModel::Null) => request_json(Seq::empty()),
            Ok(JsonModel::Object(e)) => request_json(e),
            Ok(_) => Err("search options must be a JSON object"@),
        },
    }
}

/// The request of a text of options.
pub fn parse_search_request(options_json: Option<&str>) -> (r: Result<SearchRequest, String>)
    ensures
        agrees_with(r, request_text(opt_text(options_json))),
{
    let none: Vec<(String, Json)> = Vec::new();
    proof {
        assert(none.deep_view() =~= Seq::<(Seq<char>, JsonModel)>::empty());
    }
    match options_json {
        None => json_to_search_request(&none),
        Some(s) => match read_json(s) {
            Err(m) => Err(concat2("invalid JSON payload: ", m.as_str())),
            Ok(j) => match &j {
                Json::Null => json_to_search_request(&none),
                Json::Object(e) => {
                    proof {
                        lemma_object_view(*e);
                    }
                    json_to_search_request(e)
                },
                _ => Err("search options must be a JSON object".to_owned()),
            },
        },
    }
}

/// The settings of a quantizer that may be given.
#[derive(Clone, Copy, Debug, PartialEq, Eq, Structural)]
pub struct QuantizationOptions {
    pub rescore_multiplier: Option<usize>,
    pub num_sub_vectors: Option<usize>,
    pub num_centroids: Option<usize>,
    pub training_iterations: Option<usize>,
}

/// The size of an entry under either of two keys; what is no size counts as none.
pub open spec fn loose_size(e: Entries, key: Seq<char>, other: Seq<char>) -> Option<usize> {
    let j = match entry_of(e, key) {
        Some(j) => Some(j),
        None => entry_of(e, other),
    };
    match j {
        Some(j) => match natural_of(j) {
            Some(v) => Some(v as usize),
            None => None,
        },
        None => None,
    }
}

/// The settings of an object.
pub open spec fn options_of(e: Entries) -> QuantizationOptions {
    QuantizationOptions {
        rescore_multiplier: loose_size(e, "rescoreMultiplier"@, "rescore_multiplier"@),
        num_sub_vectors: loose_size(e, "numSubVectors"@, "num_sub_vectors"@),
        num_centroids: loose_size(e, "numCentroids"@, "num_centroids"@),
        training_iterations: loose_size(e, "trainingIterations"@, "training_iterations"@),
    }
}

pub(crate) fn read_loose_size(e: &Vec<(String, Json)>, key: &str, other: &str) -> (r: Option<usize>)
    ensures
        r == loose_size(e.deep_view(), key@, other@),
{
    let found = match find_entry(e, key) {
        Some(j) => Some(j),
        None => find_entry(e, other),
    };
    match found {
        Some(j) => match read_natural(j) {
            Some(v) => Some(v as usize),
            None => None,
        },
        None => None,
    }
}

fn read_options(e: &Vec<(String, Json)>) -> (r: QuantizationOptions)
    ensures
        r == options_of(e.deep_view()),
{
    QuantizationOptions {
        rescore_multiplier: read_loose_size(e, "rescoreMultiplier", "rescore_multiplier"),
        num_sub_vectors: read_loose_size(e, "numSubVectors", "num_sub_vectors"),
        num_centroids: read_loose_size(e, "numCentroids", "num_centroids"),
        training_iterations: read_loose_size(e, "trainingIterations", "training_iterations"),
    }
}

/// How the generated bindings name the fusion of scores: anything but reciprocal ranks is linear.
pub open spec fn foreign_fusion(fusion: Option<Seq<char>>) -> FusionStrategy {
    if fusion == Some("rrf"@) {
        FusionStrategy::Rrf { rank_constant: 60 }
    } else {
        FusionStrategy::Linear
    }
}

/// The options of a search of the generated bindings. Missing weights are one.
pub fn foreign_search_options(
    k: usize,
    filter: Option<MetadataFilter>,
    fusion: Option<&str>,
    dense_weight: Option<u32>,
    sparse_weight: Option<u32>,
    mmr_lambda: Option<u32>,
) -> (r: HybridSearchOptions)
    ensures
        r.top_k == k,
        r.filter == filter,
        r.dense_weight == (match dense_weight {
            Some(w) => w,
            None => ONE,
        }),
        r.sparse_weight == (match sparse_weight {
            Some(w) => w,
            None => ONE,
        }),
        r.fetch_k == 0,
        r.mmr_lambda == mmr_lambda,
        r.vector_name is None,
        r.fusion == foreign_fusion(opt_text(fusion)),
        r.truncate_dim is None,
        r.multi_vector_queries.pairs().len() == 0,
{
    let strategy = match fusion {
        Some(name) => if same_text(name, "rrf") {
            FusionStrategy::Rrf { rank_constant: 60 }
        } else {
            FusionStrategy::Linear
        },
        None => FusionStrategy::Linear,
    };
    HybridSearchOptions {
        top_k: k,
        filter,
        dense_weight: match dense_weight {
            Some(w) => w,
            None => ONE,
        },
        sparse_weight: match sparse_weight {
            Some(w) => w,
            None => ONE,
        },
        fetch_k: 0,
        mmr_lambda,
        vector_name: None,
        fusion: strategy,
        truncate_dim: None,
        multi_vector_queries: OrderedMap::new(),
    }
}

/// The settings of a text, which may be missing. Only the Node.js binding insists on an object.
pub open spec fn options_text(d: Dialect, text: Option<Seq<char>>) -> Result<
    QuantizationOptions,
    Seq<char>,
> {
    match text {
        None => Ok(options_of(Seq::empty())),
        Some(s) => match json_read(s) {
            Err(m) => match d {
                Dialect::Node => Err("invalid quantization options JSON: "@ + m),
                Dialect::Foreign => Err(m),
            },
            Ok(JsonModel::Object(e)) => Ok(options_of(e)),
            Ok(_) => match d {
                Dialect::Node => Err("quantization options must be a JSON object"@),
                Dialect::Foreign => Ok(options_of(Seq::empty())),
            },
        },
    }
}

/// The settings of a text.
pub fn parse_quantization_options(d: Dialect, text: Option<&str>) -> (r: Result<
    QuantizationOptions,
    String,
>)
    ensures
        match options_text(d, opt_text(text)) {
            Ok(v) => r == Ok::<QuantizationOptions, String>(v),
            Err(m) => r matches Err(x) && x@ == m,
        },
{
    let none: Vec<(String, Json)> = Vec::new();
    proof {
        assert(none.deep_view() =~= Seq::<(Seq<char>, JsonModel)>::empty());
    }
    match text {
        None => Ok(read_options(&none)),
        Some(s) => match read_json(s) {
            Err(m) => match d {
                Dialect::Node => Err(
                    concat2("invalid quantization options JSON: ", m.as_str()),
                ),
                Dialect::Foreign => Err(m),
            },
            Ok(j) => match &j {
                Json::Object(e) => {
                    proof {
                        lemma_object_view(*e);
                    }
                    Ok(read_options(e))
                },
                _ => match d {
                    Dialect::Node => Err("quantization options must be a JSON object".to_owned()),
                    Dialect::Foreign => Ok(read_options(&none)),
                },
            },
        },
    }
}

/// The quantization of a method. The bindings differ in the names that they know and in what
/// stands for settings that are not given.
pub open spec fn quantization_of(
    d: Dialect,
    method: Seq<char>,
    o: QuantizationOptions,
    dimension: nat,
) -> Result<QuantizationConfig, Seq<char>> {
    match d {
        Dialect::Node => {
            let name = lower_text(method);
            if name == "scalar"@ || name == "int8"@ {
                Ok(
                    QuantizationConfig::Scalar(
                        ScalarQuantizationConfig {
                            rescore_multiplier: or_else(o.rescore_multiplier, 10),
                        },
                    ),
                )
            } else if name == "binary"@ {
                Ok(
                    QuantizationConfig::Binary(
                        BinaryQuantizationConfig {
                            rescore_multiplier: or_else(o.rescore_multiplier, 10),
                        },
                    ),
                )
            } else if name == "product"@ || name == "pq"@ {
                Ok(
                    QuantizationConfig::Product(
                        ProductQuantizationConfig {
                            num_sub_vectors: or_else(
                                o.num_sub_vectors,
                                preferred_parts(dimension) as usize,
                            ),
                            num_centroids: or_else(o.num_centroids, 256),
                            training_iterations: or_else(o.training_iterations, 20),
                            rescore_multiplier: or_else(o.rescore_multiplier, 10),
                        },
                    ),
                )
            } else {
                Err(
                    "unknown quantization method '"@ + method
                        + "'. Expected: 'scalar', 'binary', or 'pq' (alias: 'product')"@,
                )
            }
        },
        Dialect::Foreign => if method == "scalar"@ {
            Ok(
                QuantizationConfig::Scalar(
                    ScalarQuantizationConfig {
                        rescore_multiplier: or_else(o.rescore_multiplier, 4),
                    },
                ),
            )
        } else if method == "binary"@ {
            Ok(
                QuantizationConfig::Binary(
                    BinaryQuantizationConfig {
                        rescore_multiplier: or_else(o.rescore_multiplier, 10),
                    },
                ),
            )
        } else if method == "product"@ || method == "pq"@ {
            Ok(
                QuantizationConfig::Product(
                    ProductQuantizationConfig {
                        num_sub_vectors: or_else(o.num_sub_vectors, 8),
                        num_centroids: or_else(o.num_centroids, 256),
                        training_iterations: or_else(o.training_iterations, 20),
                        rescore_multiplier: or_else(o.rescore_multiplier, 4),
                    },
                ),
            )
        } else {
            Err(
                "unknown quantization method: "@ + method
                    + "; valid: scalar, binary, product (alias: pq)"@,
            )
        },
    }
}

/// The quantization of a method.
pub fn build_quantization_config(
    d: Dialect,
    method: &str,
    options: QuantizationOptions,
    dimension: usize,
) -> (r: Result<QuantizationConfig, String>)
    ensures
        match quantization_of(d, method@, options, dimension as nat) {
            Ok(v) => r == Ok::<QuantizationConfig, String>(v),
            Err(m) => r matches Err(x) && x@ == m,
        },
{
    match d {
        Dialect::Node => {
            if lowers_to(method, "scalar") || lowers_to(method, "int8") {
                return Ok(
                    QuantizationConfig::Scalar(
                        ScalarQuantizationConfig {
                            rescore_multiplier: options.rescore_multiplier.unwrap_or(10),
                        },
                    ),
                );
            }
            if lowers_to(method, "binary") {
                return Ok(
                    QuantizationConfig::Binary(
                        BinaryQuantizationConfig {
                            rescore_multiplier: options.rescore_multiplier.unwrap_or(10),
                        },
                    ),
                );
            }
            if lowers_to(method, "product") || lowers_to(method, "pq") {
                let parts: usize = match options.num_sub_vectors {
                    Some(n) => n,
                    None => default_product_num_sub_vectors(dimension),
                };
                return Ok(
                    QuantizationConfig::Product(
                        ProductQuantizationConfig {
                            num_sub_vectors: parts,
                            num_centroids: options.num_centroids.unwrap_or(256),
                            training_iterations: options.training_iterations.unwrap_or(20),
                            rescore_multiplier: options.rescore_multiplier.unwrap_or(10),
                        },
                    ),
                );
            }
            Err(
                concat3(
                    "unknown quantization method '",
                    method,
                    "'. Expected: 'scalar', 'binary', or 'pq' (alias: 'product')",
                ),
            )
        },
        Dialect::Foreign => {
            if same_text(method, "scalar") {
                return Ok(
                    QuantizationConfig::Scalar(
                        ScalarQuantizationConfig {
                            rescore_multiplier: options.rescore_multiplier.unwrap_or(4),
                        },
                    ),
                );
            }
            if same_text(method, "binary") {
                return Ok(
                    QuantizationConfig::Binary(
                        BinaryQuantizationConfig {
                            rescore_multiplier: options.rescore_multiplier.unwrap_or(10),
                        },
                    ),
                );
            }
            if same_text(method, "product") || same_text(method, "pq") {
                return Ok(
                    QuantizationConfig::Product(
                        ProductQuantizationConfig {
                            num_sub_vectors: options.num_sub_vectors.unwrap_or(8),
                            num_centroids: options.num_centroids.unwrap_or(256),
                            training_iterations: options.training_iterations.unwrap_or(20),
                            rescore_multiplier: options.rescore_multiplier.unwrap_or(4),
                        },
                    ),
                );
            }
            Err(
                concat3(
                    "unknown quantization method: ",
                    method,
                    "; valid: scalar, binary, product (alias: pq)",
                ),
            )
        },
    }
}

/// The quantization of a method and a text of settings.
pub open spec fn quantization_text(
    d: Dialect,
    method: Seq<char>,
    text: Option<Seq<char>>,
    dimension: nat,
) -> Result<QuantizationConfig, Seq<char>> {
    match options_text(d, text) {
        Err(m) => Err(m),
        Ok(o) => quantization_of(d, method, o, dimension),
    }
}

/// The quantization of a method and a text of settings.
pub fn parse_quantization_config(
    d: Dialect,
    method: &str,
    options_json: Option<&str>,
    dimension: usize,
) -> (r: Result<QuantizationConfig, String>)
    ensures
        match quantization_text(
            d,
            method@,
            opt_text(options_json),
            dimension as nat,
        ) {
            Ok(v) => r == Ok::<QuantizationConfig, String>(v),
            Err(m) => r matches Err(x) && x@ == m,
        },
{
    match parse_quantization_options(d, options_json) {
        Err(m) => Err(m),
        Ok(o) => build_quantization_config(d, method, o, dimension),
    }
}

/// The name of a quantization method.
pub open spec fn method_name(config: QuantizationConfig) -> Seq<char> {
    match config {
        QuantizationConfig::Scalar(_) => "scalar"@,
        QuantizationConfig::Binary(_) => "binary"@,
        QuantizationConfig::Product(_) => "product"@,
    }
}

/// The name of a quantization method.
pub fn quantization_method(config: &QuantizationConfig) -> (r: &'static str)
    ensures
        r@ == method_name(*config),
{
    match config {
        QuantizationConfig::Scalar(_) => "scalar",
        QuantizationConfig::Binary(_) => "binary",
        QuantizationConfig::Product(_) => "product",
    }
}

/// The document of a text that may be missing. The Node.js binding words its errors differently,
/// and takes a null for a missing text.
pub open spec fn optional_document(d: Dialect, text: Option<Seq<char>>) -> Result<
    Option<JsonModel>,
    Seq<char>,
> {
    match text {
        None => Ok(None),
        Some(s) => match json_read(s) {
            Err(m) => match d {
                Dialect::Node => Err("invalid JSON payload: "@ + m),
                Dialect::Foreign => Err(m),
            },
            Ok(j) => if d == Dialect::Node && j == JsonModel::Null {
                Ok(None)
            } else {
                Ok(Some(j))
            },
        },
    }
}

/// The document of a text that may be missing.
pub fn parse_optional_json(d: Dialect, text: Option<&str>) -> (r: Result<Option<Json>, String>)
    ensures
        agrees_with(r, optional_document(d, opt_text(text))),
{
    match text {
        None => Ok(None),
        Some(s) => match read_json(s) {
            Err(m) => match d {
                Dialect::Node => Err(concat2("invalid JSON payload: ", m.as_str())),
                Dialect::Foreign => Err(m),
            },
            Ok(j) => {
                if let (Dialect::Node, Json::Null) = (d, &j) {
                    return Ok(None);
                }
                Ok(Some(j))
            },
        },
    }
}

/// The metadata of a text that may be missing.
pub fn parse_metadata_json(d: Dialect, text: Option<&str>) -> (r: Result<Metadata, String>)
    ensures
        match optional_document(d, opt_text(text)) {
            Err(m) => r matches Err(x) && x@ == m,
            Ok(None) => r matches Ok(x) && x.pairs().len() == 0,
            Ok(Some(j)) => match metadata_document(d, j) {
                Ok(p) => r matches Ok(x) && x.pairs() == p,
                Err(m) => r matches Err(x) && x@ == m,
            },
        },
{
    match parse_optional_json(d, text) {
        Err(m) => Err(m),
        Ok(None) => Ok(OrderedMap::new()),
        Ok(Some(j)) => json_to_metadata(d, &j),
    }
}

/// The sparse vector of a text that may be missing.
pub fn parse_sparse_json(d: Dialect, text: Option<&str>) -> (r: Result<SparseVector, String>)
    ensures
        match optional_document(d, opt_text(text)) {
            Err(m) => r matches Err(x) && x@ == m,
            Ok(None) => r matches Ok(x) && x.pairs().len() == 0,
            Ok(Some(j)) => match sparse_json(d, false, j) {
                Ok(p) => r matches Ok(x) && x.pairs() == p,
                Err(m) => r matches Err(x) && x@ == m,
            },
        },
{
    match parse_optional_json(d, text) {
        Err(m) => Err(m),
        Ok(None) => Ok(OrderedMap::new()),
        Ok(Some(j)) => json_to_sparse(d, false, &j),
    }
}

/// The vectors by name of a text that may be missing.
pub fn parse_named_vectors_json(text: Option<&str>) -> (r: Result<NamedVectors, String>)
    ensures
        match optional_document(Dialect::Node, opt_text(text)) {
            Err(m) => r matches Err(x) && x@ == m,
            Ok(None) => r matches Ok(x) && x.pairs().len() == 0,
            Ok(Some(j)) => match named_json(j) {
                Ok(p) => r matches Ok(x) && x.pairs() == p,
                Err(m) => r matches Err(x) && x@ == m,
            },
        },
{
    match parse_optional_json(Dialect::Node, text) {
        Err(m) => Err(m),
        Ok(None) => Ok(OrderedMap::new()),
        Ok(Some(j)) => json_to_named_vectors(&j),
    }
}

/// The filter of a text.
pub open spec fn filter_text(d: Dialect, text: Seq<char>) -> Result<FilterModel, Seq<char>> {
    match json_read(text) {
        Err(m) => match d {
            Dialect::Node => Err("invalid filter JSON: "@ + m),
            Dialect::Foreign => Err(m),
        },
        Ok(j) => filter_json(d, j),
    }
}

/// The filter of a text.
pub fn parse_filter_json(d: Dialect, text: &str) -> (r: Result<MetadataFilter, String>)
    ensures
        agrees_with(r, filter_text(d, text@)),
{
    match read_json(text) {
        Err(m) => match d {
            Dialect::Node => Err(concat2("invalid filter JSON: ", m.as_str())),
            Dialect::Foreign => Err(m),
        },
        Ok(j) => json_to_filter(d, &j),
    }
}

} // verus!
