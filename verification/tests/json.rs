use vectlite::filter::MetadataFilter;
use vectlite::json::{find_entry, read_json, Json, JsonNumber};
use vectlite::json_filter::json_to_filter;
use vectlite::json_output::{
    indexes_to_json, metadata_to_json, metadata_value_to_json, record_to_json,
    search_result_to_json, search_stats_to_json,
};
use vectlite::json_records::{parse_operations, parse_record_batch, DraftOperation};
use vectlite::json_search::{
    parse_filter_json, parse_fusion, parse_metadata_json, parse_named_vectors_json,
    parse_quantization_config, parse_search_request, parse_sparse_json, quantization_method,
    SearchRequest,
};
use vectlite::json_text::{json_doubles, json_text};
use vectlite::json_values::{json_to_metadata, json_to_metadata_value, Dialect};
use vectlite::json_vectors::{json_to_tokens, json_to_vector};
use vectlite::metadata::{Metadata, MetadataValue};
use vectlite::ordered_map::OrderedMap;
use vectlite::payload_index::PayloadIndexType;
use vectlite::quantization::QuantizationConfig;
use vectlite::record::{MultiVectors, NamedVectors, Record, SparseVector};
use vectlite::search_options::{FusionStrategy, SearchResult, SearchStats, SearchTimings};

const BOTH: [Dialect; 2] = [Dialect::Node, Dialect::Foreign];

fn doc(text: &str) -> Json {
    match read_json(text) {
        Ok(j) => j,
        Err(m) => panic!("{m}"),
    }
}

fn entry<'a>(j: &'a Json, key: &str) -> Option<&'a Json> {
    match j {
        Json::Object(entries) => find_entry(entries, key),
        _ => None,
    }
}

fn failure<T>(r: Result<T, String>) -> String {
    match r {
        Ok(_) => panic!("this should be refused"),
        Err(m) => m,
    }
}

fn metadata(text: &str) -> Metadata {
    json_to_metadata(Dialect::Node, &doc(text)).expect("metadata")
}

#[test]
fn documents_are_read_in_key_order() {
    let j = doc("{\"b\": [1, -2, 1.5, true, null], \"a\": \"x\"}");
    match &j {
        Json::Object(entries) => {
            assert_eq!(entries.len(), 2);
            assert_eq!(entries[0].0, "a");
            assert_eq!(entries[1].0, "b");
        }
        _ => panic!("no object"),
    }
    match entry(&j, "b") {
        Some(Json::Array(items)) => {
            let one = JsonNumber {
                integer: Some(1),
                natural: Some(1),
                double: Some(1.0_f64.to_bits()),
            };
            assert!(matches!(&items[0], Json::Number(n) if *n == one));
            assert!(matches!(&items[1], Json::Number(n) if n.natural.is_none()));
            assert!(matches!(&items[2], Json::Number(n) if n.integer.is_none()));
            assert!(matches!(&items[3], Json::Bool(true)));
            assert!(matches!(&items[4], Json::Null));
        }
        _ => panic!("no array"),
    }
    assert!(entry(&j, "c").is_none());
}

#[test]
fn broken_documents_are_refused_with_a_message() {
    assert!(failure(read_json("{")).contains("EOF"));
    assert!(!failure(read_json("nope")).is_empty());
}

#[test]
fn metadata_values_keep_their_kinds() {
    for d in BOTH {
        assert!(matches!(json_to_metadata_value(d, &doc("3")), Ok(MetadataValue::Integer(3))));
        assert!(matches!(
            json_to_metadata_value(d, &doc("1.5")),
            Ok(MetadataValue::Float(b)) if b == 1.5_f64.to_bits()
        ));
        assert!(matches!(json_to_metadata_value(d, &doc("null")), Ok(MetadataValue::Null)));
        assert!(matches!(
            json_to_metadata_value(d, &doc("18446744073709551615")),
            Ok(MetadataValue::Float(_))
        ));
    }
    assert_eq!(failure(json_to_metadata(Dialect::Node, &doc("[]"))), "metadata must be a JSON object");
}

#[test]
fn metadata_survives_its_document() {
    let value = json_to_metadata_value(
        Dialect::Node,
        &doc("{\"list\": [1, 2.5, \"x\", null, true], \"map\": {\"k\": -3}}"),
    )
    .expect("a value");
    let back = json_to_metadata_value(Dialect::Node, &metadata_value_to_json(&value));
    assert!(back.expect("its document").same(&value));
    let infinite = MetadataValue::Float(f64::INFINITY.to_bits());
    assert!(matches!(metadata_value_to_json(&infinite), Json::Null));
}

#[test]
fn filters_are_read() {
    let m = metadata("{\"a\": 5, \"title\": \"auth flow\", \"tags\": [\"x\", \"y\"], \"n\": {\"k\": true}}");
    let accepts = |text: &str| {
        BOTH.iter()
            .map(|d| json_to_filter(*d, &doc(text)).expect("a filter").matches(&m))
            .all(|b| b)
    };
    assert!(accepts("{\"a\": 5}"));
    assert!(accepts("{\"a\": {\"$gt\": 4, \"$lte\": 5}}"));
    assert!(accepts("{\"a\": {\"$in\": [1, 5]}}"));
    assert!(accepts("{\"a\": {\"$nin\": [1]}}"));
    assert!(accepts("{\"$or\": [{\"a\": 1}, {\"a\": {\"$ne\": 4}}]}"));
    assert!(accepts("{\"$not\": {\"a\": 6}}"));
    assert!(accepts("{\"tags\": {\"$size\": 2}}"));
    assert!(accepts("{\"title\": {\"$contains\": \"th f\"}}"));
    assert!(accepts("{\"tags\": {\"$elemMatch\": {\"$eq\": \"y\"}}}"));
    assert!(accepts("{\"missing\": {\"$exists\": false}}"));
    assert!(accepts("{\"n.k\": true}"));
}

#[test]
fn broken_filters_are_refused() {
    let node = |text: &str| failure(json_to_filter(Dialect::Node, &doc(text)));
    let foreign = |text: &str| failure(json_to_filter(Dialect::Foreign, &doc(text)));
    assert_eq!(node("{}"), "filter cannot be empty");
    assert_eq!(foreign("{}"), "filter cannot be empty");
    assert_eq!(node("{\"a\": {}}"), "field filter cannot be empty");
    assert_eq!(foreign("{\"a\": {}}"), "filter cannot be empty");
    assert_eq!(node("{\"$and\": 1}"), "logical filter groups must be JSON arrays");
    assert_eq!(foreign("{\"$and\": 1}"), "$and must be an array");
    assert_eq!(foreign("{\"$or\": 1}"), "$or must be an array");
    assert_eq!(node("{\"a\": {\"$gt\": \"x\"}}"), "numeric filter operands must be numbers");
    assert_eq!(foreign("{\"a\": {\"$gt\": \"x\"}}"), "numeric operator expects a number");
    assert!(node("{\"a\": {\"$what\": 1}}").contains("$what"));
}

#[test]
fn vectors_are_read() {
    let v = json_to_vector(Dialect::Node, "vector", &doc("[1, 0.5, -2]")).expect("a vector");
    assert_eq!(v, vec![1.0_f32.to_bits(), 0.5_f32.to_bits(), (-2.0_f32).to_bits()]);
    assert_eq!(
        json_to_vector(Dialect::Node, "vector", &doc("[0.1, 1e-45, 1e300]")).expect("a vector"),
        vec![0.1_f32.to_bits(), 1, f32::INFINITY.to_bits()]
    );
    assert_eq!(
        failure(json_to_vector(Dialect::Node, "query", &doc("3"))),
        "query must be a JSON array of numbers"
    );
    assert_eq!(
        failure(json_to_vector(Dialect::Foreign, "query", &doc("[\"x\"]"))),
        "vector elements must be numbers"
    );
    assert_eq!(json_to_tokens(&doc("[[1], [2, 3]]")).expect("tokens").len(), 2);
}

#[test]
fn record_batches_are_read() {
    let text = "[{\"id\": \"a\", \"vector\": [1, 2], \"metadata\": {\"k\": 1}, \"ttl\": 5},\
        {\"id\": \"b\", \"vector\": [3, 4], \"namespace\": \"n\"}]";
    let drafts = parse_record_batch(Dialect::Node, text, Some("d")).expect("records");
    assert_eq!(drafts.len(), 2);
    assert_eq!(drafts[0].record.namespace, "d");
    assert_eq!(drafts[0].ttl, Some(5.0_f64.to_bits()));
    assert_eq!(drafts[1].record.namespace, "n");
    assert_eq!(drafts[1].record.vector, vec![3.0_f32.to_bits(), 4.0_f32.to_bits()]);
    assert!(failure(parse_record_batch(Dialect::Node, "{}", None)).contains("array"));
    assert!(failure(parse_record_batch(Dialect::Node, "[{\"vector\": [1]}]", None)).contains("id"));
}

#[test]
fn operations_are_read() {
    let text = "[{\"op\": \"upsert\", \"id\": \"a\", \"vector\": [1]},\
        {\"op\": \"insert\", \"id\": \"c\", \"vector\": [2]},\
        {\"op\": \"delete\", \"id\": \"b\", \"namespace\": \"n\"}]";
    let ops = parse_operations(text).expect("operations");
    assert_eq!(ops.len(), 3);
    assert!(matches!(&ops[0], DraftOperation::Upsert(d) if d.record.id == "a"));
    assert!(matches!(&ops[1], DraftOperation::Insert(d) if d.record.id == "c"));
    assert!(matches!(
        &ops[2],
        DraftOperation::Delete { namespace, id } if namespace == "n" && id == "b"
    ));
    assert_eq!(failure(parse_operations("[{\"op\": \"what\"}]")), "unknown operation type: what");
    assert_eq!(failure(parse_operations("[{}]")), "operation must have an 'op' field");
    assert_eq!(
        failure(parse_operations("[{\"op\": \"delete\"}]")),
        "delete operation must have an 'id' field"
    );
    assert_eq!(failure(parse_operations("[1]")), "each operation must be a JSON object");
    assert_eq!(failure(parse_operations("{}")), "transaction_execute expects a JSON array");
}

#[test]
fn search_requests_have_defaults() {
    let r = parse_search_request(None).expect("no options");
    assert_eq!(r.options.top_k, 10);
    assert_eq!(r.fusion_name, "linear");
    assert_eq!(r.options.dense_weight, 1.0_f32.to_bits());
    assert!(!r.all_namespaces);
    assert!(r.options.filter.is_none());
    assert!(parse_search_request(Some("null")).is_ok());
}

fn request(text: &str) -> Result<SearchRequest, String> {
    parse_search_request(Some(text))
}

#[test]
fn search_requests_are_read() {
    let r = request(
        "{\"k\": 3, \"filter\": {\"a\": 1}, \"namespace\": \"n\", \"allNamespaces\": true,\
          \"sparse\": {\"x\": 0.5}, \"denseWeight\": 2, \"fetchK\": 7, \"mmrLambda\": 0.3,\
          \"vectorName\": \"title\", \"truncateDim\": 4, \"fusion\": \"rrf\", \"rrfK\": 0,\
          \"explain\": true, \"queryVectors\": {\"t\": [1], \"u\": [2]},\
          \"vectorWeights\": {\"u\": 0.25}}",
    )
    .expect("options");
    assert_eq!(r.options.top_k, 3);
    assert!(r.options.filter.is_some());
    assert_eq!(r.namespace, "n");
    assert!(r.all_namespaces && r.explain);
    assert_eq!(r.sparse.get("x"), Some(&0.5_f32.to_bits()));
    assert_eq!(r.options.dense_weight, 2.0_f32.to_bits());
    assert_eq!(r.options.fetch_k, 7);
    assert_eq!(r.options.mmr_lambda, Some(0.3_f32.to_bits()));
    assert_eq!(r.options.vector_name.as_deref(), Some("title"));
    assert_eq!(r.options.truncate_dim, Some(4));
    assert_eq!(r.options.fusion, FusionStrategy::Rrf { rank_constant: 1 });
    let q = &r.options.multi_vector_queries;
    assert_eq!(q.get("t"), Some(&(vec![1.0_f32.to_bits()], 1.0_f32.to_bits())));
    assert_eq!(q.get("u"), Some(&(vec![2.0_f32.to_bits()], 0.25_f32.to_bits())));
}

#[test]
fn broken_search_requests_are_refused() {
    assert_eq!(failure(request("[]")), "search options must be a JSON object");
    assert!(failure(request("{")).starts_with("invalid JSON payload: "));
    assert_eq!(failure(request("{\"k\": -1}")), "k must be an unsigned integer");
    assert_eq!(failure(request("{\"namespace\": 1}")), "value must be a string");
    assert_eq!(failure(request("{\"explain\": 1}")), "explain must be a boolean");
    assert_eq!(failure(request("{\"denseWeight\": \"x\"}")), "denseWeight must contain numeric values");
    assert_eq!(failure(request("{\"sparse\": null}")), "sparse vector must be a JSON object");
    assert_eq!(failure(request("{\"fusion\": \"x\"}")), "unsupported fusion strategy: x");
    assert_eq!(failure(request("{\"queryVectors\": 1}")), "queryVectors must be a JSON object");
    assert_eq!(
        failure(request("{\"queryVectors\": {}, \"vectorWeights\": 1}")),
        "vectorWeights must be a JSON object"
    );
    assert_eq!(
        failure(request("{\"queryVectors\": {\"a\": [1]}, \"vectorWeights\": {\"a\": \"x\"}}")),
        "vector weights must contain numeric values"
    );
    assert!(matches!(parse_fusion("linear", 3), Ok(FusionStrategy::Linear)));
}

#[test]
fn quantization_settings_are_read() {
    let node = |m: &str, o: Option<&str>| parse_quantization_config(Dialect::Node, m, o, 128);
    let foreign = |m: &str, o: Option<&str>| parse_quantization_config(Dialect::Foreign, m, o, 128);
    match node("INT8", None) {
        Ok(QuantizationConfig::Scalar(c)) => assert_eq!(c.rescore_multiplier, 10),
        _ => panic!("no scalar"),
    }
    match foreign("scalar", Some("{\"rescore_multiplier\": 6}")) {
        Ok(QuantizationConfig::Scalar(c)) => assert_eq!(c.rescore_multiplier, 6),
        _ => panic!("no scalar"),
    }
    match foreign("pq", None) {
        Ok(QuantizationConfig::Product(c)) => {
            assert_eq!(c.num_sub_vectors, 8);
            assert_eq!(c.num_centroids, 256);
            assert_eq!(c.training_iterations, 20);
            assert_eq!(c.rescore_multiplier, 4);
        }
        _ => panic!("no product"),
    }
    match node("Product", Some("{\"numCentroids\": 16}")) {
        Ok(config) => assert_eq!(quantization_method(&config), "product"),
        Err(m) => panic!("{m}"),
    }
    assert_eq!(
        failure(node("x", None)),
        "unknown quantization method 'x'. Expected: 'scalar', 'binary', or 'pq' (alias: 'product')"
    );
    assert_eq!(
        failure(foreign("INT8", None)),
        "unknown quantization method: INT8; valid: scalar, binary, product (alias: pq)"
    );
    assert_eq!(failure(node("scalar", Some("[]"))), "quantization options must be a JSON object");
    assert!(failure(node("scalar", Some("{"))).starts_with("invalid quantization options JSON: "));
    assert!(foreign("scalar", Some("[]")).is_ok());
}

#[test]
fn optional_texts_are_read() {
    assert_eq!(parse_metadata_json(Dialect::Node, None).expect("none").len(), 0);
    assert_eq!(parse_metadata_json(Dialect::Node, Some("null")).expect("null").len(), 0);
    assert!(parse_metadata_json(Dialect::Foreign, Some("null")).is_err());
    assert_eq!(parse_sparse_json(Dialect::Node, Some("{\"a\": 1}")).expect("sparse").len(), 1);
    assert_eq!(
        failure(parse_sparse_json(Dialect::Foreign, Some("{\"a\": \"x\"}"))),
        "sparse weight must be a number"
    );
    assert_eq!(parse_named_vectors_json(Some("{\"t\": [1]}")).expect("vectors").len(), 1);
    assert!(parse_filter_json(Dialect::Foreign, "{\"a\": 1}").is_ok());
    assert!(parse_filter_json(Dialect::Node, "null").is_err());
}

#[test]
fn records_and_results_have_documents() {
    let mut m = Metadata::new();
    m.insert("k".to_owned(), MetadataValue::Integer(3));
    let record = Record {
        namespace: "n".to_owned(),
        id: "a".to_owned(),
        vector: vec![1.5_f32.to_bits(), f32::NAN.to_bits(), 1],
        vectors: NamedVectors::new(),
        sparse: SparseVector::new(),
        metadata: m,
        multi_vectors: MultiVectors::new(),
        expires_at: Some(7.0_f64.to_bits()),
    };
    let j = record_to_json(&record);
    assert!(matches!(entry(&j, "id"), Some(Json::Text(s)) if s == "a"));
    match entry(&j, "vector") {
        Some(Json::Array(items)) => {
            assert!(matches!(&items[0], Json::Number(n) if n.double == Some(1.5_f64.to_bits())));
            assert!(matches!(&items[1], Json::Null));
            let least = (f32::from_bits(1) as f64).to_bits();
            assert!(matches!(&items[2], Json::Number(n) if n.double == Some(least)));
        }
        _ => panic!("no vector"),
    }
    assert!(matches!(entry(&j, "expires_at"), Some(Json::Number(_))));
    assert!(matches!(metadata_to_json(&record.metadata), Json::Object(e) if e.len() == 1));

    let result = SearchResult {
        namespace: "n".to_owned(),
        id: "a".to_owned(),
        score: 1.0_f32.to_bits(),
        dense_score: 1.0_f32.to_bits(),
        sparse_score: 0,
        vector_name: None,
        matched_terms: vec!["t".to_owned()],
        dense_rank: Some(1),
        sparse_rank: None,
        metadata: Metadata::new(),
        bm25_term_scores: OrderedMap::new(),
    };
    let plain = search_result_to_json(&result, false, "linear");
    let explained = search_result_to_json(&result, true, "linear");
    assert!(entry(&plain, "explain").is_none());
    assert!(matches!(entry(&plain, "sparse_rank"), Some(Json::Null)));
    let explanation = entry(&explained, "explain").expect("an explanation");
    assert!(matches!(entry(explanation, "fusion"), Some(Json::Text(s)) if s == "linear"));
}

#[test]
fn statistics_and_indexes_have_documents() {
    let stats = SearchStats {
        used_ann: true,
        ann_candidate_count: 2,
        exact_fallback: false,
        considered_count: 3,
        fetch_k: 4,
        mmr_applied: false,
        sparse_candidate_count: 5,
        ann_loaded_from_disk: true,
        wal_entries_replayed: 6,
        fusion: "rrf".to_owned(),
        effective_dimension: 7,
        matryoshka_truncated: false,
        timings: SearchTimings { dense_us: 1, sparse_us: 2, fusion_us: 3, total_us: u64::MAX },
    };
    let node = search_stats_to_json(Dialect::Node, &stats);
    let foreign = search_stats_to_json(Dialect::Foreign, &stats);
    assert!(matches!(entry(&node, "rerank_applied"), Some(Json::Bool(false))));
    assert!(entry(&foreign, "rerank_applied").is_none());
    let timings = entry(&foreign, "timings").expect("timings");
    assert!(matches!(
        entry(timings, "total_us"),
        Some(Json::Number(n)) if n.natural == Some(u64::MAX) && n.integer.is_none()
            && n.double == Some((u64::MAX as f64).to_bits())
    ));
    let list = indexes_to_json(&vec![("f".to_owned(), PayloadIndexType::Numeric)]);
    match list {
        Json::Array(items) => {
            assert!(matches!(entry(&items[0], "type"), Some(Json::Text(s)) if s == "numeric"));
        }
        _ => panic!("no list"),
    }
}

#[test]
fn single_filters_stand_alone() {
    let filter = json_to_filter(Dialect::Node, &doc("{\"a\": 1}")).expect("a filter");
    let want = MetadataFilter::eq("a", MetadataValue::Integer(1));
    let m = metadata("{\"a\": 1}");
    assert_eq!(filter.matches(&m), want.matches(&m));
}

fn written(document: &Json) -> String {
    let numbers = json_doubles(document)
        .into_iter()
        .map(|bits| serde_json::Value::from(f64::from_bits(bits)))
        .collect();
    json_text(document, numbers).expect("a text")
}

#[test]
fn documents_are_written() {
    let number = |integer, natural, double: Option<f64>| {
        Json::Number(JsonNumber { integer, natural, double: double.map(f64::to_bits) })
    };
    assert_eq!(written(&Json::Null), "null");
    assert_eq!(written(&Json::Bool(true)), "true");
    assert_eq!(written(&Json::Text("a\"\n\u{1}".to_owned())), "\"a\\\"\\n\\u0001\"");
    assert_eq!(written(&number(Some(-7), None, Some(-7.0))), "-7");
    assert_eq!(written(&number(None, Some(u64::MAX), None)), "18446744073709551615");
    assert_eq!(written(&number(None, None, Some(-0.0))), "-0.0");
    assert_eq!(written(&number(None, None, Some(f64::NAN))), "null");
    assert_eq!(written(&number(None, None, None)), "null");
    let entries = vec![
        ("b".to_owned(), number(None, None, Some(1.5))),
        ("a".to_owned(), Json::Array(vec![number(None, None, Some(0.25)), Json::Null])),
        ("b".to_owned(), number(None, None, Some(2.5))),
    ];
    let document = Json::Object(entries);
    assert_eq!(json_doubles(&document), [1.5_f64, 0.25, 2.5].map(f64::to_bits));
    assert_eq!(written(&document), "{\"a\":[0.25,null],\"b\":2.5}");
}

#[test]
fn settled_documents_are_written_as_they_are() {
    let text = "{\"a\":[1,-2,0.5,\"x\"],\"b\":{\"c\":null,\"d\":true},\"e\":1e+100}";
    assert_eq!(written(&doc(text)), text);
    assert_eq!(written(&doc(" [ 1.0 , { } ] ")), "[1.0,{}]");
}
