use vectlite::change::WriteOperation;
use vectlite::error::VectLiteError;
use vectlite::json::Json;
use vectlite::json_output::{page_to_json, records_to_json, token_results_to_json};
use vectlite::json_records::check_ttl;
use vectlite::json_search::{foreign_search_options, parse_filter_json};
use vectlite::json_tokens::{
    parse_multi_vectors_json, parse_query_tokens, parse_token_quantization,
    parse_token_record_options, parse_token_search_options, token_quantization_config,
};
use vectlite::json_values::Dialect;
use vectlite::json_vectors::js_vector_to_core;
use vectlite::metadata::{Metadata, MetadataValue};
use vectlite::opening::{
    check_timeout, lock_refused, lock_step, plan_opening, LockStep, Opening,
};
use vectlite::ordered_map::OrderedMap;
use vectlite::python_filter::{
    extract_metadata_values, extract_numeric, parse_field_filter, parse_filter_dict,
};
use vectlite::python_values::{
    parse_metadata_dict, py_to_metadata_value, PythonError, PythonType, PythonValue,
};
use vectlite::quantization::{MultiVectorQuantizationConfig, TwoBitQuantizationConfig};
use vectlite::record::Record;
use vectlite::search_options::{FusionStrategy, MultiVectorSearchResult};
use vectlite::transaction::Transaction;

fn whole_number(i: i64) -> PythonValue {
    PythonValue::Int { small: Some(i), size: usize::try_from(i).ok() }
}

fn text(s: &str) -> PythonValue {
    PythonValue::Text(s.to_owned())
}

fn dict(entries: Vec<(&str, PythonValue)>) -> PythonValue {
    PythonValue::Dict(entries.into_iter().map(|(k, v)| (Some(k.to_owned()), v)).collect())
}

fn metadata(entries: Vec<(&str, MetadataValue)>) -> Metadata {
    let mut m = OrderedMap::new();
    for (key, value) in entries {
        m.insert(key.to_owned(), value);
    }
    m
}

fn delete(id: &str) -> WriteOperation {
    WriteOperation::Delete { namespace: String::new(), id: id.to_owned() }
}

fn deleted(operation: &WriteOperation) -> &str {
    match operation {
        WriteOperation::Delete { id, .. } => id,
        _ => panic!("expected a deletion"),
    }
}

fn record(id: &str) -> Record {
    Record {
        namespace: String::new(),
        id: id.to_owned(),
        vector: vec![1.0_f32.to_bits()],
        vectors: OrderedMap::new(),
        sparse: OrderedMap::new(),
        metadata: OrderedMap::new(),
        multi_vectors: OrderedMap::new(),
        expires_at: None,
    }
}

fn entry<'a>(document: &'a Json, key: &str) -> &'a Json {
    match document {
        Json::Object(entries) => {
            &entries.iter().find(|(k, _)| k == key).expect("an entry of that key").1
        }
        _ => panic!("expected an object"),
    }
}

fn items(document: &Json) -> &Vec<Json> {
    match document {
        Json::Array(items) => items,
        _ => panic!("expected an array"),
    }
}

#[test]
fn transactions_hand_out_what_was_staged() {
    let mut transaction = Transaction::new();
    assert_eq!(transaction.count(), 0);
    assert!(!transaction.is_closed());
    transaction.stage(delete("a")).expect("stage one");
    assert_eq!(transaction.stage_all(vec![delete("b"), delete("c")]), Ok(2));
    assert_eq!(transaction.count(), 3);
    let operations = transaction.commit();
    let ids: Vec<&str> = operations.iter().map(deleted).collect();
    assert_eq!(ids, vec!["a", "b", "c"]);
    assert!(transaction.is_closed());
    assert_eq!(transaction.count(), 0);
    assert!(transaction.commit().is_empty());
}

#[test]
fn closed_transactions_refuse_operations() {
    let mut transaction = Transaction::new();
    transaction.stage(delete("a")).expect("stage one");
    transaction.rollback();
    assert_eq!(transaction.count(), 0);
    let refusal = "transaction is already closed".to_owned();
    assert_eq!(transaction.stage(delete("b")), Err(refusal.clone()));
    assert_eq!(transaction.stage_all(vec![delete("b")]), Err(refusal));
    assert_eq!(transaction.stage_all(Vec::new()), Ok(0));
    assert!(transaction.commit().is_empty());
}

#[test]
fn databases_are_opened_as_they_are_known() {
    assert_eq!(plan_opening(true, Some(3), true), Ok(Opening::Read));
    assert_eq!(
        plan_opening(false, Some(3), true),
        Err("cannot open non-existent database in read-only mode".to_owned())
    );
    assert_eq!(plan_opening(true, Some(3), false), Ok(Opening::OpenAs(3)));
    assert_eq!(plan_opening(true, None, false), Ok(Opening::Open));
    assert_eq!(plan_opening(false, Some(3), false), Ok(Opening::Create(3)));
    assert_eq!(
        plan_opening(false, None, false),
        Err("dimension is required when creating a new database".to_owned())
    );
}

#[test]
fn errors_have_details() {
    assert_eq!(VectLiteError::Io("gone".to_owned()).detail(), "gone");
    assert_eq!(VectLiteError::InvalidFormat("bad".to_owned()).detail(), "bad");
    let mismatch = VectLiteError::DimensionMismatch { expected: 3, found: 12 };
    assert_eq!(mismatch.detail(), "expected 3, found 12");
    let plain = VectLiteError::DuplicateId { namespace: String::new(), id: "a".to_owned() };
    assert_eq!(plain.detail(), "id 'a' already exists");
    let named = VectLiteError::DuplicateId { namespace: "n".to_owned(), id: "a".to_owned() };
    assert_eq!(named.detail(), "id 'a' already exists in namespace 'n'");
    assert_eq!(VectLiteError::ReadOnly.detail(), "");
    assert_eq!(VectLiteError::LockContention("held".to_owned()).detail(), "held");
}

#[test]
fn python_objects_become_metadata() {
    let value = dict(vec![
        ("b", PythonValue::List(vec![whole_number(1), PythonValue::Float(2.5_f64.to_bits())])),
        ("a", PythonValue::Nothing),
        ("c", PythonValue::Bool(true)),
    ]);
    match py_to_metadata_value(&value) {
        Ok(MetadataValue::Object(map)) => {
            assert_eq!(map.len(), 3);
            assert_eq!(map.key_at(0), "a");
            assert!(matches!(map.get("a"), Some(MetadataValue::Null)));
            assert!(matches!(map.get("c"), Some(MetadataValue::Boolean(true))));
            match map.get("b") {
                Some(MetadataValue::List(list)) => {
                    assert!(matches!(list[0], MetadataValue::Integer(1)));
                    assert!(matches!(list[1], MetadataValue::Float(f) if f == 2.5_f64.to_bits()));
                }
                _ => panic!("expected a list"),
            }
        }
        _ => panic!("expected an object"),
    }
}

#[test]
fn python_metadata_has_its_limits() {
    let large = PythonValue::Int { small: None, size: Some(usize::MAX) };
    assert!(matches!(
        py_to_metadata_value(&large),
        Err(PythonError::Mismatch(PythonType::Integer))
    ));
    let other = PythonValue::Other { truth: None, size: None };
    match py_to_metadata_value(&PythonValue::List(vec![other])) {
        Err(PythonError::Type(m)) => assert_eq!(
            m,
            "metadata values must be str, int, float, bool, None, list, or dict"
        ),
        _ => panic!("expected a type error"),
    }
    let entries = vec![(None, PythonValue::Nothing)];
    assert!(matches!(
        parse_metadata_dict(&entries),
        Err(PythonError::Mismatch(PythonType::Text))
    ));
}

#[test]
fn python_filters_select_metadata() {
    let value = dict(vec![
        ("kind", text("doc")),
        ("size", dict(vec![("$gte", whole_number(2)), ("$lt", PythonValue::Float(4.0_f64.to_bits()))])),
        ("$or", PythonValue::List(vec![
            dict(vec![("tag", dict(vec![("$in", PythonValue::List(vec![text("x"), text("y")]))]))]),
            dict(vec![("draft", dict(vec![("$exists", PythonValue::Bool(false))]))]),
        ])),
    ]);
    let filter = match parse_filter_dict(&value) {
        Ok(filter) => filter,
        Err(_) => panic!("expected a filter"),
    };
    let doc = || ("kind", MetadataValue::String("doc".to_owned()));
    let tagged = metadata(vec![
        doc(),
        ("size", MetadataValue::Integer(3)),
        ("draft", MetadataValue::Boolean(true)),
        ("tag", MetadataValue::String("y".to_owned())),
    ]);
    assert!(filter.matches(&tagged));
    let plain = metadata(vec![doc(), ("size", MetadataValue::Integer(2))]);
    assert!(filter.matches(&plain));
    let large = metadata(vec![doc(), ("size", MetadataValue::Integer(4))]);
    assert!(!filter.matches(&large));
    let draft = metadata(vec![
        doc(),
        ("size", MetadataValue::Integer(3)),
        ("draft", MetadataValue::Boolean(true)),
    ]);
    assert!(!filter.matches(&draft));
}

#[test]
fn python_filters_match_elements() {
    let whole = dict(vec![("scores", dict(vec![("$elemMatch", dict(vec![("$gt", whole_number(8))]))]))]);
    let filter = match parse_filter_dict(&whole) {
        Ok(filter) => filter,
        Err(_) => panic!("expected a filter"),
    };
    let list = |v: Vec<i64>| {
        metadata(vec![(
            "scores",
            MetadataValue::List(v.into_iter().map(MetadataValue::Integer).collect()),
        )])
    };
    assert!(filter.matches(&list(vec![1, 9])));
    assert!(!filter.matches(&list(vec![1, 8])));
    let sized = match parse_field_filter("scores", &dict(vec![("$size", PythonValue::Bool(true))])) {
        Ok(filter) => filter,
        Err(_) => panic!("expected a filter"),
    };
    assert!(sized.matches(&list(vec![5])));
    assert!(!sized.matches(&list(vec![5, 6])));
}

#[test]
fn python_filters_refuse_what_they_cannot_read() {
    let refused = |value: PythonValue| match parse_filter_dict(&value) {
        Ok(_) => panic!("expected a refusal"),
        Err(error) => error,
    };
    let value_error = |value: PythonValue, message: &str| match refused(value) {
        PythonError::Value(m) => assert_eq!(m, message),
        _ => panic!("expected a value error"),
    };
    value_error(dict(vec![]), "filter cannot be empty");
    value_error(dict(vec![("a", dict(vec![]))]), "field filter cannot be empty");
    value_error(
        dict(vec![("a", dict(vec![("$near", whole_number(1))]))]),
        "unsupported filter operator: $near",
    );
    assert!(matches!(refused(whole_number(1)), PythonError::Mismatch(PythonType::Dict)));
    assert!(matches!(
        refused(dict(vec![("$and", whole_number(1))])),
        PythonError::Mismatch(PythonType::List)
    ));
    assert!(matches!(
        refused(dict(vec![("a", dict(vec![("$contains", whole_number(1))]))])),
        PythonError::Mismatch(PythonType::Text)
    ));
    assert!(matches!(
        refused(dict(vec![("a", dict(vec![("$exists", whole_number(1))]))])),
        PythonError::Mismatch(PythonType::Bool)
    ));
    assert!(matches!(
        refused(dict(vec![("a", dict(vec![("$size", whole_number(-1))]))])),
        PythonError::Mismatch(PythonType::Size)
    ));
    assert!(matches!(
        refused(dict(vec![("a", dict(vec![("$elemMatch", whole_number(1))]))])),
        PythonError::Mismatch(PythonType::Dict)
    ));
    assert!(matches!(
        extract_metadata_values(&whole_number(1)),
        Err(PythonError::Mismatch(PythonType::List))
    ));
}

#[test]
fn python_bounds_are_numbers() {
    assert!(matches!(extract_numeric(&whole_number(-3)), Ok(f) if f == (-3.0_f64).to_bits()));
    match extract_numeric(&PythonValue::Bool(true)) {
        Err(PythonError::Type(m)) => {
            assert_eq!(m, "boolean values are not valid numeric filter operands")
        }
        _ => panic!("expected a type error"),
    }
    match extract_numeric(&text("3")) {
        Err(PythonError::Type(m)) => assert_eq!(m, "numeric filter operands must be int or float"),
        _ => panic!("expected a type error"),
    }
}

#[test]
fn vectors_of_javascript_are_finite() {
    let values = |v: &[f64]| v.iter().map(|x| x.to_bits()).collect::<Vec<u64>>();
    assert_eq!(
        js_vector_to_core(&values(&[0.5, -1.25, 0.1]), "vector"),
        Ok(vec![0.5_f32.to_bits(), (-1.25_f32).to_bits(), 0.1_f32.to_bits()])
    );
    assert_eq!(
        js_vector_to_core(&values(&[0.5, f64::INFINITY]), "query vector"),
        Err("query vector must contain finite numeric values".to_owned())
    );
}

#[test]
fn times_to_live_are_finite_and_not_negative() {
    assert_eq!(check_ttl(None), Ok(()));
    assert_eq!(check_ttl(Some(0.0_f64.to_bits())), Ok(()));
    let refusal = Err("ttl must be a non-negative finite number".to_owned());
    assert_eq!(check_ttl(Some((-1.0_f64).to_bits())), refusal);
    assert_eq!(check_ttl(Some(f64::NAN.to_bits())), refusal);
    assert_eq!(check_ttl(Some(f64::INFINITY.to_bits())), refusal);
    assert_eq!(check_ttl(Some(f64::NEG_INFINITY.to_bits())), refusal);
    assert_eq!(check_ttl(Some(f64::MAX.to_bits())), Ok(()));
    assert_eq!(check_ttl(Some((-0.0_f64).to_bits())), Ok(()));
}

#[test]
fn generated_bindings_have_their_own_defaults() {
    let options = foreign_search_options(5, None, Some("rrf"), None, Some(0.5_f32.to_bits()), None);
    assert_eq!(options.top_k, 5);
    assert_eq!(options.dense_weight, 1.0_f32.to_bits());
    assert_eq!(options.sparse_weight, 0.5_f32.to_bits());
    assert_eq!(options.fetch_k, 0);
    assert!(options.fusion == FusionStrategy::Rrf { rank_constant: 60 });
    let options = foreign_search_options(5, None, Some("other"), None, None, None);
    assert!(options.fusion == FusionStrategy::Linear);
}

#[test]
fn filter_texts_have_to_be_json() {
    match parse_filter_json(Dialect::Node, "{") {
        Err(m) => assert!(m.starts_with("invalid filter JSON: EOF"), "{}", m),
        Ok(_) => panic!("expected a refusal"),
    }
    match parse_filter_json(Dialect::Foreign, "{") {
        Err(m) => assert!(m.starts_with("EOF"), "{}", m),
        Ok(_) => panic!("expected a refusal"),
    }
    match parse_filter_json(Dialect::Node, "null") {
        Err(m) => assert_eq!(m, "filter must be a JSON object"),
        Ok(_) => panic!("expected a refusal"),
    }
}

#[test]
fn query_tokens_are_arrays_of_numbers() {
    assert_eq!(
        parse_query_tokens("[[1, 0.5], []]"),
        Ok(vec![vec![1.0_f32.to_bits(), 0.5_f32.to_bits()], vec![]])
    );
    let refused = |s: &str, m: &str| {
        assert_eq!(parse_query_tokens(s), Err(format!("invalid .vdb format: {m}")));
    };
    refused("{}", "query_tokens must be a JSON array of arrays");
    refused("[1]", "each query token must be an array of numbers");
    refused("[[1], [\"a\"]]", "token values must be numbers");
    match parse_query_tokens("[") {
        Err(m) => assert!(m.starts_with("invalid .vdb format: EOF"), "{}", m),
        Ok(_) => panic!("expected a refusal"),
    }
}

#[test]
fn token_searches_have_options() {
    let options = parse_token_search_options(None).expect("defaults");
    assert_eq!((options.top_k, options.namespace), (10, None));
    assert!(options.filter.is_none());
    let options = parse_token_search_options(Some(
        r#"{"k": 3, "namespace": "n", "filter": {"a": 1}}"#,
    ))
    .expect("options");
    assert_eq!((options.top_k, options.namespace.as_deref()), (3, Some("n")));
    assert!(options.filter.is_some());
    let options = parse_token_search_options(Some("[]")).expect("no object");
    assert_eq!(options.top_k, 10);
    match parse_token_search_options(Some(r#"{"filter": null}"#)) {
        Err(m) => assert_eq!(m, "filter must be a JSON object"),
        Ok(_) => panic!("expected a refusal"),
    }
}

#[test]
fn token_records_have_options() {
    let (found, namespace) = parse_token_record_options(None).expect("defaults");
    assert!(found.is_empty());
    assert_eq!(namespace, "");
    let (found, namespace) =
        parse_token_record_options(Some(r#"{"metadata": {"a": 1}, "namespace": "n"}"#))
            .expect("options");
    assert!(matches!(found.get("a"), Some(MetadataValue::Integer(1))));
    assert_eq!(namespace, "n");
    match parse_token_record_options(Some(r#"{"metadata": 1}"#)) {
        Err(m) => assert_eq!(m, "metadata must be a JSON object"),
        Ok(_) => panic!("expected a refusal"),
    }
    let spaces = parse_multi_vectors_json(r#"{"s": [[1], [2]]}"#).expect("spaces");
    assert_eq!(spaces.get("s"), Some(&vec![vec![1.0_f32.to_bits()], vec![2.0_f32.to_bits()]]));
    match parse_multi_vectors_json("[") {
        Err(m) => assert!(m.starts_with("invalid .vdb format: EOF"), "{}", m),
        Ok(_) => panic!("expected a refusal"),
    }
}

#[test]
fn token_quantization_has_one_method() {
    let two_bit = |rescore_multiplier: usize| {
        MultiVectorQuantizationConfig::TwoBit(TwoBitQuantizationConfig { rescore_multiplier })
    };
    assert_eq!(parse_token_quantization(None), Ok(two_bit(4)));
    assert_eq!(
        parse_token_quantization(Some(r#"{"rescoreMultiplier": 7, "rescore_multiplier": 2}"#)),
        Ok(two_bit(7))
    );
    assert_eq!(token_quantization_config("two_bit", Some(2)), Ok(two_bit(2)));
    let refusal = "unknown multi-vector quantization method: pq. Supported: two_bit";
    assert_eq!(token_quantization_config("pq", None), Err(refusal.to_owned()));
    assert_eq!(
        parse_token_quantization(Some(r#"{"method": "pq"}"#)),
        Err(format!("invalid .vdb format: {refusal}"))
    );
}

#[test]
fn pages_and_token_results_become_documents() {
    let (a, b) = (record("a"), record("b"));
    let list = vec![&a, &b];
    assert_eq!(items(&records_to_json(&list)).len(), 2);
    let page = page_to_json(&list, &Some("next".to_owned()));
    assert!(matches!(entry(&page, "cursor"), Json::Text(s) if s == "next"));
    let second = &items(entry(&page, "records"))[1];
    assert!(matches!(entry(second, "id"), Json::Text(s) if s == "b"));
    assert!(matches!(entry(&page_to_json(&list, &None), "cursor"), Json::Null));
    let results = vec![MultiVectorSearchResult {
        namespace: "n".to_owned(),
        id: "a".to_owned(),
        score: 0.5_f32.to_bits(),
        metadata: OrderedMap::new(),
    }];
    let document = token_results_to_json(&results);
    let first = &items(&document)[0];
    assert!(matches!(entry(first, "namespace"), Json::Text(s) if s == "n"));
    assert!(matches!(
        entry(first, "score"),
        Json::Number(n) if n.double == Some(0.5_f64.to_bits())
    ));
}

#[test]
fn lock_timeout_must_be_non_negative_and_finite() {
    let refused = |seconds: f64| {
        let negative_err = match check_timeout(seconds.to_bits(), "lock_timeout") {
            Ok(_) => panic!("such a lock timeout should fail"),
            Err(err) => err,
        };
        assert!(matches!(
            negative_err,
            VectLiteError::InvalidFormat(message) if message.contains("lock_timeout")
        ));
    };
    refused(-1.0);
    refused(f64::NAN);
    refused(f64::INFINITY);
    assert!(check_timeout(0.0_f64.to_bits(), "lock_timeout").is_ok());
    assert!(check_timeout((-0.0_f64).to_bits(), "lock_timeout").is_ok());
    assert!(check_timeout(2.5_f64.to_bits(), "lock_timeout").is_ok());
}

#[test]
fn a_held_lock_is_waited_for_up_to_its_limit() {
    assert_eq!(lock_step(None, 0), LockStep::Refuse);
    assert_eq!(lock_step(None, u128::MAX), LockStep::Refuse);
    assert_eq!(lock_step(Some(0), 0), LockStep::TimedOut);
    assert_eq!(lock_step(Some(10), 9), LockStep::Wait);
    assert_eq!(lock_step(Some(10), 10), LockStep::TimedOut);
    assert!(matches!(
        lock_refused(true, "/d/a.vdb", None, "busy"),
        VectLiteError::LockContention(m)
            if m == "could not acquire shared lock on '/d/a.vdb': busy"
    ));
    assert!(matches!(
        lock_refused(false, "a.vdb", Some("2.5"), "busy"),
        VectLiteError::LockContention(m)
            if m == "could not acquire exclusive lock on 'a.vdb' after 2.5s: busy"
    ));
}
