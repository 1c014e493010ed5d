use vectlite::cli::{
    filter_items, infer_metadata_value, metadata_pairs, parse_command, parse_filters,
    parse_metadata, parse_vector, vector_segments, Command,
};
use vectlite::codec::Reader;
use vectlite::config::{decide_sync, IndexConfig, WalSyncMode};
use vectlite::error::VectLiteError;
use vectlite::filter::MetadataFilter;
use vectlite::float_bits::{
    double_from_integer, equal, from_total_key, less, less_or_equal, narrow, single_total,
    total_key, widen,
};
use vectlite::manifest::{
    ann_basename, hex_encode, read_ann_manifest, record_key_signature, write_ann_manifest,
    AnnManifestEntry,
};
use vectlite::metadata::{resolve_dot_path, Metadata, MetadataValue};
use vectlite::ordered_map::OrderedMap;
use vectlite::ordered_set::OrderedSet;
use vectlite::payload_index::PayloadIndexType;
use vectlite::record::{MultiVectors, NamedVectors, Record, SparseVector};
use vectlite::render::{
    collect_doubles, format_metadata, format_vector, metadata_doubles, render_value, signed_text,
};
use vectlite::rerank::{merge_reranked, rerank_limit};
use vectlite::search::resolve_fetch_k;
use vectlite::snapshot::{read_snapshot, write_snapshot};
use vectlite::sort::sort;
use vectlite::store::{
    check_known_collection, check_new_collection, collection_file, collection_files, collections,
    is_graph_file, is_own_file, is_restored_file, token_space, Sidecar,
};
use vectlite::terms::{count_words, split_words, term_counts};
use vectlite::wal::{encode_wal_batch, read_wal, wal_header, WalOp};

fn words(list: &[&str]) -> Vec<String> {
    list.iter().map(|s| (*s).to_owned()).collect()
}

fn text(s: &str) -> MetadataValue {
    MetadataValue::String(s.to_owned())
}

fn record(id: &str) -> Record {
    let mut metadata = Metadata::new();
    metadata.insert("k".to_owned(), MetadataValue::Integer(-7));
    let mut sparse = SparseVector::new();
    sparse.insert("t".to_owned(), 0.5_f32.to_bits());
    let mut vectors = NamedVectors::new();
    vectors.insert("title".to_owned(), vec![1, 2]);
    let mut multi_vectors = MultiVectors::new();
    multi_vectors.insert("s".to_owned(), vec![vec![1], vec![2]]);
    Record {
        namespace: "n".to_owned(),
        id: id.to_owned(),
        vector: vec![3, 4],
        vectors,
        sparse,
        metadata,
        multi_vectors,
        expires_at: Some(9.0_f64.to_bits()),
    }
}

#[test]
fn commands_are_parsed() {
    let parse = |list: &[&str]| parse_command(&words(list));
    assert!(matches!(parse(&["vectlite"]), Ok(Command::Usage)));
    assert!(matches!(parse(&["vectlite", "help"]), Ok(Command::Usage)));
    assert!(matches!(
        parse(&["vectlite", "init", "p", "3"]),
        Ok(Command::Init { path, dimension: 3 }) if path == "p"
    ));
    assert!(matches!(
        parse(&["vectlite", "insert", "p", "a", "1,2"]),
        Ok(Command::Insert { metadata: None, .. })
    ));
    assert!(matches!(parse(&["vectlite", "get", "p", "a"]), Ok(Command::Get { .. })));
    assert!(matches!(parse(&["vectlite", "delete", "p", "a"]), Ok(Command::Delete { .. })));
    assert!(matches!(
        parse(&["vectlite", "search", "p", "1,2", "5", "a=1"]),
        Ok(Command::Search { filters: Some(f), .. }) if f == "a=1"
    ));
    for list in [
        &["vectlite", "search", "p", "1,2"][..],
        &["vectlite", "search", "p", "1,2", "5", "a=1", "b=2"][..],
    ] {
        assert!(matches!(
            parse(list),
            Err(m) if m == "usage: vectlite search <path> <vector> <k> [filters]"
        ));
    }
    assert!(matches!(parse(&["vectlite", "what"]), Err(m) if m == "unknown command: what"));
    assert!(matches!(
        parse(&["vectlite", "init", "p"]),
        Err(m) if m == "usage: vectlite init <path> <dimension>"
    ));
    assert!(matches!(
        parse(&["vectlite", "init", "p", "x"]),
        Err(m) if m == "dimension must be a positive integer"
    ));
}

#[test]
fn vectors_are_parsed_from_their_segments() {
    let segments = vector_segments("1.0, 2.5").expect("segments");
    let numbers: Vec<Option<u32>> =
        segments.iter().map(|s| s.trim().parse::<f32>().ok().map(|x| x.to_bits())).collect();
    assert_eq!(
        parse_vector(&segments, &numbers).expect("a vector"),
        vec![1.0_f32.to_bits(), 2.5_f32.to_bits()]
    );
    assert!(matches!(vector_segments("  "), Err(m) if m == "vector cannot be empty"));
    let segments = vector_segments("1, x").expect("segments");
    assert!(matches!(
        parse_vector(&segments, &vec![Some(0), None]),
        Err(m) if m == "invalid float in vector:  x"
    ));
}

fn doubles(list: &[(String, String)]) -> Vec<Option<u64>> {
    list.iter().map(|p| p.1.parse::<f64>().ok().map(|x| x.to_bits())).collect()
}

#[test]
fn metadata_is_inferred() {
    let pairs = metadata_pairs(Some("a = 5, b=TRUE,c=1.5,d=x")).expect("pairs");
    let m = parse_metadata(&pairs, &doubles(&pairs));
    assert!(matches!(m.get("a"), Some(MetadataValue::Integer(5))));
    assert!(matches!(m.get("b"), Some(MetadataValue::Boolean(true))));
    assert!(matches!(m.get("c"), Some(MetadataValue::Float(f)) if *f == 1.5_f64.to_bits()));
    assert!(matches!(m.get("d"), Some(MetadataValue::String(s)) if s == "x"));
    assert!(metadata_pairs(None).expect("none").is_empty());
    assert!(matches!(metadata_pairs(Some("oops")), Err(m) if m == "invalid metadata pair: oops"));
    assert!(matches!(infer_metadata_value("-3", None), MetadataValue::Integer(-3)));
    assert!(matches!(infer_metadata_value("false", None), MetadataValue::Boolean(false)));
}

#[test]
fn filters_are_parsed_from_their_items() {
    let mut m = Metadata::new();
    m.insert("title".to_owned(), text("auth flow"));
    m.insert("score".to_owned(), MetadataValue::Integer(7));
    let items = filter_items(Some("title~auth,score>5,score<9,score=7,title"));
    let numbers = vec![
        None,
        Some(5.0_f64.to_bits()),
        Some(9.0_f64.to_bits()),
        Some(7.0_f64.to_bits()),
        None,
    ];
    let filter = parse_filters(&items, &numbers).expect("filters").expect("a filter");
    assert!(filter.matches(&m));
    assert!(parse_filters(&filter_items(None), &Vec::new()).expect("none").is_none());
    let items = filter_items(Some("score>x"));
    assert!(matches!(
        parse_filters(&items, &vec![None]),
        Err(m) if m == "invalid numeric filter: score>x"
    ));
}

#[test]
fn terms_are_counted_in_lower_case() {
    let (counts, total) = term_counts("Hello, HELLO world; Stra\u{df}e \u{c9}t\u{e9}!");
    assert_eq!(total, 5);
    assert_eq!(counts.get("hello"), Some(&2));
    assert_eq!(counts.get("world"), Some(&1));
    assert_eq!(counts.get("\u{e9}t\u{e9}"), Some(&1));
    assert_eq!(counts.get("stra\u{df}e"), Some(&1));
    assert_eq!(term_counts(" ,;").1, 0);
    let marks: Vec<bool> = "ab-c".chars().map(|c| c != '-').collect();
    assert_eq!(split_words("ab-c", &marks), words(&["ab", "c"]));
    assert_eq!(count_words(&words(&["b", "a", "b"])).get("b"), Some(&2));
}

#[test]
fn reranked_results_keep_their_order() {
    assert_eq!(rerank_limit(0, 5), 5);
    assert_eq!(rerank_limit(3, 5), 3);
    assert_eq!(rerank_limit(9, 5), 5);
    let key = |id: &str| (String::new(), id.to_owned());
    let keys = vec![key("c"), key("a"), key("c"), key("a"), key("b"), key("c")];
    assert_eq!(merge_reranked(&keys), vec![0, 1, 4]);
}

#[test]
fn a_collection_is_dropped_with_all_its_files() {
    let files = words(&[
        "a.vdb.ann._._.hnsw.data",
        "ab.vdb",
        "a.vdb",
        "a.vdb.wal",
        "a.vdb.b.vdb",
        "a.vdb.lock",
        "a.vdb.quant",
        "a.vdb.mvquant.colbert",
        "b.vdb.wal",
        "a.vdb.ann",
        "a.vdb.pidx",
        "a.vdb.tmp",
    ]);
    assert_eq!(collection_files("a", &files), vec![0, 2, 3, 5, 6, 7, 9, 10, 11]);
    assert_eq!(collection_files("b", &files), vec![8]);
    assert_eq!(collection_files("c", &files), Vec::<usize>::new());
    let kinds = [Sidecar::Log, Sidecar::Lock, Sidecar::Graphs, Sidecar::Tokens("x.vdb".to_owned())];
    for kind in kinds {
        let file = format!("a.vdb{}", kind.suffix());
        assert!(is_own_file("a.vdb", &file));
        assert!(!is_own_file("b.vdb", &file));
    }
}

#[test]
fn collections_and_sidecars_have_names() {
    assert_eq!(collection_file("docs"), "docs.vdb");
    let files = words(&["b.vdb", "a.vdb", "a.vdb.wal", ".vdb", "notes.txt"]);
    assert_eq!(collections(&files), words(&["a", "b"]));
    assert!(check_new_collection("x", false).is_ok());
    assert!(matches!(
        check_new_collection("x", true),
        Err(VectLiteError::InvalidFormat(m)) if m == "collection 'x' already exists"
    ));
    assert!(matches!(
        check_known_collection("x", false),
        Err(VectLiteError::InvalidFormat(m)) if m == "collection 'x' does not exist"
    ));
    assert_eq!(Sidecar::Log.suffix(), ".wal");
    assert_eq!(Sidecar::Tokens("colbert".to_owned()).suffix(), ".mvquant.colbert");
    assert!(is_graph_file("a.vdb", "a.vdb.ann._._.hnsw.data"));
    assert!(!is_graph_file("a.vdb", "a.vdb.ann"));
    assert!(is_restored_file("a.vdb", "b.ann"));
    assert_eq!(token_space("a.vdb", "a.vdb.mvquant.colbert").as_deref(), Some("colbert"));
    assert_eq!(token_space("a.vdb", "a.vdb.mvquant."), None);
}

#[test]
fn values_are_rendered() {
    let mut map = Metadata::new();
    map.insert("x".to_owned(), MetadataValue::Float(2.5_f64.to_bits()));
    map.insert("y".to_owned(), MetadataValue::Null);
    let list = MetadataValue::List(vec![
        MetadataValue::Integer(-12),
        MetadataValue::Float(1.5_f64.to_bits()),
        MetadataValue::Object(map),
        MetadataValue::Boolean(true),
        text("t"),
    ]);
    let mut found = Vec::new();
    collect_doubles(&list, &mut found);
    let texts: Vec<String> = found.iter().map(|b| format!("{}", f64::from_bits(*b))).collect();
    assert_eq!(render_value(&list, &texts), "[-12, 1.5, {x: 2.5, y: null}, true, t]");

    let mut m = Metadata::new();
    m.insert("a".to_owned(), list);
    m.insert("b".to_owned(), MetadataValue::Integer(3));
    assert_eq!(metadata_doubles(&m).len(), 2);
    assert_eq!(
        format_metadata(&m, &texts),
        "{a=[-12, 1.5, {x: 2.5, y: null}, true, t], b=3}"
    );
    assert_eq!(format_metadata(&Metadata::new(), &Vec::new()), "{}");
    assert_eq!(format_vector(&words(&["1.0000", "2.0000"])), "1.0000,2.0000");
    assert_eq!(format_vector(&Vec::new()), "");
    assert_eq!(signed_text(i64::MIN), "-9223372036854775808");
}

#[test]
fn errors_have_messages() {
    let mismatch = VectLiteError::DimensionMismatch { expected: 3, found: 2 };
    assert!(mismatch.message().contains('3') && mismatch.message().contains('2'));
    let twice = VectLiteError::DuplicateId { namespace: "n".to_owned(), id: "a".to_owned() };
    assert!(twice.message().contains('a'));
    assert!(VectLiteError::Io("gone".to_owned()).message().contains("gone"));
    assert!(VectLiteError::InvalidFormat("bad".to_owned()).message().contains("bad"));
    assert!(VectLiteError::LockContention("held".to_owned()).message().contains("held"));
    assert!(!VectLiteError::ReadOnly.message().is_empty());
}

#[test]
fn index_kinds_have_names_and_aliases() {
    for alias in ["keyword", "String", "TEXT"] {
        assert!(matches!(PayloadIndexType::from_name(alias), Ok(PayloadIndexType::Keyword)));
    }
    for alias in ["numeric", "number", "int", "float", "Integer"] {
        assert!(matches!(PayloadIndexType::from_name(alias), Ok(PayloadIndexType::Numeric)));
    }
    assert!(matches!(
        PayloadIndexType::from_name("a\"b"),
        Err(VectLiteError::InvalidFormat(m)) if m == "unknown payload index type: \"a\\\"b\""
    ));
    assert!(matches!(PayloadIndexType::from_tag(1), Ok(PayloadIndexType::Keyword)));
    assert!(PayloadIndexType::from_tag(9).is_err());
}

#[test]
fn floats_are_compared_by_their_patterns() {
    let samples = [
        f64::NEG_INFINITY,
        -1.5,
        -f64::MIN_POSITIVE,
        -0.0,
        0.0,
        5e-324,
        1.0,
        1e300,
        f64::INFINITY,
        f64::NAN,
    ];
    for a in samples {
        for b in samples {
            let (x, y) = (a.to_bits(), b.to_bits());
            assert_eq!(less(x, y), a < b);
            assert_eq!(less_or_equal(x, y), a <= b);
            assert_eq!(equal(x, y), a == b);
            assert_eq!(total_key(x) < total_key(y), a.total_cmp(&b) == std::cmp::Ordering::Less);
        }
        assert_eq!(from_total_key(total_key(a.to_bits())), a.to_bits());
        if !a.is_nan() {
            assert_eq!(narrow(a.to_bits()), (a as f32).to_bits());
        }
    }
    for v in [0, 1, -1, 9007199254740993, i64::MAX, i64::MIN, 123456789] {
        assert_eq!(double_from_integer(v), (v as f64).to_bits());
    }
    for x in [0.0_f32, -0.0, 1.5, 1e-45, -1.2e-40, f32::MAX, f32::MIN_POSITIVE] {
        assert_eq!(widen(x.to_bits()), (x as f64).to_bits());
        assert_eq!(narrow(widen(x.to_bits())), x.to_bits());
    }
    for x in [1e-46_f64, 7e-46, 3.4028235677973366e38, 1.0000000596046448, 1.17549429e-38] {
        assert_eq!(narrow(x.to_bits()), (x as f32).to_bits());
    }
    assert!(single_total((-1.0_f32).to_bits()) < single_total(1.0_f32.to_bits()));
}

#[test]
fn ordered_collections_follow_their_keys() {
    let mut map: OrderedMap<String, u32> = OrderedMap::new();
    for key in ["b", "a", "c", "a"] {
        map.insert(key.to_owned(), key.len() as u32);
    }
    assert_eq!(map.len(), 3);
    assert_eq!(map.key_at(0), "a");
    assert_eq!(map.remove("b"), Some(1));
    assert_eq!(map.get("b"), None);
    let mut set: OrderedSet<u64> = OrderedSet::new();
    for x in [3_u64, 1, 2, 3] {
        set.add(x);
    }
    assert_eq!(set.to_vec(), vec![1, 2, 3]);
    assert_eq!(sort(vec![3_u64, 1, 3, 2]), vec![1, 2, 3, 3]);
}

#[test]
fn logs_are_read_back() {
    let ops = vec![
        WalOp::Upsert(record("a")),
        WalOp::Delete { namespace: "n".to_owned(), id: "b".to_owned() },
        WalOp::UpdateMetadata {
            namespace: "n".to_owned(),
            id: "a".to_owned(),
            metadata: Metadata::new(),
        },
        WalOp::SetTtl { namespace: "n".to_owned(), id: "a".to_owned(), expires_at: Some(1) },
    ];
    let mut bytes = wal_header();
    assert_eq!(bytes, b"VWL1".to_vec());
    bytes.extend(encode_wal_batch(&ops).expect("a batch"));
    let batches = read_wal(&bytes, 2).expect("a log");
    assert_eq!(batches.len(), 1);
    assert_eq!(batches[0].len(), 4);
    match &batches[0][0] {
        WalOp::Upsert(r) => {
            assert_eq!(r.id, "a");
            assert_eq!(r.vector, vec![3, 4]);
            assert_eq!(r.multi_vectors.get("s"), Some(&vec![vec![1], vec![2]]));
            assert_eq!(r.expires_at, Some(9.0_f64.to_bits()));
        }
        _ => panic!("another operation"),
    }
    assert!(read_wal(b"XXXX", 2).is_err());
    assert!(read_wal(&bytes, 3).is_err());
    assert_eq!(read_wal(&bytes[..bytes.len() - 1], 2).expect("a torn log").len(), 0);
}

#[test]
fn files_are_read_back() {
    let mut records = OrderedMap::new();
    records.put(("n".to_owned(), "a".to_owned()), record("a"));
    let bytes = write_snapshot(2, vectlite::metric::DistanceMetric::Manhattan, &records)
        .expect("a file");
    assert_eq!(&bytes[..4], b"VDB1");
    let snapshot = read_snapshot(&bytes).expect("the file");
    assert_eq!(snapshot.dimension, 2);
    assert_eq!(snapshot.metric, vectlite::metric::DistanceMetric::Manhattan);
    assert_eq!(snapshot.records.len(), 1);
    assert!(read_snapshot(b"VDB2").is_err());
    assert!(read_snapshot(&bytes[..bytes.len() - 1]).is_err());
}

#[test]
fn texts_have_to_be_unicode() {
    let good = [2, 0, 0, 0, 0xc3, 0xa9];
    assert_eq!(Reader::new(&good).text().expect("a text"), "\u{e9}");
    let bad = [2, 0, 0, 0, 0xc3, 0x28];
    assert!(matches!(Reader::new(&bad).text(), Err(VectLiteError::InvalidFormat(m)) if m.contains("utf-8")));
}

#[test]
fn manifests_are_read_back() {
    let keys = vec![("n".to_owned(), "b".to_owned()), ("n".to_owned(), "a".to_owned())];
    let swapped = vec![keys[1].clone(), keys[0].clone()];
    assert_eq!(record_key_signature(&keys), record_key_signature(&swapped));
    assert_ne!(record_key_signature(&keys), record_key_signature(&keys[..1].to_vec()));
    assert_eq!(record_key_signature(&Vec::new()), 0xcbf29ce484222325);
    let entry = AnnManifestEntry {
        namespace: Some("n".to_owned()),
        vector_name: String::new(),
        record_count: 2,
        key_signature: record_key_signature(&keys),
        keys,
    };
    let bytes = write_ann_manifest(&vec![entry]).expect("a manifest");
    assert_eq!(&bytes[..4], b"ANN2");
    let entries = read_ann_manifest(&bytes).expect("the manifest");
    assert_eq!(entries.len(), 1);
    assert_eq!(entries[0].keys[1].1, "a");
    assert!(read_ann_manifest(b"ANN3").is_err());
    assert_eq!(hex_encode(&[0x0f, 0xa0]), "0fa0");
    assert_eq!(ann_basename("c.vdb", None, ""), "c.vdb.ann._._");
    assert_eq!(ann_basename("c.vdb", Some("ab"), "t"), "c.vdb.ann.6162.74");
    assert_eq!(ann_basename("c.vdb", Some(""), ""), "c.vdb.ann.default._");
    assert_eq!(ann_basename("c.vdb", Some("_"), "_"), "c.vdb.ann.5f.5f");
    assert_eq!(ann_basename("c.vdb", Some("default"), ""), "c.vdb.ann.64656661756c74._");
}

#[test]
fn settings_are_checked() {
    assert!(IndexConfig::default().validate().is_ok());
    assert!(IndexConfig::high_recall().validate().is_ok());
    assert!(IndexConfig { m: 0, ..IndexConfig::default() }.validate().is_err());
    assert!(WalSyncMode::EveryN(0).validate().is_err());
    assert_eq!(decide_sync(WalSyncMode::PerOp, 0, 1).0, true);
    assert_eq!(decide_sync(WalSyncMode::EveryN(3), 1, 1), (false, 2));
    assert_eq!(decide_sync(WalSyncMode::EveryN(3), 2, 1), (true, 0));
    assert_eq!(decide_sync(WalSyncMode::OnFlush, 5, 1), (false, 6));
    assert_eq!(resolve_fetch_k(5, 0, 100, false), 5);
    assert_eq!(resolve_fetch_k(5, 0, 100, true), 20);
    assert_eq!(resolve_fetch_k(5, 50, 40, false), 40);
    assert_eq!(resolve_fetch_k(5, 0, 0, false), 0);
}

#[test]
fn dotted_paths_reach_into_objects() {
    let mut inner = Metadata::new();
    inner.insert("b".to_owned(), MetadataValue::Integer(1));
    let mut m = Metadata::new();
    m.insert("a".to_owned(), MetadataValue::Object(inner));
    assert!(matches!(resolve_dot_path(&m, "a.b"), Some(MetadataValue::Integer(1))));
    assert!(resolve_dot_path(&m, "a.c").is_none());
    let list = MetadataValue::List(vec![text("x"), text("y")]);
    m.insert("tags".to_owned(), list);
    m.insert("title".to_owned(), text("auth flow"));
    assert!(MetadataFilter::contains("title", "th f").matches(&m));
    assert!(!MetadataFilter::contains("tags", "x").matches(&m));
    assert!(MetadataFilter::size("tags", 2).matches(&m));
    assert!(MetadataFilter::exists_key("a").matches(&m));
    assert!(MetadataFilter::not(MetadataFilter::exists_key("z")).matches(&m));
    assert!(MetadataFilter::or(vec![
        MetadataFilter::gt("a.b", 5.0_f64.to_bits()),
        MetadataFilter::lt("a.b", 5.0_f64.to_bits()),
    ])
    .matches(&m));
    assert!(MetadataFilter::nin("a.b", vec![MetadataValue::Integer(2)]).matches(&m));
}
