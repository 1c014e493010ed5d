//! Records and batches of changes in JSON.
use vstd::prelude::*;
use crate::float_bits::{double_finite, double_is_finite, double_lt, less};
use crate::json::{
    entry_of, find_entry, json_read, lemma_array_view, lemma_object_view, read_json, Json,
    JsonModel,
};
use crate::json_values::{agrees_with, json_to_metadata, metadata_document, Dialect};
use crate::json_vectors::{
    json_to_multi_vectors, json_to_named_vectors, json_to_sparse, json_to_vector, named_json,
    spaces_json, sparse_json, vector_json,
};
use crate::metadata::{Metadata, ValueModel};
use crate::order::{same_text, Duplicate};
use crate::ordered_map::OrderedMap;
use crate::payload_index::opt_text;
use crate::record::{KeyModel, MultiVectors, NamedVectors, Record, RecordModel, SparseVector};
use crate::text::concat2;

verus! {

/// A record that was read, and how long it is to live, as a double pattern.
pub struct Draft {
    pub record: Record,
    pub ttl: Option<u64>,
}

impl DeepView for Draft {
    type V = (RecordModel, Option<u64>);

    open spec fn deep_view(&self) -> (RecordModel, Option<u64>) {
        (self.record@, self.ttl)
    }
}

/// The entries of an object.
pub type Entries = Seq<(Seq<char>, JsonModel)>;

/// The text of an entry; `None` where there is no entry or no text.
pub open spec fn entry_text(e: Entries, key: Seq<char>) -> Option<Seq<char>> {
    match entry_of(e, key) {
        Some(JsonModel::Text(s)) => Some(s),
        _ => None,
    }
}

/// The number of an entry; `None` where there is no entry or no number.
pub open spec fn entry_double(e: Entries, key: Seq<char>) -> Option<u64> {
    match entry_of(e, key) {
        Some(JsonModel::Number(n)) => n.double,
        _ => None,
    }
}

/// The metadata of a record.
pub open spec fn record_metadata(d: Dialect, e: Entries) -> Result<
    Seq<(Seq<char>, ValueModel)>,
    Seq<char>,
> {
    match entry_of(e, "metadata"@) {
        None => Ok(Seq::empty()),
        Some(j) => metadata_document(d, j),
    }
}

/// The sparse vector of a record.
pub open spec fn record_sparse(d: Dialect, e: Entries) -> Result<
    Seq<(Seq<char>, u32)>,
    Seq<char>,
> {
    match entry_of(e, "sparse"@) {
        None => Ok(Seq::empty()),
        Some(j) => sparse_json(d, true, j),
    }
}

/// The named vectors of a record.
pub open spec fn record_vectors(e: Entries) -> Result<Seq<(Seq<char>, Seq<u32>)>, Seq<char>> {
    match entry_of(e, "vectors"@) {
        None => Ok(Seq::empty()),
        Some(j) => named_json(j),
    }
}

/// The spaces of token vectors of a record.
pub open spec fn record_spaces(e: Entries) -> Result<Seq<(Seq<char>, Seq<Seq<u32>>)>, Seq<char>> {
    match entry_of(e, "multi_vectors"@) {
        Some(j) => spaces_json(j),
        None => match entry_of(e, "multiVectors"@) {
            Some(j) => spaces_json(j),
            None => Ok(Seq::empty()),
        },
    }
}

/// The namespace of a record, which has to be a text where it is given.
pub open spec fn record_namespace(e: Entries, default_namespace: Option<Seq<char>>) -> Result<
    Seq<char>,
    Seq<char>,
> {
    match entry_of(e, "namespace"@) {
        Some(JsonModel::Text(s)) => Ok(s),
        Some(_) => Err("value must be a string"@),
        None => match default_namespace {
            Some(s) => Ok(s),
            None => Ok(Seq::empty()),
        },
    }
}

/// Whether a time to live is no time: it is negative or not finite.
pub open spec fn ttl_invalid(ttl: Option<u64>) -> bool {
    ttl matches Some(t) && (double_lt(t, 0) || !double_is_finite(t))
}

/// Refuses a time to live that is negative or not finite.
pub fn check_ttl(ttl: Option<u64>) -> (r: Result<(), String>)
    ensures
        ttl_invalid(ttl) ==> (r matches Err(e) && e@
            == "ttl must be a non-negative finite number"@),
        !ttl_invalid(ttl) ==> r is Ok,
{
    if let Some(t) = ttl {
        if less(t, 0) || !double_finite(t) {
            return Err("ttl must be a non-negative finite number".to_owned());
        }
    }
    Ok(())
}

/// The parts of a record of the Node.js binding that follow its namespace, id and vector.
pub open spec fn node_parts(
    e: Entries,
    k: (Seq<char>, JsonModel, JsonModel),
) -> Result<(RecordModel, Option<u64>), Seq<char>> {
    match record_vectors(e) {
        Err(m) => Err(m),
        Ok(vectors) => match record_sparse(Dialect::Node, e) {
            Err(m) => Err(m),
            Ok(sparse) => match record_metadata(Dialect::Node, e) {
                Err(m) => Err(m),
                Ok(metadata) => match record_spaces(e) {
                    Err(m) => Err(m),
                    Ok(multi_vectors) => if ttl_invalid(entry_double(e, "ttl"@)) {
                        Err("ttl must be a non-negative finite number"@)
                    } else {
                        match k.1 {
                            JsonModel::Text(id) => match vector_json(
                                Dialect::Node,
                                "batch vector"@,
                                k.2,
                            ) {
                                Err(m) => Err(m),
                                Ok(vector) => Ok(
                                    (
                                        RecordModel {
                                            namespace: k.0,
                                            id,
                                            vector,
                                            vectors,
                                            sparse,
                                            metadata,
                                            multi_vectors,
                                            expires_at: None,
                                        },
                                        entry_double(e, "ttl"@),
                                    ),
                                ),
                            },
                            _ => Err("value must be a string"@),
                        }
                    },
                },
            },
        },
    }
}

/// The record of an object of the Node.js binding.
pub open spec fn node_record(e: Entries, default_namespace: Option<Seq<char>>) -> Result<
    (RecordModel, Option<u64>),
    Seq<char>,
> {
    match record_namespace(e, default_namespace) {
        Err(m) => Err(m),
        Ok(namespace) => match entry_of(e, "id"@) {
            None => Err("batch record is missing 'id'"@),
            Some(id) => match entry_of(e, "vector"@) {
                None => Err("batch record is missing 'vector'"@),
                Some(vector) => node_parts(e, (namespace, id, vector)),
            },
        },
    }
}

/// The record of an object of the generated bindings. A namespace that is no text is ignored.
pub open spec fn foreign_record(e: Entries) -> Result<(RecordModel, Option<u64>), Seq<char>> {
    match entry_text(e, "id"@) {
        None => Err("record must have an 'id' field"@),
        Some(id) => match entry_of(e, "vector"@) {
            None => Err("record must have a 'vector' field"@),
            Some(v) => match vector_json(Dialect::Foreign, "vector"@, v) {
                Err(m) => Err(m),
                Ok(vector) => match record_metadata(Dialect::Foreign, e) {
                    Err(m) => Err(m),
                    Ok(metadata) => match record_sparse(Dialect::Foreign, e) {
                        Err(m) => Err(m),
                        Ok(sparse) => Ok(
                            (
                                RecordModel {
                                    namespace: match entry_text(e, "namespace"@) {
                                        Some(s) => s,
                                        None => Seq::empty(),
                                    },
                                    id,
                                    vector,
                                    vectors: Seq::empty(),
                                    sparse,
                                    metadata,
                                    multi_vectors: Seq::empty(),
                                    expires_at: None,
                                },
                                entry_double(e, "ttl"@),
                            ),
                        ),
                    },
                },
            },
        },
    }
}

/// The record of an object. Only the Node.js binding has a default namespace.
pub open spec fn record_json(
    d: Dialect,
    e: Entries,
    default_namespace: Option<Seq<char>>,
) -> Result<(RecordModel, Option<u64>), Seq<char>> {
    match d {
        Dialect::Node => node_record(e, default_namespace),
        Dialect::Foreign => foreign_record(e),
    }
}

fn read_metadata_entry(d: Dialect, e: &Vec<(String, Json)>) -> (r: Result<Metadata, String>)
    ensures
        match record_metadata(d, e.deep_view()) {
            Ok(p) => r matches Ok(x) && x.pairs() == p,
            Err(m) => r matches Err(x) && x@ == m,
        },
{
    match find_entry(e, "metadata") {
        Some(j) => json_to_metadata(d, j),
        None => Ok(OrderedMap::new()),
    }
}

fn read_sparse_entry(d: Dialect, e: &Vec<(String, Json)>) -> (r: Result<SparseVector, String>)
    ensures
        match record_sparse(d, e.deep_view()) {
            Ok(p) => r matches Ok(x) && x.pairs() == p,
            Err(m) => r matches Err(x) && x@ == m,
        },
{
    match find_entry(e, "sparse") {
        Some(j) => json_to_sparse(d, true, j),
        None => Ok(OrderedMap::new()),
    }
}

fn read_vectors_entry(e: &Vec<(String, Json)>) -> (r: Result<NamedVectors, String>)
    ensures
        match record_vectors(e.deep_view()) {
            Ok(p) => r matches Ok(x) && x.pairs() == p,
            Err(m) => r matches Err(x) && x@ == m,
        },
{
    match find_entry(e, "vectors") {
        Some(j) => json_to_named_vectors(j),
        None => Ok(OrderedMap::new()),
    }
}

fn read_spaces_entry(e: &Vec<(String, Json)>) -> (r: Result<MultiVectors, String>)
    ensures
        match record_spaces(e.deep_view()) {
            Ok(p) => r matches Ok(x) && x.pairs() == p,
            Err(m) => r matches Err(x) && x@ == m,
        },
{
    match find_entry(e, "multi_vectors") {
        Some(j) => json_to_multi_vectors(j),
        None => match find_entry(e, "multiVectors") {
            Some(j) => json_to_multi_vectors(j),
            None => Ok(OrderedMap::new()),
        },
    }
}

fn read_namespace_entry(e: &Vec<(String, Json)>, default_namespace: Option<&str>) -> (r: Result<
    String,
    String,
>)
    ensures
        agrees_with(r, record_namespace(e.deep_view(), opt_text(default_namespace))),
{
    match find_entry(e, "namespace") {
        Some(j) => match j {
            Json::Text(s) => Ok(s.duplicate()),
            _ => Err("value must be a string".to_owned()),
        },
        None => match default_namespace {
            Some(s) => Ok(s.to_owned()),
            None => {
                let none = String::new();
                proof {
                    assert(none@ =~= Seq::<char>::empty());
                }
                Ok(none)
            },
        },
    }
}

pub(crate) fn read_text_entry(e: &Vec<(String, Json)>, key: &str) -> (r: Option<String>)
    ensures
        r.deep_view() == entry_text(e.deep_view(), key@),
{
    match find_entry(e, key) {
        Some(j) => match j {
            Json::Text(s) => Some(s.duplicate()),
            _ => None,
        },
        None => None,
    }
}

fn read_double_entry(e: &Vec<(String, Json)>, key: &str) -> (r: Option<u64>)
    ensures
        r == entry_double(e.deep_view(), key@),
{
    match find_entry(e, key) {
        Some(j) => match j {
            Json::Number(n) => n.double,
            _ => None,
        },
        None => None,
    }
}

fn read_node_record(e: &Vec<(String, Json)>, default_namespace: Option<&str>) -> (r: Result<
    Draft,
    String,
>)
    ensures
        agrees_with(r, node_record(e.deep_view(), opt_text(default_namespace))),
{
    let namespace = match read_namespace_entry(e, default_namespace) {
        Ok(s) => s,
        Err(m) => {
            return Err(m);
        },
    };
    let id = match find_entry(e, "id") {
        Some(j) => j,
        None => {
            return Err("batch record is missing 'id'".to_owned());
        },
    };
    let vector = match find_entry(e, "vector") {
        Some(j) => j,
        None => {
            return Err("batch record is missing 'vector'".to_owned());
        },
    };
    let vectors = match read_vectors_entry(e) {
        Ok(v) => v,
        Err(m) => {
            return Err(m);
        },
    };
    let sparse = match read_sparse_entry(Dialect::Node, e) {
        Ok(v) => v,
        Err(m) => {
            return Err(m);
        },
    };
    let metadata = match read_metadata_entry(Dialect::Node, e) {
        Ok(v) => v,
        Err(m) => {
            return Err(m);
        },
    };
    let multi_vectors = match read_spaces_entry(e) {
        Ok(v) => v,
        Err(m) => {
            return Err(m);
        },
    };
    let ttl: Option<u64> = read_double_entry(e, "ttl");
    if let Err(m) = check_ttl(ttl) {
        return Err(m);
    }
    let id = match id {
        Json::Text(s) => s.duplicate(),
        _ => {
            return Err("value must be a string".to_owned());
        },
    };
    match json_to_vector(Dialect::Node, "batch vector", vector) {
        Ok(vector) => {
            let record = Record {
                namespace,
                id,
                vector,
                vectors,
                sparse,
                metadata,
                multi_vectors,
                expires_at: None,
            };
            Ok(Draft { record, ttl })
        },
        Err(m) => Err(m),
    }
}

fn read_foreign_record(e: &Vec<(String, Json)>) -> (r: Result<Draft, String>)
    ensures
        agrees_with(r, foreign_record(e.deep_view())),
{
    let namespace = match read_text_entry(e, "namespace") {
        Some(s) => s,
        None => {
            let none = String::new();
            proof {
                assert(none@ =~= Seq::<char>::empty());
            }
            none
        },
    };
    let id = match read_text_entry(e, "id") {
        Some(s) => s,
        None => {
            return Err("record must have an 'id' field".to_owned());
        },
    };
    let vector = match find_entry(e, "vector") {
        Some(j) => match json_to_vector(Dialect::Foreign, "vector", j) {
            Ok(v) => v,
            Err(m) => {
                return Err(m);
            },
        },
        None => {
            return Err("record must have a 'vector' field".to_owned());
        },
    };
    let metadata = match read_metadata_entry(Dialect::Foreign, e) {
        Ok(v) => v,
        Err(m) => {
            return Err(m);
        },
    };
    let sparse = match read_sparse_entry(Dialect::Foreign, e) {
        Ok(v) => v,
        Err(m) => {
            return Err(m);
        },
    };
    let record = Record {
        namespace,
        id,
        vector,
        vectors: OrderedMap::new(),
        sparse,
        metadata,
        multi_vectors: OrderedMap::new(),
        expires_at: None,
    };
    Ok(Draft { record, ttl: read_double_entry(e, "ttl") })
}

/// The record of an object.
pub fn json_to_record(
    d: Dialect,
    e: &Vec<(String, Json)>,
    default_namespace: Option<&str>,
) -> (r: Result<Draft, String>)
    ensures
        agrees_with(r, record_json(d, e.deep_view(), opt_text(default_namespace))),
{
    match d {
        Dialect::Node => read_node_record(e, default_namespace),
        Dialect::Foreign => read_foreign_record(e),
    }
}

/// The error for records that are no array.
pub open spec fn batch_message(d: Dialect) -> Seq<char> {
    match d {
        Dialect::Node => "records must be a JSON array"@,
        Dialect::Foreign => "bulk_ingest expects a JSON array"@,
    }
}

/// The error for a record that is no object.
pub open spec fn item_message(d: Dialect) -> Seq<char> {
    match d {
        Dialect::Node => "each batch record must be a JSON object"@,
        Dialect::Foreign => "each record must be a JSON object"@,
    }
}

/// The records of the first `n` items.
pub open spec fn batch_items(
    d: Dialect,
    items: Seq<JsonModel>,
    default_namespace: Option<Seq<char>>,
    n: nat,
) -> Result<Seq<(RecordModel, Option<u64>)>, Seq<char>>
    decreases n,
{
    if n == 0 || n > items.len() {
        Ok(Seq::empty())
    } else {
        match batch_items(d, items, default_namespace, (n - 1) as nat) {
            Err(m) => Err(m),
            Ok(v) => match items[n - 1] {
                JsonModel::Object(e) => match record_json(d, e, default_namespace) {
                    Err(m) => Err(m),
                    Ok(x) => Ok(v.push(x)),
                },
                _ => Err(item_message(d)),
            },
        }
    }
}

/// The records of a document.
pub open spec fn batch_json(
    d: Dialect,
    j: JsonModel,
    default_namespace: Option<Seq<char>>,
) -> Result<Seq<(RecordModel, Option<u64>)>, Seq<char>> {
    match j {
        JsonModel::Array(items) => batch_items(d, items, default_namespace, items.len()),
        _ => Err(batch_message(d)),
    }
}

proof fn lemma_batch_fails(
    d: Dialect,
    items: Seq<JsonModel>,
    default_namespace: Option<Seq<char>>,
    k: nat,
    n: nat,
)
    requires
        k <= n <= items.len(),
        batch_items(d, items, default_namespace, k) is Err,
    ensures
        batch_items(d, items, default_namespace, n) == batch_items(
            d,
            items,
            default_namespace,
            k,
        ),
    decreases n - k,
{
    if k < n {
        lemma_batch_fails(d, items, default_namespace, k, (n - 1) as nat);
    }
}

/// The records of a document.
pub fn json_to_batch(d: Dialect, j: &Json, default_namespace: Option<&str>) -> (r: Result<
    Vec<Draft>,
    String,
>)
    ensures
        agrees_with(r, batch_json(d, j.deep_view(), opt_text(default_namespace))),
{
    match j {
        Json::Array(items) => {
            let ghost all = items.deep_view();
            let ghost ns = opt_text(default_namespace);
            let mut out: Vec<Draft> = Vec::new();
            let mut i: usize = 0;
            proof {
                lemma_array_view(*items);
                assert(out.deep_view() =~= Seq::<(RecordModel, Option<u64>)>::empty());
            }
            while i < items.len()
                invariant
                    j.deep_view() == JsonModel::Array(all),
                    i <= items@.len(),
                    all == items.deep_view(),
                    ns == opt_text(default_namespace),
                    batch_items(d, all, ns, i as nat) == Ok::<
                        Seq<(RecordModel, Option<u64>)>,
                        Seq<char>,
                    >(out.deep_view()),
                decreases items@.len() - i,
            {
                let ghost before = out.deep_view();
                proof {
                    assert(all[i as int] == items@[i as int].deep_view());
                    if batch_items(d, all, ns, (i + 1) as nat) is Err {
                        lemma_batch_fails(d, all, ns, (i + 1) as nat, all.len());
                    }
                }
                match &items[i] {
                    Json::Object(e) => {
                        proof {
                            lemma_object_view(*e);
                        }
                        match json_to_record(d, e, default_namespace) {
                            Ok(x) => {
                                out.push(x);
                                proof {
                                    assert(out.deep_view() =~= before.push(x.deep_view()));
                                }
                            },
                            Err(m) => {
                                return Err(m);
                            },
                        }
                    },
                    _ => {
                        return match d {
                            Dialect::Node => Err(
                                "each batch record must be a JSON object".to_owned(),
                            ),
                            Dialect::Foreign => Err("each record must be a JSON object".to_owned()),
                        };
                    },
                }
                i += 1;
            }
            Ok(out)
        },
        _ => match d {
            Dialect::Node => Err("records must be a JSON array".to_owned()),
            Dialect::Foreign => Err("bulk_ingest expects a JSON array".to_owned()),
        },
    }
}

/// The error for a text that is no document, around the message of the reader.
pub open spec fn batch_text_message(d: Dialect, message: Seq<char>) -> Seq<char> {
    match d {
        Dialect::Node => "records must be valid JSON for batch operations: "@ + message,
        Dialect::Foreign => message,
    }
}

/// The records of a text.
pub fn parse_record_batch(d: Dialect, text: &str, default_namespace: Option<&str>) -> (r: Result<
    Vec<Draft>,
    String,
>)
    ensures
        agrees_with(
            r,
            match json_read(text@) {
                Ok(j) => batch_json(d, j, opt_text(default_namespace)),
                Err(m) => Err(batch_text_message(d, m)),
            },
        ),
{
    match read_json(text) {
        Ok(j) => json_to_batch(d, &j, default_namespace),
        Err(m) => match d {
            Dialect::Node => Err(
                concat2("records must be valid JSON for batch operations: ", m.as_str()),
            ),
            Dialect::Foreign => Err(m),
        },
    }
}

/// A change that was read.
pub enum DraftOperation {
    Upsert(Draft),
    Insert(Draft),
    Delete { namespace: String, id: String },
}

/// The mathematical value of a change that was read.
pub enum DraftModel {
    Upsert(RecordModel, Option<u64>),
    Insert(RecordModel, Option<u64>),
    Delete(KeyModel),
}

impl DeepView for DraftOperation {
    type V = DraftModel;

    open spec fn deep_view(&self) -> DraftModel {
        match *self {
            DraftOperation::Upsert(x) => DraftModel::Upsert(x.record@, x.ttl),
            DraftOperation::Insert(x) => DraftModel::Insert(x.record@, x.ttl),
            DraftOperation::Delete { namespace, id } => DraftModel::Delete((namespace@, id@)),
        }
    }
}

/// The change of an object.
pub open spec fn operation_json(e: Entries) -> Result<DraftModel, Seq<char>> {
    match entry_text(e, "op"@) {
        None => Err("operation must have an 'op' field"@),
        Some(op) => if op == "upsert"@ {
            match foreign_record(e) {
                Err(m) => Err(m),
                Ok((m, ttl)) => Ok(DraftModel::Upsert(m, ttl)),
            }
        } else if op == "insert"@ {
            match foreign_record(e) {
                Err(m) => Err(m),
                Ok((m, ttl)) => Ok(DraftModel::Insert(m, ttl)),
            }
        } else if op == "delete"@ {
            match entry_text(e, "id"@) {
                None => Err("delete operation must have an 'id' field"@),
                Some(id) => Ok(
                    DraftModel::Delete(
                        (
                            match entry_text(e, "namespace"@) {
                                Some(s) => s,
                                None => Seq::empty(),
                            },
                            id,
                        ),
                    ),
                ),
            }
        } else {
            Err("unknown operation type: "@ + op)
        },
    }
}

fn read_operation(e: &Vec<(String, Json)>) -> (r: Result<DraftOperation, String>)
    ensures
        agrees_with(r, operation_json(e.deep_view())),
{
    let op = match read_text_entry(e, "op") {
        Some(s) => s,
        None => {
            return Err("operation must have an 'op' field".to_owned());
        },
    };
    if same_text(op.as_str(), "upsert") {
        return match read_foreign_record(e) {
            Ok(x) => Ok(DraftOperation::Upsert(x)),
            Err(m) => Err(m),
        };
    }
    if same_text(op.as_str(), "insert") {
        return match read_foreign_record(e) {
            Ok(x) => Ok(DraftOperation::Insert(x)),
            Err(m) => Err(m),
        };
    }
    if same_text(op.as_str(), "delete") {
        let id = match read_text_entry(e, "id") {
            Some(s) => s,
            None => {
                return Err("delete operation must have an 'id' field".to_owned());
            },
        };
        let namespace = match read_text_entry(e, "namespace") {
            Some(s) => s,
            None => {
                let none = String::new();
                proof {
                    assert(none@ =~= Seq::<char>::empty());
                }
                none
            },
        };
        return Ok(DraftOperation::Delete { namespace, id });
    }
    Err(concat2("unknown operation type: ", op.as_str()))
}

/// The changes of the first `n` items.
pub open spec fn operation_items(items: Seq<JsonModel>, n: nat) -> Result<
    Seq<DraftModel>,
    Seq<char>,
>
    decreases n,
{
    if n == 0 || n > items.len() {
        Ok(Seq::empty())
    } else {
        match operation_items(items, (n - 1) as nat) {
            Err(m) => Err(m),
            Ok(v) => match items[n - 1] {
                JsonModel::Object(e) => match operation_json(e) {
                    Err(m) => Err(m),
                    Ok(x) => Ok(v.push(x)),
                },
                _ => Err("each operation must be a JSON object"@),
            },
        }
    }
}

/// The changes of a document.
pub open spec fn operations_json(j: JsonModel) -> Result<Seq<DraftModel>, Seq<char>> {
    match j {
        JsonModel::Array(items) => operation_items(items, items.len()),
        _ => Err("transaction_execute expects a JSON array"@),
    }
}

proof fn lemma_operations_fail(items: Seq<JsonModel>, k: nat, n: nat)
    requires
        k <= n <= items.len(),
        operation_items(items, k) is Err,
    ensures
        operation_items(items, n) == operation_items(items, k),
    decreases n - k,
{
    if k < n {
        lemma_operations_fail(items, k, (n - 1) as nat);
    }
}

/// The changes of a document.
pub fn json_to_operations(j: &Json) -> (r: Result<Vec<DraftOperation>, String>)
    ensures
        agrees_with(r, operations_json(j.deep_view())),
{
    match j {
        Json::Array(items) => {
            let ghost all = items.deep_view();
            let mut out: Vec<DraftOperation> = Vec::new();
            let mut i: usize = 0;
            proof {
                lemma_array_view(*items);
                assert(out.deep_view() =~= Seq::<DraftModel>::empty());
            }
            while i < items.len()
                invariant
                    j.deep_view() == JsonModel::Array(all),
                    i <= items@.len(),
                    all == items.deep_view(),
                    operation_items(all, i as nat) == Ok::<Seq<DraftModel>, Seq<char>>(
                        out.deep_view(),
                    ),
                decreases items@.len() - i,
            {
                let ghost before = out.deep_view();
                proof {
                    assert(all[i as int] == items@[i as int].deep_view());
                    if operation_items(all, (i + 1) as nat) is Err {
                        lemma_operations_fail(all, (i + 1) as nat, all.len());
                    }
                }
                match &items[i] {
                    Json::Object(e) => {
                        proof {
                            lemma_object_view(*e);
                        }
                        match read_operation(e) {
                            Ok(x) => {
                                out.push(x);
                                proof {
                                    assert(out.deep_view() =~= before.push(x.deep_view()));
                                }
                            },
                            Err(m) => {
                                return Err(m);
                            },
                        }
                    },
                    _ => {
                        return Err("each operation must be a JSON object".to_owned());
                    },
                }
                i += 1;
            }
            Ok(out)
        },
        _ => Err("transaction_execute expects a JSON array".to_owned()),
    }
}

/// The changes of a text.
pub fn parse_operations(text: &str) -> (r: Result<Vec<DraftOperation>, String>)
    ensures
        agrees_with(
            r,
            match json_read(text@) {
                Ok(j) => operations_json(j),
                Err(m) => Err(m),
            },
        ),
{
    match read_json(text) {
        Ok(j) => json_to_operations(&j),
        Err(m) => Err(m),
    }
}

} // verus!
