//! What the documents of requests and records stand for.
use vstd::prelude::*;
use crate::float_bits::{double_is_finite, double_lt, law_widened_narrowed, narrowed, single_is_finite};
use crate::json::{entry_of, entry_position, JsonModel};
use crate::json_output::{
    double_out, integer_out, law_metadata_json, law_vector_json, metadata_out,
    named_out, natural_out, record_out, result_out, single_out, spaces_out, texts_out,
    tokens_out, value_finite, value_out, vector_out, weights_out,
};
use crate::json_records::{
    batch_items, entry_text, operation_json, record_json, DraftModel,
};
use crate::json_search::request_json;
use crate::json_values::{metadata_document, Dialect};
use crate::json_vectors::{
    named_entries, singles_json, space_entries, sparse_entries, sparse_json, token_items, tokens_json,
    vector_json,
};
use crate::metadata::ValueModel;
use crate::ordered_map::{ascending, lemma_insert_last};
use crate::record::RecordModel;
use crate::search_options::{FusionStrategy, SearchResult};
use crate::value_codec::value_ordered;

verus! {

/// The entry of a key is the first one that has it, and there is none where none has it.
pub proof fn law_entry(entries: Seq<(Seq<char>, JsonModel)>, key: Seq<char>)
    ensures
        entry_of(entries, key) matches Some(j) ==> exists|i: int|
            0 <= i < entries.len() && #[trigger] entries[i] == (key, j) && forall|p: int|
                0 <= p < i ==> (#[trigger] entries[p]).0 != key,
        entry_of(entries, key) is None <==> forall|i: int|
            0 <= i < entries.len() ==> (#[trigger] entries[i]).0 != key,
    decreases entries.len(),
{
    lemma_entry_position(entries, key);
    let n = entry_position(entries, key) as int;
    if n < entries.len() {
        assert(entries[n] == (key, entries[n].1));
    }
}

proof fn lemma_entry_position(entries: Seq<(Seq<char>, JsonModel)>, key: Seq<char>)
    ensures
        entry_position(entries, key) <= entries.len(),
        entry_position(entries, key) < entries.len() ==> entries[entry_position(
            entries,
            key,
        ) as int].0 == key,
        forall|p: int|
            0 <= p < entry_position(entries, key) ==> (#[trigger] entries[p]).0 != key,
    decreases entries.len(),
{
    if entries.len() > 0 && entries[0].0 != key {
        let rest = entries.drop_first();
        lemma_entry_position(rest, key);
        assert forall|p: int| 0 <= p < entry_position(entries, key) implies (
        #[trigger] entries[p]).0 != key by {
            if p > 0 {
                assert(rest[p - 1] == entries[p]);
            }
        }
    }
}

proof fn lemma_entry_at(entries: Seq<(Seq<char>, JsonModel)>, i: int)
    requires
        0 <= i < entries.len(),
        forall|p: int| 0 <= p < i ==> (#[trigger] entries[p]).0 != entries[i].0,
    ensures
        entry_of(entries, entries[i].0) == Some(entries[i].1),
{
    lemma_entry_position(entries, entries[i].0);
}

/// A vector has one component for each number of its document, rounded to single precision.
pub proof fn law_vector_components(d: Dialect, label: Seq<char>, j: JsonModel)
    ensures
        vector_json(d, label, j) matches Ok(v) ==> j is Array && v.len() == j->Array_0.len()
            && forall|i: int|
            0 <= i < v.len() ==> (j->Array_0[i] matches JsonModel::Number(n) && n.double matches Some(
                x,
            ) && #[trigger] v[i] == narrowed(x)),
        vector_json(d, label, j) is Ok <==> j is Array && forall|i: int|
            0 <= i < j->Array_0.len() ==> ((#[trigger] j->Array_0[i]) matches JsonModel::Number(n)
                && n.double is Some),
{
    if let JsonModel::Array(items) = j {
        lemma_components(items, items.len());
    }
}

proof fn lemma_components(items: Seq<JsonModel>, n: nat)
    requires
        n <= items.len(),
    ensures
        singles_json(items, n) matches Some(v) ==> v.len() == n && forall|i: int|
            0 <= i < n ==> (items[i] matches JsonModel::Number(k) && k.double matches Some(x)
                && #[trigger] v[i] == narrowed(x)),
        singles_json(items, n) is Some <==> forall|i: int|
            0 <= i < n ==> ((#[trigger] items[i]) matches JsonModel::Number(k) && k.double is Some),
    decreases n,
{
    if n > 0 {
        lemma_components(items, (n - 1) as nat);
        if singles_json(items, n) is Some {
            assert forall|i: int| 0 <= i < n implies ((#[trigger] items[i]) matches JsonModel::Number(
                k,
            ) && k.double is Some) by {}
        } else if singles_json(items, (n - 1) as nat) is Some {
            assert(!(items[n - 1] matches JsonModel::Number(k) && k.double is Some));
        }
    }
}

/// The options of a search: each field of a request is what the entry of its name holds, and has
/// its default where there is none or a null.
pub proof fn law_request(e: Seq<(Seq<char>, JsonModel)>)
    ensures
        request_json(e) matches Ok(r) ==> {
            &&& match entry_of(e, "k"@) {
                Some(JsonModel::Number(n)) => n.natural matches Some(v) && r.top_k == v as usize,
                _ => r.top_k == 10,
            }
            &&& match entry_of(e, "fetchK"@) {
                Some(JsonModel::Number(n)) => n.natural matches Some(v) && r.fetch_k == v as usize,
                _ => r.fetch_k == 0,
            }
            &&& match entry_of(e, "truncateDim"@) {
                Some(JsonModel::Number(n)) => n.natural matches Some(v) && r.truncate_dim == Some(
                    v as usize,
                ),
                _ => r.truncate_dim is None,
            }
            &&& match entry_of(e, "namespace"@) {
                Some(JsonModel::Text(s)) => r.namespace == s,
                _ => r.namespace.len() == 0,
            }
            &&& match entry_of(e, "vectorName"@) {
                Some(JsonModel::Text(s)) => r.vector_name == Some(s),
                _ => r.vector_name is None,
            }
            &&& match entry_of(e, "allNamespaces"@) {
                Some(JsonModel::Bool(b)) => r.all_namespaces == b,
                _ => !r.all_namespaces,
            }
            &&& match entry_of(e, "explain"@) {
                Some(JsonModel::Bool(b)) => r.explain == b,
                _ => !r.explain,
            }
            &&& match entry_of(e, "denseWeight"@) {
                Some(JsonModel::Number(n)) => n.double matches Some(x) && r.dense_weight == narrowed(x),
                _ => r.dense_weight == 0x3f80_0000u32,
            }
            &&& match entry_of(e, "sparseWeight"@) {
                Some(JsonModel::Number(n)) => n.double matches Some(x) && r.sparse_weight == narrowed(
                    x,
                ),
                _ => r.sparse_weight == 0x3f80_0000u32,
            }
            &&& match entry_of(e, "mmrLambda"@) {
                Some(JsonModel::Number(n)) => n.double matches Some(x) && r.mmr_lambda == Some(
                    narrowed(x),
                ),
                _ => r.mmr_lambda is None,
            }
            &&& entry_of(e, "filter"@) is None ==> r.filter is None
            &&& entry_of(e, "filter"@) matches Some(j) ==> (r.filter is Some <==> j != JsonModel::Null)
            &&& entry_of(e, "sparse"@) is None ==> r.sparse.len() == 0
            &&& entry_of(e, "queryVectors"@) is None ==> r.queries.len() == 0
        },
{
}

/// How the scores of a search are joined: by a weighted sum unless the options ask for reciprocal
/// ranks, whose constant is positive and sixty unless given.
pub proof fn law_request_fusion(e: Seq<(Seq<char>, JsonModel)>)
    ensures
        request_json(e) matches Ok(r) ==> {
            &&& entry_of(e, "fusion"@) is None ==> r.fusion == FusionStrategy::Linear
            &&& entry_of(e, "fusion"@) == Some(JsonModel::Text("linear"@)) ==> r.fusion
                == FusionStrategy::Linear
            &&& entry_of(e, "fusion"@) == Some(JsonModel::Text("rrf"@)) ==> (r.fusion matches FusionStrategy::Rrf {
                rank_constant,
            } && rank_constant >= 1 && match entry_of(e, "rrfK"@) {
                Some(JsonModel::Number(n)) => n.natural matches Some(v) && (v as usize > 0
                    ==> rank_constant == v as usize),
                _ => rank_constant == 60,
            })
        },
        entry_of(e, "fusion"@) matches Some(JsonModel::Text(s)) ==> s != "linear"@ && s != "rrf"@
            ==> request_json(e) is Err,
{
    reveal_strlit("linear");
    reveal_strlit("rrf");
    assert("linear"@.len() != "rrf"@.len());
}

/// A record of an object has the id, namespace and vector that the object gives, has no expiry
/// time of its own, and comes with the time to live of the object.
pub proof fn law_record_object(
    d: Dialect,
    e: Seq<(Seq<char>, JsonModel)>,
    namespace: Option<Seq<char>>,
)
    ensures
        record_json(d, e, namespace) matches Ok((m, ttl)) ==> {
            &&& entry_of(e, "id"@) == Some(JsonModel::Text(m.id))
            &&& match entry_of(e, "namespace"@) {
                Some(JsonModel::Text(s)) => m.namespace == s,
                Some(_) => d == Dialect::Foreign && m.namespace.len() == 0,
                None => match (d, namespace) {
                    (Dialect::Node, Some(s)) => m.namespace == s,
                    _ => m.namespace.len() == 0,
                },
            }
            &&& entry_of(e, "vector"@) matches Some(JsonModel::Array(items)) && items.len()
                == m.vector.len() && forall|i: int|
                0 <= i < items.len() ==> (items[i] matches JsonModel::Number(n) && n.double matches Some(
                    x,
                ) && #[trigger] m.vector[i] == narrowed(x))
            &&& entry_of(e, "metadata"@) is None ==> m.metadata.len() == 0
            &&& entry_of(e, "sparse"@) is None ==> m.sparse.len() == 0
            &&& entry_of(e, "vectors"@) is None ==> m.vectors.len() == 0
            &&& m.expires_at is None
            &&& match entry_of(e, "ttl"@) {
                Some(JsonModel::Number(n)) => ttl == n.double,
                _ => ttl is None,
            }
            &&& d == Dialect::Node ==> (ttl matches Some(t) ==> double_is_finite(t) && !double_lt(
                t,
                0,
            ))
        },
        entry_of(e, "id"@) is None || entry_of(e, "vector"@) is None ==> record_json(
            d,
            e,
            namespace,
        ) is Err,
{
    if let Some(j) = entry_of(e, "vector"@) {
        law_vector_components(Dialect::Node, "batch vector"@, j);
        law_vector_components(Dialect::Foreign, "vector"@, j);
    }
}

/// Whether a record can be told from its document: its numbers are finite, its maps in key order,
/// and its names not empty.
pub open spec fn tellable(m: RecordModel) -> bool {
    &&& value_ordered(ValueModel::Object(m.metadata))
    &&& value_finite(ValueModel::Object(m.metadata))
    &&& ascending::<String, u32>(m.sparse)
    &&& ascending::<String, Seq<u32>>(m.vectors)
    &&& ascending::<String, Seq<Seq<u32>>>(m.multi_vectors)
    &&& forall|i: int| 0 <= i < m.vector.len() ==> single_is_finite(#[trigger] m.vector[i])
    &&& forall|i: int| 0 <= i < m.sparse.len() ==> single_is_finite((#[trigger] m.sparse[i]).1)
    &&& forall|i: int|
        0 <= i < m.vectors.len() ==> (#[trigger] m.vectors[i]).0.len() > 0 && finite(m.vectors[i].1)
    &&& forall|i: int|
        0 <= i < m.multi_vectors.len() ==> (#[trigger] m.multi_vectors[i]).0.len() > 0 && forall|t: int|
            0 <= t < m.multi_vectors[i].1.len() ==> finite(#[trigger] m.multi_vectors[i].1[t])
}

/// Whether every component of a vector is finite.
pub open spec fn finite(v: Seq<u32>) -> bool {
    forall|i: int| 0 <= i < v.len() ==> single_is_finite(#[trigger] v[i])
}

proof fn lemma_weights_back(pairs: Seq<(Seq<char>, u32)>, n: nat)
    requires
        n <= pairs.len(),
        ascending::<String, u32>(pairs),
        forall|i: int| 0 <= i < pairs.len() ==> single_is_finite((#[trigger] pairs[i]).1),
    ensures
        sparse_entries(weights_out(pairs)->Object_0, n) == Some(pairs.take(n as int)),
    decreases n,
{
    if n == 0 {
        assert(pairs.take(0) =~= Seq::<(Seq<char>, u32)>::empty());
    } else {
        lemma_weights_back(pairs, (n - 1) as nat);
        law_widened_narrowed(pairs[n - 1].1);
        lemma_insert_last::<String, u32>(pairs.take(n - 1), pairs[n - 1].0, pairs[n - 1].1);
        assert(pairs.take(n as int) =~= pairs.take(n - 1).push(pairs[n - 1]));
    }
}

proof fn lemma_named_back(pairs: Seq<(Seq<char>, Seq<u32>)>, n: nat)
    requires
        n <= pairs.len(),
        ascending::<String, Seq<u32>>(pairs),
        forall|i: int|
            0 <= i < pairs.len() ==> (#[trigger] pairs[i]).0.len() > 0 && finite(pairs[i].1),
    ensures
        named_entries(named_out(pairs)->Object_0, n) == Ok::<
            Seq<(Seq<char>, Seq<u32>)>,
            Seq<char>,
        >(pairs.take(n as int)),
    decreases n,
{
    if n == 0 {
        assert(pairs.take(0) =~= Seq::<(Seq<char>, Seq<u32>)>::empty());
    } else {
        lemma_named_back(pairs, (n - 1) as nat);
        assert(finite(pairs[n - 1].1));
        law_vector_json(Dialect::Node, "named vector"@, pairs[n - 1].1);
        lemma_insert_last::<String, Seq<u32>>(pairs.take(n - 1), pairs[n - 1].0, pairs[n - 1].1);
        assert(pairs.take(n as int) =~= pairs.take(n - 1).push(pairs[n - 1]));
    }
}

proof fn lemma_tokens_back(tokens: Seq<Seq<u32>>, n: nat)
    requires
        n <= tokens.len(),
        forall|t: int| 0 <= t < tokens.len() ==> finite(#[trigger] tokens[t]),
    ensures
        token_items(tokens_out(tokens)->Array_0, n) == Ok::<Seq<Seq<u32>>, Seq<char>>(
            tokens.take(n as int),
        ),
    decreases n,
{
    if n == 0 {
        assert(tokens.take(0) =~= Seq::<Seq<u32>>::empty());
    } else {
        lemma_tokens_back(tokens, (n - 1) as nat);
        assert(finite(tokens[n - 1]));
        law_vector_json(Dialect::Node, "multi-vector token"@, tokens[n - 1]);
        assert(tokens.take(n as int) =~= tokens.take(n - 1).push(tokens[n - 1]));
    }
}

proof fn lemma_spaces_back(pairs: Seq<(Seq<char>, Seq<Seq<u32>>)>, n: nat)
    requires
        n <= pairs.len(),
        ascending::<String, Seq<Seq<u32>>>(pairs),
        forall|i: int|
            0 <= i < pairs.len() ==> (#[trigger] pairs[i]).0.len() > 0 && forall|t: int|
                0 <= t < pairs[i].1.len() ==> finite(#[trigger] pairs[i].1[t]),
    ensures
        space_entries(spaces_out(pairs)->Object_0, n) == Ok::<
            Seq<(Seq<char>, Seq<Seq<u32>>)>,
            Seq<char>,
        >(pairs.take(n as int)),
    decreases n,
{
    if n == 0 {
        assert(pairs.take(0) =~= Seq::<(Seq<char>, Seq<Seq<u32>>)>::empty());
    } else {
        lemma_spaces_back(pairs, (n - 1) as nat);
        let tokens = pairs[n - 1].1;
        lemma_tokens_back(tokens, tokens.len());
        assert(tokens.take(tokens.len() as int) =~= tokens);
        assert(tokens_json(tokens_out(tokens)) == Ok::<Seq<Seq<u32>>, Seq<char>>(tokens));
        lemma_insert_last::<String, Seq<Seq<u32>>>(
            pairs.take(n - 1),
            pairs[n - 1].0,
            pairs[n - 1].1,
        );
        assert(pairs.take(n as int) =~= pairs.take(n - 1).push(pairs[n - 1]));
    }
}

/// A sparse vector is read back from its document.
pub proof fn law_sparse_json(d: Dialect, part: bool, pairs: Seq<(Seq<char>, u32)>)
    requires
        ascending::<String, u32>(pairs),
        forall|i: int| 0 <= i < pairs.len() ==> single_is_finite((#[trigger] pairs[i]).1),
    ensures
        sparse_json(d, part, weights_out(pairs)) == Ok::<Seq<(Seq<char>, u32)>, Seq<char>>(pairs),
{
    lemma_weights_back(pairs, pairs.len());
    assert(pairs.take(pairs.len() as int) =~= pairs);
}

/// The document of a record has each of its parts under the name of the part, and nothing else.
pub proof fn law_record_document(m: RecordModel)
    ensures
        ({
            let e = record_out(m)->Object_0;
            &&& entry_of(e, "id"@) == Some(JsonModel::Text(m.id))
            &&& entry_of(e, "namespace"@) == Some(JsonModel::Text(m.namespace))
            &&& entry_of(e, "metadata"@) == Some(metadata_out(m.metadata))
            &&& entry_of(e, "multi_vectors"@) == Some(spaces_out(m.multi_vectors))
            &&& entry_of(e, "sparse"@) == Some(weights_out(m.sparse))
            &&& entry_of(e, "vector"@) == Some(vector_out(m.vector))
            &&& entry_of(e, "vectors"@) == Some(named_out(m.vectors))
            &&& entry_of(e, "expires_at"@) == Some(
                match m.expires_at {
                    Some(t) => double_out(t),
                    None => JsonModel::Null,
                },
            )
            &&& entry_of(e, "ttl"@) is None
            &&& e.len() == 8
        }),
{
    let e = record_out(m)->Object_0;
    reveal_strlit("expires_at");
    reveal_strlit("id");
    reveal_strlit("metadata");
    reveal_strlit("multi_vectors");
    reveal_strlit("namespace");
    reveal_strlit("sparse");
    reveal_strlit("vector");
    reveal_strlit("vectors");
    reveal_strlit("ttl");
    assert("sparse"@[0] == 's' && "vector"@[0] == 'v');
    assert(e.len() == 8);
    assert(e[0].0.len() == 10 && e[1].0.len() == 2 && e[2].0.len() == 8 && e[3].0.len() == 13);
    assert(e[4].0.len() == 9 && e[5].0.len() == 6 && e[6].0.len() == 6 && e[7].0.len() == 7);
    lemma_entry_at(e, 0);
    lemma_entry_at(e, 1);
    lemma_entry_at(e, 2);
    lemma_entry_at(e, 3);
    lemma_entry_at(e, 4);
    lemma_entry_at(e, 5);
    assert(e[5].0 != e[6].0);
    lemma_entry_at(e, 6);
    lemma_entry_at(e, 7);
    law_entry(e, "ttl"@);
    assert forall|i: int| 0 <= i < e.len() implies (#[trigger] e[i]).0 != "ttl"@ by {
        assert("ttl"@.len() == 3);
    }
}

/// A record is read back from its document, but for its expiry time. The generated bindings read
/// neither named vectors nor token vectors.
pub proof fn law_record_json(d: Dialect, m: RecordModel, namespace: Option<Seq<char>>)
    requires
        tellable(m),
    ensures
        record_json(d, record_out(m)->Object_0, namespace) == Ok::<
            (RecordModel, Option<u64>),
            Seq<char>,
        >(
            (
                match d {
                    Dialect::Node => RecordModel { expires_at: None, ..m },
                    Dialect::Foreign => RecordModel {
                        expires_at: None,
                        vectors: Seq::empty(),
                        multi_vectors: Seq::empty(),
                        ..m
                    },
                },
                None,
            ),
        ),
{
    law_record_document(m);
    law_metadata_json(d, ValueModel::Object(m.metadata));
    assert(value_out(ValueModel::Object(m.metadata)) == metadata_out(m.metadata)) by {
        assert(value_out(ValueModel::Object(m.metadata))->Object_0 =~= metadata_out(
            m.metadata,
        )->Object_0);
    }
    assert(metadata_document(d, metadata_out(m.metadata)) == Ok::<
        Seq<(Seq<char>, ValueModel)>,
        Seq<char>,
    >(m.metadata));
    law_sparse_json(d, true, m.sparse);
    law_vector_json(Dialect::Node, "batch vector"@, m.vector);
    law_vector_json(Dialect::Foreign, "vector"@, m.vector);
    lemma_named_back(m.vectors, m.vectors.len());
    assert(m.vectors.take(m.vectors.len() as int) =~= m.vectors);
    lemma_spaces_back(m.multi_vectors, m.multi_vectors.len());
    assert(m.multi_vectors.take(m.multi_vectors.len() as int) =~= m.multi_vectors);
}

/// The changes of a transaction: each object asks for what its `op` names, of the record or of the
/// key that it gives.
pub proof fn law_operation(e: Seq<(Seq<char>, JsonModel)>)
    ensures
        operation_json(e) matches Ok(DraftModel::Upsert(m, ttl)) ==> entry_of(e, "op"@) == Some(
            JsonModel::Text("upsert"@),
        ) && record_json(Dialect::Foreign, e, None) == Ok::<(RecordModel, Option<u64>), Seq<char>>(
            (m, ttl),
        ),
        operation_json(e) matches Ok(DraftModel::Insert(m, ttl)) ==> entry_of(e, "op"@) == Some(
            JsonModel::Text("insert"@),
        ) && record_json(Dialect::Foreign, e, None) == Ok::<(RecordModel, Option<u64>), Seq<char>>(
            (m, ttl),
        ),
        operation_json(e) matches Ok(DraftModel::Delete(k)) ==> entry_of(e, "op"@) == Some(
            JsonModel::Text("delete"@),
        ) && entry_of(e, "id"@) == Some(JsonModel::Text(k.1)) && match entry_of(e, "namespace"@) {
            Some(JsonModel::Text(s)) => k.0 == s,
            _ => k.0.len() == 0,
        },
        entry_of(e, "op"@) == Some(JsonModel::Text("delete"@)) && entry_text(e, "id"@) is Some
            ==> operation_json(e) is Ok,
        entry_of(e, "op"@) is None ==> operation_json(e) is Err,
{
    reveal_strlit("upsert");
    reveal_strlit("insert");
    reveal_strlit("delete");
    assert("upsert"@[0] == 'u' && "insert"@[0] == 'i' && "delete"@[0] == 'd');
}

/// Records of a batch come one for each item, in order.
pub proof fn law_batch_items(
    d: Dialect,
    items: Seq<JsonModel>,
    namespace: Option<Seq<char>>,
    n: nat,
)
    requires
        n <= items.len(),
    ensures
        batch_items(d, items, namespace, n) matches Ok(list) ==> list.len() == n && forall|i: int|
            0 <= i < n ==> ((#[trigger] items[i]) matches JsonModel::Object(e) && record_json(
                d,
                e,
                namespace,
            ) == Ok::<(RecordModel, Option<u64>), Seq<char>>(list[i])),
        (forall|i: int|
            0 <= i < n ==> ((#[trigger] items[i]) matches JsonModel::Object(e) && record_json(
                d,
                e,
                namespace,
            ) is Ok)) ==> batch_items(d, items, namespace, n) is Ok,
    decreases n,
{
    if n > 0 {
        law_batch_items(d, items, namespace, (n - 1) as nat);
        if let Ok(list) = batch_items(d, items, namespace, n) {
            let before = batch_items(d, items, namespace, (n - 1) as nat)->Ok_0;
            assert(list == before.push(list[n - 1]));
            assert forall|i: int| 0 <= i < n implies ((#[trigger] items[i]) matches JsonModel::Object(
                e,
            ) && record_json(d, e, namespace) == Ok::<(RecordModel, Option<u64>), Seq<char>>(
                list[i],
            )) by {
                if i < n - 1 {
                    assert(list[i] == before[i]);
                }
            }
        }
    }
}

/// The document of a size that may be missing is its number or a null.
pub open spec fn optional_number(n: Option<usize>) -> JsonModel {
    match n {
        Some(x) => natural_out(x as u64),
        None => JsonModel::Null,
    }
}

/// The document of a search result has each of its parts under the name of the part, and says how
/// the result came about just where that is asked for.
pub proof fn law_result_document(r: SearchResult, explain: bool, fusion: Seq<char>)
    ensures
        ({
            let e = result_out(r, explain, fusion)->Object_0;
            &&& entry_of(e, "id"@) == Some(JsonModel::Text(r.id@))
            &&& entry_of(e, "namespace"@) == Some(JsonModel::Text(r.namespace@))
            &&& entry_of(e, "score"@) == Some(single_out(r.score))
            &&& entry_of(e, "dense_score"@) == Some(single_out(r.dense_score))
            &&& entry_of(e, "sparse_score"@) == Some(single_out(r.sparse_score))
            &&& entry_of(e, "dense_rank"@) == Some(optional_number(r.dense_rank))
            &&& entry_of(e, "sparse_rank"@) == Some(optional_number(r.sparse_rank))
            &&& entry_of(e, "metadata"@) == Some(metadata_out(r.metadata.pairs()))
            &&& entry_of(e, "matched_terms"@) == Some(texts_out(r.matched_terms.deep_view()))
            &&& entry_of(e, "explain"@) is Some <==> explain
        }),
{
    let e = result_out(r, explain, fusion)->Object_0;
    reveal_strlit("dense_rank");
    reveal_strlit("dense_score");
    reveal_strlit("explain");
    reveal_strlit("id");
    reveal_strlit("matched_terms");
    reveal_strlit("metadata");
    reveal_strlit("namespace");
    reveal_strlit("score");
    reveal_strlit("sparse_rank");
    reveal_strlit("sparse_score");
    reveal_strlit("vector_name");
    let n: int = if explain {
        1
    } else {
        0
    };
    assert(e.len() == 10 + n);
    assert(e[0].0 == "dense_rank"@ && e[1].0 == "dense_score"@);
    assert(e[2 + n].0 == "id"@ && e[3 + n].0 == "matched_terms"@ && e[4 + n].0 == "metadata"@);
    assert(e[5 + n].0 == "namespace"@ && e[6 + n].0 == "score"@ && e[7 + n].0 == "sparse_rank"@);
    assert(e[8 + n].0 == "sparse_score"@ && e[9 + n].0 == "vector_name"@);
    assert(explain ==> e[2].0 == "explain"@);
    assert("dense_score"@[0] == 'd' && "sparse_rank"@[0] == 's' && "vector_name"@[0] == 'v');
    lemma_entry_at(e, 0);
    lemma_entry_at(e, 1);
    lemma_entry_at(e, 2 + n);
    lemma_entry_at(e, 3 + n);
    lemma_entry_at(e, 4 + n);
    lemma_entry_at(e, 5 + n);
    lemma_entry_at(e, 6 + n);
    assert(e[7 + n].0 != e[1].0);
    lemma_entry_at(e, 7 + n);
    lemma_entry_at(e, 8 + n);
    if explain {
        lemma_entry_at(e, 2);
    } else {
        law_entry(e, "explain"@);
        assert forall|i: int| 0 <= i < e.len() implies (#[trigger] e[i]).0 != "explain"@ by {
            assert("explain"@.len() == 7);
        }
    }
}

/// The document of a number gives back the number: an integer in each form that can hold it, and a
/// finite double or single as it is, rounded to no other. What JSON has no number for is null.
pub proof fn law_number_documents(i: i64, n: u64, x: u64, y: u32)
    ensures
        integer_out(i) matches JsonModel::Number(k) && k.integer == Some(i) && (k.natural is Some
            <==> i >= 0) && (i >= 0 ==> k.natural == Some(i as u64)),
        natural_out(n) matches JsonModel::Number(k) && k.natural == Some(n) && (k.integer is Some
            <==> n <= i64::MAX),
        double_is_finite(x) ==> (double_out(x) matches JsonModel::Number(k) && k.double == Some(x)
            && k.integer is None && k.natural is None),
        !double_is_finite(x) ==> double_out(x) == JsonModel::Null,
        single_is_finite(y) ==> (single_out(y) matches JsonModel::Number(k) && k.double matches Some(
            z,
        ) && narrowed(z) == y),
        !single_is_finite(y) ==> single_out(y) == JsonModel::Null,
{
    if single_is_finite(y) {
        law_widened_narrowed(y);
    }
}

} // verus!
