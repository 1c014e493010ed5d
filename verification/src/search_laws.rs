//! What searches find.
use vstd::prelude::*;
use crate::ann::row_keys;
use crate::candidates::{
    considered, eligible, falls_back, law_scan_complete, lemma_shown_among, lists_opt, shown_keys,
};
use crate::filter::{accepts, MetadataFilter};
use crate::float_bits::double_le;
use crate::hybrid::scored_keys;
use crate::ordered_map::{
    ascending, has_key, lemma_ascending_unique, lemma_map_of_at, map_of, position_of,
};
use crate::ordered_set::{lemma_lists, lemma_lists_distinct};
use crate::payload_index::{index_candidates, law_candidates_complete, PayloadIndexType};
use crate::record::{KeyModel, RecordModel};
use crate::search::{DenseSource, SearchPlan};

verus! {

/// Whether a key names a record that a search may show: it is live, in the namespace, has the
/// vector that a query is compared with, and the filter accepts its metadata.
pub open(crate) spec fn suits(
    rows: Seq<(KeyModel, RecordModel)>,
    has_query: bool,
    vector_name: Option<Seq<char>>,
    filter: Option<MetadataFilter>,
    namespace: Option<Seq<char>>,
    now: u64,
    k: KeyModel,
) -> bool {
    exists|i: int|
        {
            let m = (#[trigger] rows[i]).1;
            &&& 0 <= i < rows.len()
            &&& rows[i].0 == k
            &&& m.expires_at matches Some(t) ==> !double_le(t, now)
            &&& namespace matches Some(n) ==> k.0 == n
            &&& (has_query && vector_name is Some && vector_name->Some_0.len() > 0) ==> exists|
                j: int,
            |
                0 <= j < m.vectors.len() && (#[trigger] m.vectors[j]).0 == vector_name->Some_0
            &&& filter matches Some(f) ==> accepts(f, m.metadata)
        }
}

/// The keys that payload indexes single out.
pub open(crate) spec fn narrowed_by(
    kinds: Map<Seq<char>, PayloadIndexType>,
    rows: Seq<(KeyModel, RecordModel)>,
    filter: Option<MetadataFilter>,
    namespace: Option<Seq<char>>,
) -> Option<Set<KeyModel>> {
    match filter {
        None => None,
        Some(f) => index_candidates(kinds, map_of(rows), f, namespace),
    }
}

proof fn lemma_suits(
    rows: Seq<(KeyModel, RecordModel)>,
    has_query: bool,
    vector_name: Option<Seq<char>>,
    filter: Option<MetadataFilter>,
    namespace: Option<Seq<char>>,
    now: u64,
    k: KeyModel,
)
    requires
        ascending::<(String, String), RecordModel>(rows),
    ensures
        suits(rows, has_query, vector_name, filter, namespace, now, k) == (has_key(rows, k)
            && eligible(k, map_of(rows)[k], has_query, vector_name, filter, namespace, now)),
{
    if has_key(rows, k) {
        let p = position_of(rows, k);
        lemma_map_of_at::<(String, String), RecordModel>(rows, p);
        assert forall|i: int| 0 <= i < rows.len() && (#[trigger] rows[i]).0 == k implies i
            == p by {
            lemma_ascending_unique::<(String, String), RecordModel>(rows, i, p);
        }
        let m = rows[p].1;
        if suits(rows, has_query, vector_name, filter, namespace, now, k) {
            assert(eligible(k, m, has_query, vector_name, filter, namespace, now));
        }
        if eligible(k, m, has_query, vector_name, filter, namespace, now) {
            assert(rows[p].0 == k);
        }
    } else if suits(rows, has_query, vector_name, filter, namespace, now, k) {
        let i = choose|i: int| 0 <= i < rows.len() && (#[trigger] rows[i]).0 == k;
        assert(has_key(rows, k));
    }
}

/// Which records a search scores. It scores only records that suit it. It leaves out no suiting
/// candidate of the sparse search, nor one of the dense search. A search with a query vector scores
/// as many records as it is to fetch, or else all that suit; one without scores the suiting
/// candidates of the sparse search alone.
pub proof fn law_search_scores(
    kinds: Map<Seq<char>, PayloadIndexType>,
    rows: Seq<(KeyModel, RecordModel)>,
    plan: SearchPlan,
    has_query: bool,
    dense: Option<Set<KeyModel>>,
    sparse: Set<KeyModel>,
    candidates: Option<Seq<KeyModel>>,
    vector_name: Option<Seq<char>>,
    filter: Option<MetadataFilter>,
    namespace: Option<Seq<char>>,
    now: u64,
    k: KeyModel,
)
    requires
        ascending::<(String, String), RecordModel>(rows),
        lists_opt(
            candidates,
            considered(has_query, dense, sparse, narrowed_by(kinds, rows, filter, namespace)),
        ),
    ensures
        ({
            let keys = scored_keys(
                plan,
                rows,
                candidates,
                has_query,
                vector_name,
                filter,
                namespace,
                now,
            );
            let suiting = suits(rows, has_query, vector_name, filter, namespace, now, k);
            let given = sparse.contains(k) || (has_query && dense is Some
                && dense->Some_0.contains(k));
            &&& keys.contains(k) ==> suiting
            &&& suiting && given ==> keys.contains(k)
            &&& suiting && has_query && (plan.source == DenseSource::Scan ==> dense is None) ==> (
            keys.contains(k) || keys.len() >= plan.fetch_k)
            &&& !has_query && plan.source == DenseSource::Scan ==> (keys.contains(k) ==> given)
        }),
{
    let payload = narrowed_by(kinds, rows, filter, namespace);
    let records = map_of(rows);
    lemma_suits(rows, has_query, vector_name, filter, namespace, now, k);
    law_scan_complete(rows, has_query, vector_name, filter, namespace, now, k);
    if let Some(c) = candidates {
        lemma_shown_among(rows, c, has_query, vector_name, filter, namespace, now, k);
    }
    let suiting = suits(rows, has_query, vector_name, filter, namespace, now, k);
    if suiting {
        lemma_map_of_at::<(String, String), RecordModel>(rows, position_of(rows, k));
        if let Some(f) = filter {
            law_candidates_complete(kinds, records, f, namespace, k);
        }
        assert(payload matches Some(s) ==> s.contains(k));
    }
    if let Some(s) = considered(has_query, dense, sparse, payload) {
        lemma_lists::<(String, String)>(candidates->Some_0, s, k);
    }
    if has_query && dense is Some {
        let both = dense->Some_0.union(sparse);
        if both.contains(k) {
            assert(both != Set::<KeyModel>::empty());
        }
    }
}

proof fn lemma_filter_distinct<A>(s: Seq<A>, keep: spec_fn(A) -> bool)
    requires
        s.no_duplicates(),
    ensures
        s.filter(keep).no_duplicates(),
    decreases s.len(),
{
    reveal(Seq::filter);
    if s.len() > 0 {
        let t = s.drop_last();
        lemma_filter_distinct(t, keep);
        if keep(s.last()) {
            let f = t.filter(keep);
            assert forall|i: int| 0 <= i < f.len() implies f[i] != s.last() by {
                t.lemma_filter_contains_rev(keep, f[i]);
                let j = choose|j: int| 0 <= j < t.len() && t[j] == f[i];
                assert(s[j] == f[i] && s[s.len() - 1] == s.last());
            }
        }
    }
}

proof fn lemma_keys_distinct(rows: Seq<(KeyModel, RecordModel)>)
    requires
        ascending::<(String, String), RecordModel>(rows),
    ensures
        row_keys(rows).no_duplicates(),
{
    let keys = row_keys(rows);
    assert forall|i: int, j: int|
        0 <= i < keys.len() && 0 <= j < keys.len() && i != j implies keys[i] != keys[j] by {
        assert(rows[i].0 == keys[i] && rows[j].0 == keys[j]);
        if keys[i] == keys[j] {
            lemma_ascending_unique::<(String, String), RecordModel>(rows, i, j);
        }
    }
}

/// A search scores no record twice.
pub proof fn law_search_scores_once(
    rows: Seq<(KeyModel, RecordModel)>,
    plan: SearchPlan,
    has_query: bool,
    wanted: Option<Set<KeyModel>>,
    candidates: Option<Seq<KeyModel>>,
    vector_name: Option<Seq<char>>,
    filter: Option<MetadataFilter>,
    namespace: Option<Seq<char>>,
    now: u64,
)
    requires
        ascending::<(String, String), RecordModel>(rows),
        lists_opt(candidates, wanted),
    ensures
        scored_keys(
            plan,
            rows,
            candidates,
            has_query,
            vector_name,
            filter,
            namespace,
            now,
        ).no_duplicates(),
        shown_keys(
            rows,
            candidates,
            has_query,
            vector_name,
            filter,
            namespace,
            now,
        ).no_duplicates(),
{
    let records = map_of(rows);
    let keep = |q: KeyModel|
        records.contains_key(q) && eligible(
            q,
            records[q],
            has_query,
            vector_name,
            filter,
            namespace,
            now,
        );
    lemma_keys_distinct(rows);
    lemma_filter_distinct(row_keys(rows), keep);
    if let Some(c) = candidates {
        lemma_lists_distinct::<(String, String)>(c, wanted->Some_0);
        lemma_filter_distinct(c, keep);
    }
}

proof fn lemma_distinct_within(list: Seq<KeyModel>, all: Seq<KeyModel>)
    requires
        list.no_duplicates(),
        forall|i: int| 0 <= i < list.len() ==> all.contains(#[trigger] list[i]),
    ensures
        list.len() <= all.len(),
{
    list.unique_seq_to_set();
    all.lemma_cardinality_of_set();
    assert(list.to_set().subset_of(all.to_set())) by {
        assert forall|x: KeyModel| list.to_set().contains(x) implies all.to_set().contains(x) by {
            let i = choose|i: int| 0 <= i < list.len() && list[i] == x;
            assert(all.contains(list[i]));
        }
    }
    vstd::set_lib::lemma_len_subset(list.to_set(), all.to_set());
}

/// When a search looks at all records after all. It does so only where it had candidates and fewer
/// of them suit than it is to fetch, however they are listed; it then scores every record that
/// suits. Where it does not, though it had candidates, it has as many as it is to fetch.
pub proof fn law_fallback(
    kinds: Map<Seq<char>, PayloadIndexType>,
    rows: Seq<(KeyModel, RecordModel)>,
    plan: SearchPlan,
    has_query: bool,
    dense: Option<Set<KeyModel>>,
    sparse: Set<KeyModel>,
    candidates: Option<Seq<KeyModel>>,
    vector_name: Option<Seq<char>>,
    filter: Option<MetadataFilter>,
    namespace: Option<Seq<char>>,
    now: u64,
    list: Seq<KeyModel>,
    k: KeyModel,
)
    requires
        ascending::<(String, String), RecordModel>(rows),
        lists_opt(
            candidates,
            considered(has_query, dense, sparse, narrowed_by(kinds, rows, filter, namespace)),
        ),
        list.no_duplicates(),
        forall|i: int|
            0 <= i < list.len() ==> {
                let q = #[trigger] list[i];
                &&& suits(rows, has_query, vector_name, filter, namespace, now, q)
                &&& sparse.contains(q) || (has_query && dense is Some && dense->Some_0.contains(q))
            },
    ensures
        ({
            let found = shown_keys(
                rows,
                candidates,
                has_query,
                vector_name,
                filter,
                namespace,
                now,
            ).len();
            let keys = scored_keys(
                plan,
                rows,
                candidates,
                has_query,
                vector_name,
                filter,
                namespace,
                now,
            );
            if falls_back(plan, found) {
                &&& plan.source != DenseSource::Scan
                &&& list.len() < plan.fetch_k
                &&& suits(rows, has_query, vector_name, filter, namespace, now, k)
                    ==> keys.contains(k)
            } else {
                plan.source != DenseSource::Scan ==> keys.len() >= plan.fetch_k
            }
        }),
{
    let payload = narrowed_by(kinds, rows, filter, namespace);
    let wanted = considered(has_query, dense, sparse, payload);
    let first = shown_keys(rows, candidates, has_query, vector_name, filter, namespace, now);
    lemma_suits(rows, has_query, vector_name, filter, namespace, now, k);
    law_scan_complete(rows, has_query, vector_name, filter, namespace, now, k);
    assert forall|i: int| 0 <= i < list.len() implies first.contains(#[trigger] list[i]) by {
        let q = list[i];
        lemma_suits(rows, has_query, vector_name, filter, namespace, now, q);
        law_scan_complete(rows, has_query, vector_name, filter, namespace, now, q);
        if let Some(c) = candidates {
            lemma_shown_among(rows, c, has_query, vector_name, filter, namespace, now, q);
            lemma_lists::<(String, String)>(c, wanted->Some_0, q);
        }
        if let Some(f) = filter {
            lemma_map_of_at::<(String, String), RecordModel>(rows, position_of(rows, q));
            law_candidates_complete(kinds, map_of(rows), f, namespace, q);
        }
        if has_query && dense is Some {
            assert(dense->Some_0.union(sparse).contains(q));
        }
    }
    lemma_distinct_within(list, first);
}

/// The keys that a search looks at: the dense and the sparse candidates together, or the sparse ones
/// where no vector is asked for, as far as payload indexes leave them. A search for a vector without
/// any candidate looks at all that payload indexes leave.
pub proof fn law_considered(
    has_query: bool,
    dense: Option<Set<KeyModel>>,
    sparse: Set<KeyModel>,
    payload: Option<Set<KeyModel>>,
    k: KeyModel,
)
    ensures
        has_query && dense is None ==> considered(has_query, dense, sparse, payload) == payload,
        has_query && (dense matches Some(d) && forall|q: KeyModel|
            !(#[trigger] d.contains(q)) && !sparse.contains(q)) ==> considered(
            has_query,
            dense,
            sparse,
            payload,
        ) == payload,
        has_query && (dense matches Some(d) && (d.contains(k) || sparse.contains(k))) ==> (considered(
            has_query,
            dense,
            sparse,
            payload,
        ) matches Some(s) && (s.contains(k) <==> (payload matches Some(p) ==> p.contains(k)))),
        !has_query ==> (considered(has_query, dense, sparse, payload) matches Some(s) && (s.contains(k)
            <==> sparse.contains(k) && (payload matches Some(p) ==> p.contains(k)))),
        considered(has_query, dense, sparse, payload) matches Some(s) && s.contains(k) ==> (
        payload matches Some(p) ==> p.contains(k)),
{
    if let Some(d) = dense {
        if d.contains(k) || sparse.contains(k) {
            assert(d.union(sparse).contains(k));
        }
        if forall|q: KeyModel| !(#[trigger] d.contains(q)) && !sparse.contains(q) {
            assert(d.union(sparse) =~= Set::<KeyModel>::empty()) by {
                assert forall|q: KeyModel| !#[trigger] d.union(sparse).contains(q) by {
                    assert(!d.contains(q));
                }
            }
        }
    }
}

} // verus!
