//! The course of a search: which records are scored, and what becomes of their scores.
use vstd::prelude::*;
use crate::ann::row_keys;
use crate::candidates::{considered, eligible, falls_back, keys_in, lists_opt, shown_keys};
use crate::database::Database;
use crate::hits::{
    apply_rank_metadata, best_first, in_key_order, picked_hits, ranked_hits, sort_scored_records, Diversifier,
    Hit, HitModel,
};
use crate::filter::MetadataFilter;
use crate::order::Duplicate;
use crate::ordered_map::{map_of, OrderedMap};
use crate::payload_index::opt_text;
use crate::record::{key_before, KeyModel, RecordKey, RecordModel, SparseVector};
use crate::results::{common_terms, query_terms, shown_name};
use crate::search::{opt_name, DenseSource, SearchPlan};
use crate::search_laws::{law_fallback, law_search_scores, law_search_scores_once, suits};
use crate::search_options::{HybridSearchOptions, SearchOutcome, SearchResult, SearchTimings};
use crate::table::opt_filter;

verus! {

/// The records that are scored.
pub struct Considered {
    /// Their keys, in key order.
    pub keys: Vec<RecordKey>,
    /// How many candidates the dense search had.
    pub dense_candidates: usize,
    /// How many candidates the sparse search had.
    pub sparse_candidates: usize,
    /// Whether the candidates were too few, so that all records are scored.
    pub fallback: bool,
}

/// The scores of a record as single-precision patterns.
pub struct Scores {
    pub dense: u32,
    pub sparse: u32,
    /// What each matched term adds to the sparse score.
    pub terms: OrderedMap<String, u32>,
}

/// The mathematical value of the scores of a record.
#[verifier::ext_equal]
pub struct ScoresModel {
    pub dense: u32,
    pub sparse: u32,
    pub terms: Seq<(Seq<char>, u32)>,
}

impl DeepView for Scores {
    type V = ScoresModel;

    open spec fn deep_view(&self) -> ScoresModel {
        ScoresModel { dense: self.dense, sparse: self.sparse, terms: self.terms.deep_view() }
    }
}

/// How many keys there are in a list that may be missing.
pub open spec fn count_of(keys: Option<&Vec<RecordKey>>) -> nat {
    match keys {
        Some(k) => k@.len(),
        None => 0,
    }
}

/// The keys that are scored where a search looks at given candidates first: those that it shows,
/// unless they are too few.
pub open spec fn scored_keys(
    plan: SearchPlan,
    rows: Seq<(KeyModel, RecordModel)>,
    candidates: Option<Seq<KeyModel>>,
    has_query: bool,
    vector_name: Option<Seq<char>>,
    filter: Option<MetadataFilter>,
    namespace: Option<Seq<char>>,
    now: u64,
) -> Seq<KeyModel> {
    let first = shown_keys(rows, candidates, has_query, vector_name, filter, namespace, now);
    if falls_back(plan, first.len()) {
        shown_keys(rows, None, has_query, vector_name, filter, namespace, now)
    } else {
        first
    }
}

/// The hit of a key with its scores, not ranked yet.
pub open spec fn plain_hit(key: KeyModel, s: ScoresModel) -> HitModel {
    HitModel {
        key,
        score: 0,
        dense_score: s.dense,
        sparse_score: s.sparse,
        dense_rank: None,
        sparse_rank: None,
        term_scores: s.terms,
    }
}

/// The hits of keys with their scores.
pub open spec fn plain_hits(keys: Seq<KeyModel>, scores: Seq<ScoresModel>) -> Seq<HitModel> {
    Seq::new(keys.len(), |i: int| plain_hit(keys[i], scores[i]))
}

/// Hits with the scores by which they are ordered.
pub open spec fn scored_hits(hits: Seq<HitModel>, fused: Seq<u32>) -> Seq<HitModel> {
    Seq::new(hits.len(), |i: int| HitModel { score: fused[i], ..hits[i] })
}

/// The hits of keys, with the ranks of their dense and of their sparse scores.
pub fn rank_hits(keys: &Vec<RecordKey>, scores: &Vec<Scores>) -> (r: Vec<Hit>)
    requires
        keys@.len() == scores@.len(),
    ensures
        r.deep_view() == ranked_hits(plain_hits(keys.deep_view(), scores.deep_view())),
{
    let ghost want = plain_hits(keys.deep_view(), scores.deep_view());
    let mut hits: Vec<Hit> = Vec::new();
    let mut i: usize = 0;
    while i < keys.len()
        invariant
            keys@.len() == scores@.len(),
            want == plain_hits(keys.deep_view(), scores.deep_view()),
            i <= keys@.len(),
            hits@.len() == i,
            forall|k: int| 0 <= k < i ==> (#[trigger] hits@[k]).deep_view() == want[k],
        decreases keys@.len() - i,
    {
        proof {
            assert(keys.deep_view()[i as int] == keys@[i as int].deep_view());
            assert(scores.deep_view()[i as int] == scores@[i as int].deep_view());
        }
        hits.push(
            Hit {
                key: keys[i].duplicate(),
                score: 0,
                dense_score: scores[i].dense,
                sparse_score: scores[i].sparse,
                dense_rank: None,
                sparse_rank: None,
                term_scores: scores[i].terms.duplicate(),
            },
        );
        i += 1;
    }
    proof {
        assert(hits.deep_view() =~= want);
    }
    apply_rank_metadata(&mut hits);
    hits
}

/// Gives hits, which are in key order, the scores by which they are ordered, and puts the best
/// first.
pub fn order_hits(hits: Vec<Hit>, fused: &Vec<u32>) -> (r: Vec<Hit>)
    requires
        hits@.len() == fused@.len(),
    ensures
        r.deep_view() == picked_hits(scored_hits(hits.deep_view(), fused@), best_first(fused@)),
{
    let ghost start = hits.deep_view();
    let mut hits = hits;
    let n: usize = hits.len();
    let mut i: usize = 0;
    while i < n
        invariant
            n == hits@.len() == start.len() == fused@.len(),
            i <= n,
            forall|k: int|
                0 <= k < i ==> (#[trigger] hits@[k]).deep_view() == (HitModel {
                    score: fused@[k],
                    ..start[k]
                }),
            forall|k: int| i <= k < n ==> (#[trigger] hits@[k]).deep_view() == start[k],
        decreases n - i,
    {
        let mut h = hits[i].duplicate();
        h.score = fused[i];
        hits.set(i, h);
        i += 1;
    }
    proof {
        assert(hits.deep_view() =~= scored_hits(start, fused@));
        assert(crate::hits::scores_of(hits.deep_view()) =~= fused@);
    }
    sort_scored_records(&hits)
}

/// The positions of the hits that are shown: those that were selected for diversity, or else the
/// first ones.
pub open spec fn shown_positions(
    selected: Option<Seq<usize>>,
    found: nat,
    top_k: nat,
) -> Seq<usize> {
    match selected {
        Some(s) => s,
        None => Seq::new(
            if found < top_k {
                found
            } else {
                top_k
            },
            |i: int| i as usize,
        ),
    }
}

/// The positions that a selection names, where there is one.
pub open spec fn selection_of(d: Option<&Diversifier>) -> Option<Seq<usize>> {
    match d {
        Some(d) => Some(d@),
        None => None,
    }
}

/// Whether a result shows a hit of a record.
pub open spec fn shows(
    r: SearchResult,
    h: HitModel,
    m: RecordModel,
    query: Option<&SparseVector>,
    options: &HybridSearchOptions,
) -> bool {
    &&& (r.namespace@, r.id@) == h.key
    &&& r.score == h.score
    &&& r.dense_score == h.dense_score
    &&& r.sparse_score == h.sparse_score
    &&& r.dense_rank == h.dense_rank
    &&& r.sparse_rank == h.sparse_rank
    &&& opt_name(r.vector_name) == shown_name(options)
    &&& r.matched_terms.deep_view() == common_terms(query_terms(query), m.sparse)
    &&& r.metadata.pairs() == m.metadata
    &&& r.bm25_term_scores.deep_view() == h.term_scores
}

impl Database {
    /// Whether a list that may be missing holds, in key order, the keys that a search considers.
    pub open(crate) spec fn are_candidates(
        &self,
        candidates: Option<Seq<KeyModel>>,
        has_query: bool,
        dense: Option<&Vec<RecordKey>>,
        sparse: Seq<KeyModel>,
        filter: Option<MetadataFilter>,
        namespace: Option<Seq<char>>,
    ) -> bool {
        lists_opt(
            candidates,
            considered(
                has_query,
                match dense {
                    Some(d) => Some(keys_in(d.deep_view())),
                    None => None,
                },
                keys_in(sparse),
                self.payload_keys(filter, namespace),
            ),
        )
    }

    /// Decides which records are scored. `dense` are the candidates of the dense search, where
    /// its plan asks for any, and `sparse` those of the sparse one.
    pub fn consider_records(
        &self,
        plan: &SearchPlan,
        has_query: bool,
        dense: Option<&Vec<RecordKey>>,
        sparse: &Vec<RecordKey>,
        options: &HybridSearchOptions,
        namespace: Option<&str>,
        now: u64,
    ) -> (r: Considered)
        requires
            self.wf(),
        ensures
            r.dense_candidates == count_of(dense),
            r.sparse_candidates == sparse@.len(),
            exists|candidates: Option<Seq<KeyModel>>|
                {
                    &&& #[trigger] self.are_candidates(
                        candidates,
                        has_query,
                        dense,
                        sparse.deep_view(),
                        options.filter,
                        opt_text(namespace),
                    )
                    &&& r.keys.deep_view() == scored_keys(
                        *plan,
                        self.rows(),
                        candidates,
                        has_query,
                        opt_name(options.vector_name),
                        options.filter,
                        opt_text(namespace),
                        now,
                    )
                    &&& r.fallback == falls_back(
                        *plan,
                        shown_keys(
                            self.rows(),
                            candidates,
                            has_query,
                            opt_name(options.vector_name),
                            options.filter,
                            opt_text(namespace),
                            now,
                        ).len(),
                    )
                },
            r.keys.deep_view().no_duplicates(),
            forall|k: KeyModel|
                {
                    let suiting = #[trigger] suits(
                        self.rows(),
                        has_query,
                        opt_name(options.vector_name),
                        options.filter,
                        opt_text(namespace),
                        now,
                        k,
                    );
                    let given = sparse.deep_view().contains(k) || (has_query && dense is Some
                        && dense->Some_0.deep_view().contains(k));
                    let complete = has_query && (plan.source == DenseSource::Scan ==> dense
                        is None);
                    let shown = r.keys.deep_view().contains(k);
                    &&& shown ==> suiting
                    &&& suiting && given ==> shown
                    &&& suiting && complete ==> shown || r.keys@.len() >= plan.fetch_k
                    &&& suiting && r.fallback ==> shown
                },
            !r.fallback && plan.source != DenseSource::Scan ==> r.keys@.len() >= plan.fetch_k,
    {
        let filter = match &options.filter {
            Some(f) => Some(f),
            None => None,
        };
        let vector_name = match &options.vector_name {
            Some(n) => Some(n.as_str()),
            None => None,
        };
        proof {
            assert(opt_filter(filter) == options.filter);
            assert(opt_text(vector_name) == opt_name(options.vector_name));
        }
        let dense_candidates: usize = match dense {
            Some(d) => d.len(),
            None => 0,
        };
        let candidates = self.candidate_keys(has_query, dense, sparse, filter, namespace);
        let ghost listed = candidates.deep_view();
        let chosen = match &candidates {
            Some(c) => Some(c),
            None => None,
        };
        let first = self.select_records(chosen, has_query, vector_name, filter, namespace, now);
        let fallback: bool = plan.needs_fallback(first.len());
        let keys = if fallback {
            self.select_records(None, has_query, vector_name, filter, namespace, now)
        } else {
            first
        };
        proof {
            assert(self.are_candidates(
                listed,
                has_query,
                dense,
                sparse.deep_view(),
                options.filter,
                opt_text(namespace),
            ));
        }
        proof {
            use_type_invariant(&self.table.records);
            self.table.records.lemma_pairs_ascending();
            let near = match dense {
                Some(d) => Some(keys_in(d.deep_view())),
                None => None,
            };
            let far = keys_in(sparse.deep_view());
            let name = opt_name(options.vector_name);
            let space = opt_text(namespace);
            law_search_scores_once(
                self.rows(),
                *plan,
                has_query,
                considered(has_query, near, far, self.payload_keys(options.filter, space)),
                listed,
                name,
                options.filter,
                space,
                now,
            );
            assert(keys.deep_view().len() == keys@.len());
            assert forall|k: KeyModel|
                {
                    let suiting = #[trigger] suits(
                        self.rows(),
                        has_query,
                        name,
                        options.filter,
                        space,
                        now,
                        k,
                    );
                    let given = sparse.deep_view().contains(k) || (has_query && dense is Some
                        && dense->Some_0.deep_view().contains(k));
                    let complete = has_query && (plan.source == DenseSource::Scan ==> dense
                        is None);
                    let shown = keys.deep_view().contains(k);
                    &&& shown ==> suiting
                    &&& suiting && given ==> shown
                    &&& suiting && complete ==> shown || keys@.len() >= plan.fetch_k
                    &&& suiting && fallback ==> shown
                } by {
                law_search_scores(
                    self.kinds(),
                    self.rows(),
                    *plan,
                    has_query,
                    near,
                    far,
                    listed,
                    name,
                    options.filter,
                    space,
                    now,
                    k,
                );
                law_fallback(
                    self.kinds(),
                    self.rows(),
                    *plan,
                    has_query,
                    near,
                    far,
                    listed,
                    name,
                    options.filter,
                    space,
                    now,
                    Seq::empty(),
                    k,
                );
            }
        }
        Considered { keys, dense_candidates, sparse_candidates: sparse.len(), fallback }
    }

    /// The answer of a search: the hits that are shown, in their order, and how it went. `hits`
    /// are in the order of their scores, and `selected` names those that are shown where
    /// diversity is wanted.
    pub fn finish_search(
        &self,
        plan: &SearchPlan,
        options: &HybridSearchOptions,
        query: Option<&SparseVector>,
        looked_at: &Considered,
        hits: &Vec<Hit>,
        selected: Option<&Diversifier>,
        timings: SearchTimings,
    ) -> (r: SearchOutcome)
        requires
            forall|i: int|
                0 <= i < hits@.len() ==> self@.contains_key((#[trigger] hits@[i]).key.deep_view()),
            selected matches Some(d) ==> d.wf() && d.marks().len() == hits@.len(),
        ensures
            ({
                let shown = shown_positions(
                    selection_of(selected),
                    hits@.len(),
                    plan.top_k as nat,
                );
                &&& r.results@.len() == shown.len()
                &&& forall|p: int|
                    0 <= p < shown.len() ==> shows(
                        #[trigger] r.results@[p],
                        hits.deep_view()[shown[p] as int],
                        self@[hits.deep_view()[shown[p] as int].key],
                        query,
                        options,
                    )
            }),
            r.stats.used_ann == (plan.source != DenseSource::Scan),
            r.stats.ann_candidate_count == looked_at.dense_candidates,
            r.stats.exact_fallback == looked_at.fallback,
            r.stats.considered_count == looked_at.keys@.len(),
            r.stats.fetch_k == plan.fetch_k,
            r.stats.mmr_applied == (options.mmr_lambda is Some && plan.top_k > 1 && hits@.len() > 1),
            r.stats.sparse_candidate_count == looked_at.sparse_candidates,
            r.stats.ann_loaded_from_disk == self.flags().loaded,
            r.stats.wal_entries_replayed == self.logged().replayed,
            r.stats.fusion@ == options.fusion.label_of(),
            r.stats.effective_dimension == match plan.effective_dimension {
                Some(n) => n,
                None => 0,
            },
            r.stats.matryoshka_truncated == plan.truncated,
            r.stats.timings == timings,
    {
        let found: usize = hits.len();
        let ghost all = hits.deep_view();
        let ghost shown = shown_positions(selection_of(selected), found as nat, plan.top_k as nat);
        let count: usize = match selected {
            Some(d) => d.positions().len(),
            None => if found < plan.top_k {
                found
            } else {
                plan.top_k
            },
        };
        let mut results: Vec<SearchResult> = Vec::new();
        let mut p: usize = 0;
        while p < count
            invariant
                all == hits.deep_view(),
                found == hits@.len(),
                shown == shown_positions(selection_of(selected), found as nat, plan.top_k as nat),
                count == shown.len(),
                selected matches Some(d) ==> d.wf() && d.marks().len() == hits@.len(),
                forall|i: int|
                    0 <= i < hits@.len() ==> self@.contains_key(
                        (#[trigger] hits@[i]).key.deep_view(),
                    ),
                p <= count,
                results@.len() == p,
                forall|k: int|
                    0 <= k < p ==> shows(
                        #[trigger] results@[k],
                        all[shown[k] as int],
                        self@[all[shown[k] as int].key],
                        query,
                        options,
                    ),
            decreases count - p,
        {
            let at: usize = match selected {
                Some(d) => d.positions()[p],
                None => p,
            };
            proof {
                assert(at == shown[p as int]);
                assert(at < hits@.len());
                assert(all[at as int] == hits@[at as int].deep_view());
            }
            let hit = hits[at].duplicate();
            proof {
                assert(hit.deep_view() == all[at as int]);
                assert(hit.key.deep_view() == all[at as int].key);
                assert(self@.contains_key(hits@[at as int].key.deep_view()));
            }
            if let Some(result) = self.search_result(hit, query, options) {
                results.push(result);
            }
            p += 1;
        }
        let stats = self.search_stats(
            plan,
            options,
            looked_at.dense_candidates,
            looked_at.sparse_candidates,
            looked_at.keys.len(),
            looked_at.fallback,
            found,
            timings,
        );
        SearchOutcome { results, stats }
    }
}

/// Only records that suit a search are scored: they are there, not expired, in the namespace, have
/// the vector that is compared, and the filter accepts them.
pub proof fn law_scored_eligible(
    plan: SearchPlan,
    rows: Seq<(KeyModel, RecordModel)>,
    candidates: Option<Seq<KeyModel>>,
    has_query: bool,
    vector_name: Option<Seq<char>>,
    filter: Option<MetadataFilter>,
    namespace: Option<Seq<char>>,
    now: u64,
    k: KeyModel,
)
    requires
        scored_keys(
            plan,
            rows,
            candidates,
            has_query,
            vector_name,
            filter,
            namespace,
            now,
        ).contains(k),
    ensures
        map_of(rows).contains_key(k),
        eligible(k, map_of(rows)[k], has_query, vector_name, filter, namespace, now),
{
    let records = map_of(rows);
    let keep = |k: KeyModel|
        records.contains_key(k) && eligible(
            k,
            records[k],
            has_query,
            vector_name,
            filter,
            namespace,
            now,
        );
    let first = match candidates {
        Some(c) => c,
        None => row_keys(rows),
    };
    let all = row_keys(rows);
    broadcast use vstd::seq_lib::group_filter_ensures;

    if falls_back(
        plan,
        shown_keys(rows, candidates, has_query, vector_name, filter, namespace, now).len(),
    ) {
        assert(all.filter(keep).contains(k));
    } else {
        assert(first.filter(keep).contains(k));
    }
}

/// The scores that hits get for their order change nothing else, so that the hits of a search name
/// the keys that were scored, each as often as before.
pub proof fn law_hits_keep_keys(keys: Seq<KeyModel>, scores: Seq<ScoresModel>, fused: Seq<u32>, p: int)
    requires
        keys.len() == scores.len() == fused.len(),
        keys.len() <= usize::MAX,
        0 <= p < keys.len(),
    ensures
        ({
            let hits = picked_hits(
                scored_hits(ranked_hits(plain_hits(keys, scores)), fused),
                best_first(fused),
            );
            let at = best_first(fused)[p] as int;
            &&& hits.len() == keys.len()
            &&& 0 <= at < keys.len()
            &&& hits[p].key == keys[at]
            &&& hits[p].score == fused[at]
            &&& hits[p].dense_score == scores[at].dense
            &&& hits[p].sparse_score == scores[at].sparse
        }),
{
    crate::hits::law_best_first(fused);
}

/// Whether keys are in strictly ascending order.
pub open spec fn keys_ascend(keys: Seq<KeyModel>) -> bool {
    forall|i: int, j: int|
        #![trigger keys[i], keys[j]]
        0 <= i < j < keys.len() ==> key_before(keys[i], keys[j])
}

proof fn lemma_filter_ascends(keys: Seq<KeyModel>, keep: spec_fn(KeyModel) -> bool)
    requires
        keys_ascend(keys),
    ensures
        keys_ascend(keys.filter(keep)),
        forall|k: KeyModel| keys.filter(keep).contains(k) ==> #[trigger] keys.contains(k),
    decreases keys.len(),
{
    reveal(Seq::filter);
    if keys.len() > 0 {
        let front = keys.drop_last();
        let last = keys.last();
        assert(keys =~= front.push(last));
        assert(keys_ascend(front)) by {
            assert forall|i: int, j: int|
                #![trigger front[i], front[j]]
                0 <= i < j < front.len() implies key_before(front[i], front[j]) by {
                assert(front[i] == keys[i] && front[j] == keys[j]);
            }
        }
        lemma_filter_ascends(front, keep);
        let before = front.filter(keep);
        let after = keys.filter(keep);
        assert forall|k: KeyModel| after.contains(k) implies #[trigger] keys.contains(k) by {
            let p = choose|p: int| 0 <= p < after.len() && after[p] == k;
            if p < before.len() {
                assert(before[p] == k);
                assert(before.contains(k));
                assert(front.contains(k));
                let q = choose|q: int| 0 <= q < front.len() && front[q] == k;
                assert(keys[q] == k);
            } else {
                assert(keys[keys.len() - 1] == k);
            }
        }
        assert forall|i: int, j: int|
            #![trigger after[i], after[j]]
            0 <= i < j < after.len() implies key_before(after[i], after[j]) by {
            assert(after[i] == before[i]);
            if j < before.len() {
                assert(after[j] == before[j]);
            } else {
                assert(before.contains(before[i]));
                assert(front.contains(before[i]));
                let q = choose|q: int| 0 <= q < front.len() && front[q] == before[i];
                assert(keys[q] == before[i] && keys[keys.len() - 1] == last);
            }
        }
    }
}

/// The records that are scored come in key order, so that hits of the same score are shown in key
/// order.
pub proof fn law_scored_in_key_order(
    plan: SearchPlan,
    rows: Seq<(KeyModel, RecordModel)>,
    candidates: Option<Seq<KeyModel>>,
    has_query: bool,
    vector_name: Option<Seq<char>>,
    filter: Option<MetadataFilter>,
    namespace: Option<Seq<char>>,
    now: u64,
    scores: Seq<ScoresModel>,
    fused: Seq<u32>,
)
    requires
        keys_ascend(row_keys(rows)),
        candidates matches Some(c) ==> keys_ascend(c),
    ensures
        ({
            let keys = scored_keys(
                plan,
                rows,
                candidates,
                has_query,
                vector_name,
                filter,
                namespace,
                now,
            );
            &&& keys_ascend(keys)
            &&& in_key_order(scored_hits(ranked_hits(plain_hits(keys, scores)), fused))
        }),
{
    let records = map_of(rows);
    let keep = |k: KeyModel|
        records.contains_key(k) && eligible(
            k,
            records[k],
            has_query,
            vector_name,
            filter,
            namespace,
            now,
        );
    lemma_filter_ascends(row_keys(rows), keep);
    if let Some(c) = candidates {
        lemma_filter_ascends(c, keep);
    }
    let keys = scored_keys(plan, rows, candidates, has_query, vector_name, filter, namespace, now);
    let hits = scored_hits(ranked_hits(plain_hits(keys, scores)), fused);
    assert forall|i: int, j: int|
        #![trigger hits[i], hits[j]]
        0 <= i < j < hits.len() implies key_before(hits[i].key, hits[j].key) by {
        assert(hits[i].key == keys[i] && hits[j].key == keys[j]);
    }
}

} // verus!
