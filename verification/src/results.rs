//! The answers of searches.
use vstd::prelude::*;
use crate::database::{token_index_valid, Database};
use crate::error::{invalid, Failure, VectLiteError};
use crate::filter::{accepts, MetadataFilter};
use crate::float_bits::single_lt;
use crate::hits::Hit;
use crate::order::{same_text, Duplicate};
use crate::ordered_map::has_key;
use crate::payload_index::key_in;
use crate::quantization::rescored;
use crate::quantizers::{falling_keys, rank_scores, with_scores};
use crate::ranking::{law_least_positions, least_positions};
use crate::ranking_laws::law_greatest_scores;
use crate::record::{KeyModel, Record, RecordKey, RecordModel, SparseVector};
use crate::search::{opt_name, DenseSource, SearchPlan};
use crate::search_options::{
    HybridSearchOptions, MultiVectorSearchOptions, MultiVectorSearchResult, SearchResult,
    SearchStats, SearchTimings,
};
use crate::sparse_index::picked;
use crate::change::first_of;
use crate::table::lemma_filter_push;
use crate::token_laws::{law_token_search, token_suits};

verus! {

/// The terms of a query that a record has, in term order.
pub open spec fn common_terms(
    query: Seq<(Seq<char>, u32)>,
    sparse: Seq<(Seq<char>, u32)>,
) -> Seq<Seq<char>>
    decreases query.len(),
{
    if query.len() == 0 {
        Seq::empty()
    } else {
        let before = common_terms(query.drop_last(), sparse);
        if has_key(sparse, query.last().0) {
            before.push(query.last().0)
        } else {
            before
        }
    }
}

/// The terms of a query that a record has.
pub fn matched_terms(query: &SparseVector, record: &Record) -> (r: Vec<String>)
    ensures
        r.deep_view() == common_terms(query.pairs(), record@.sparse),
{
    let ghost all = query.pairs();
    let mut out: Vec<String> = Vec::new();
    let mut i: usize = 0;
    proof {
        assert(all.take(0) =~= Seq::empty());
        assert(out.deep_view() =~= Seq::<Seq<char>>::empty());
    }
    while i < query.len()
        invariant
            i <= all.len(),
            all == query.pairs(),
            out.deep_view() == common_terms(all.take(i as int), record@.sparse),
        decreases all.len() - i,
    {
        let ghost before = out.deep_view();
        let term = query.key_at(i);
        proof {
            assert(all.take(i + 1).drop_last() =~= all.take(i as int));
            assert(all.take(i + 1).last() == all[i as int]);
        }
        if record.sparse.contains_key(term.as_str()) {
            let t = term.duplicate();
            out.push(t);
            proof {
                assert(out.deep_view() =~= before.push(t@));
            }
        }
        i += 1;
    }
    proof {
        assert(all.take(i as int) =~= all);
    }
    out
}

/// The vector name that results show: none where several vectors are compared.
pub open spec fn shown_name(options: &HybridSearchOptions) -> Option<Seq<char>> {
    if options.multi_vector_queries.pairs().len() > 0 {
        None
    } else {
        opt_name(options.vector_name)
    }
}

/// The pairs of a query that may be missing.
pub open spec fn query_terms(query: Option<&SparseVector>) -> Seq<(Seq<char>, u32)> {
    match query {
        Some(q) => q.pairs(),
        None => Seq::empty(),
    }
}

impl Database {
    /// The result of a hit, with the metadata of its record. A key without a record has none.
    pub fn search_result(
        &self,
        hit: Hit,
        query: Option<&SparseVector>,
        options: &HybridSearchOptions,
    ) -> (r: Option<SearchResult>)
        ensures
            ({
                let k = hit.key.deep_view();
                &&& r is Some == self@.contains_key(k)
                &&& r matches Some(x) ==> {
                    &&& (x.namespace@, x.id@) == k
                    &&& x.score == hit.score
                    &&& x.dense_score == hit.dense_score
                    &&& x.sparse_score == hit.sparse_score
                    &&& x.dense_rank == hit.dense_rank
                    &&& x.sparse_rank == hit.sparse_rank
                    &&& opt_name(x.vector_name) == shown_name(options)
                    &&& x.matched_terms.deep_view() == common_terms(
                        query_terms(query),
                        self@[k].sparse,
                    )
                    &&& x.metadata.pairs() == self@[k].metadata
                    &&& x.bm25_term_scores == hit.term_scores
                }
            }),
    {
        let record = match self.table.records.lookup(&hit.key) {
            Some(record) => record,
            None => {
                return None;
            },
        };
        let terms = match query {
            Some(q) => matched_terms(q, record),
            None => {
                let none: Vec<String> = Vec::new();
                proof {
                    assert(none.deep_view() =~= Seq::<Seq<char>>::empty());
                }
                none
            },
        };
        let vector_name: Option<String> = if options.multi_vector_queries.len() > 0 {
            None
        } else {
            match &options.vector_name {
                Some(n) => Some(n.duplicate()),
                None => None,
            }
        };
        let metadata = record.metadata.duplicate();
        Some(
            SearchResult {
                namespace: hit.key.0,
                id: hit.key.1,
                score: hit.score,
                dense_score: hit.dense_score,
                sparse_score: hit.sparse_score,
                vector_name,
                matched_terms: terms,
                dense_rank: hit.dense_rank,
                sparse_rank: hit.sparse_rank,
                metadata,
                bm25_term_scores: hit.term_scores,
            },
        )
    }

    /// How a search went.
    pub fn search_stats(
        &self,
        plan: &SearchPlan,
        options: &HybridSearchOptions,
        dense_candidates: usize,
        sparse_candidates: usize,
        considered: usize,
        fallback: bool,
        found: usize,
        timings: SearchTimings,
    ) -> (r: SearchStats)
        ensures
            r.used_ann == (plan.source != DenseSource::Scan),
            r.ann_candidate_count == dense_candidates,
            r.exact_fallback == fallback,
            r.considered_count == considered,
            r.fetch_k == plan.fetch_k,
            r.mmr_applied == (options.mmr_lambda is Some && plan.top_k > 1 && found > 1),
            r.sparse_candidate_count == sparse_candidates,
            r.ann_loaded_from_disk == self.flags().loaded,
            r.wal_entries_replayed == self.logged().replayed,
            r.fusion@ == options.fusion.label_of(),
            r.effective_dimension == match plan.effective_dimension {
                Some(n) => n,
                None => 0,
            },
            r.matryoshka_truncated == plan.truncated,
            r.timings == timings,
    {
        SearchStats {
            used_ann: match plan.source {
                DenseSource::Scan => false,
                _ => true,
            },
            ann_candidate_count: dense_candidates,
            exact_fallback: fallback,
            considered_count: considered,
            fetch_k: plan.fetch_k,
            mmr_applied: options.mmr_lambda.is_some() && plan.top_k > 1 && found > 1,
            sparse_candidate_count: sparse_candidates,
            ann_loaded_from_disk: self.ann.loaded,
            wal_entries_replayed: self.log.replayed,
            fusion: options.fusion.label().to_owned(),
            effective_dimension: match plan.effective_dimension {
                Some(n) => n,
                None => 0,
            },
            matryoshka_truncated: plan.truncated,
            timings,
        }
    }

    /// Why a search by token vectors is refused, if it is.
    pub open spec fn token_search_refusal(&self, space: Seq<char>, tokens: nat) -> Option<Failure> {
        first_of(
            self.read_refusal(),
            if space.len() == 0 {
                Some(Failure::InvalidFormat("multi-vector space name must not be empty"@))
            } else if tokens == 0 {
                Some(Failure::InvalidFormat("query_tokens must not be empty"@))
            } else {
                None
            },
        )
    }

    /// The keys that a search by token vectors looks at: those that the quantized index of the
    /// space singles out, or all where there is no index.
    pub open spec fn token_candidates(
        &self,
        space: Seq<char>,
        tokens: Seq<Seq<u32>>,
        top_k: nat,
    ) -> Seq<KeyModel> {
        if self.token_indexes().indexes@.contains_key(space) {
            let t = self.token_indexes().indexes@[space];
            picked(
                t.keys.deep_view(),
                least_positions(
                    t.index.doc_keys(t.index.query_codes(tokens)),
                    rescored(
                        self.wanted(top_k),
                        t.index.quantizer.config.rescore_multiplier as nat,
                        t.index.doc_ranges@.len(),
                    ),
                ),
            )
        } else {
            crate::ann::row_keys(self.rows())
        }
    }

    /// Whether a query can be compared with the index of a space: no token is longer than its
    /// tokens, and the similarities fit their type.
    pub open spec fn token_query_fits(&self, space: Seq<char>, tokens: Seq<Seq<u32>>) -> bool {
        self.token_indexes().indexes@.contains_key(space) ==> {
            let q = self.token_indexes().indexes@[space].index.quantizer;
            &&& forall|i: int| 0 <= i < tokens.len() ==> (#[trigger] tokens[i]).len() <= q.dimension
            &&& 9 * q.dimension <= i32::MAX
            &&& tokens.len() * (9 * q.dimension) <= i32::MAX
        }
    }

    fn token_candidate_keys(&self, space: &str, query_tokens: &Vec<Vec<u32>>, top_k: usize) -> (r:
        Option<Vec<RecordKey>>)
        requires
            self.wf(),
            query_tokens@.len() > 0,
            self.token_query_fits(space@, query_tokens.deep_view()),
        ensures
            r is Some == self.token_indexes().indexes@.contains_key(space@),
            r matches Some(keys) ==> keys.deep_view() == self.token_candidates(
                space@,
                query_tokens.deep_view(),
                top_k as nat,
            ),
    {
        let t = match self.tokens.indexes.get(space) {
            Some(t) => t,
            None => {
                return None;
            },
        };
        let wanted: usize = if top_k == 0 {
            self.table.records.len()
        } else {
            top_k
        };
        proof {
            assert(token_index_valid(*t));
            assert forall|i: int| 0 <= i < query_tokens@.len() implies (
            #[trigger] query_tokens@[i])@.len() <= t.index.quantizer.dimension by {
                assert(query_tokens.deep_view()[i].len() <= t.index.quantizer.dimension);
            }
        }
        let order = t.index.search(query_tokens, wanted);
        let ghost all = t.keys.deep_view();
        proof {
            let codes = t.index.query_codes(query_tokens.deep_view());
            let n = rescored(
                wanted as nat,
                t.index.quantizer.config.rescore_multiplier as nat,
                t.index.doc_ranges@.len(),
            );
            assert(t.index.doc_keys(codes).len() == t.index.doc_ranges.len());
            law_least_positions(t.index.doc_keys(codes), n);
        }
        let mut out: Vec<RecordKey> = Vec::new();
        let mut j: usize = 0;
        proof {
            assert(out.deep_view() =~= picked(all, order@.take(0)));
        }
        while j < order.len()
            invariant
                all == t.keys.deep_view(),
                forall|a: int| 0 <= a < order@.len() ==> (#[trigger] order@[a]) < t.keys@.len(),
                j <= order@.len(),
                out.deep_view() == picked(all, order@.take(j as int)),
            decreases order@.len() - j,
        {
            let ghost before = out.deep_view();
            let at: usize = order[j];
            let k = t.keys[at].duplicate();
            out.push(k);
            proof {
                assert(all[at as int] == k.deep_view());
                assert(out.deep_view() =~= before.push(k.deep_view()));
                assert(out.deep_view() =~= picked(all, order@.take(j + 1)));
            }
            j += 1;
        }
        proof {
            assert(order@.take(j as int) =~= order@);
        }
        Some(out)
    }

    /// The keys of the records that a search by token vectors compares with its query.
    pub open spec fn token_hits(
        &self,
        space: Seq<char>,
        tokens: Seq<Seq<u32>>,
        options: &MultiVectorSearchOptions,
        now: u64,
    ) -> Seq<KeyModel> {
        self.token_candidates(space, tokens, options.top_k as nat).filter(
            |k: KeyModel|
                self@.contains_key(k) && token_eligible(
                    k,
                    self@[k],
                    space,
                    options.filter,
                    opt_name(options.namespace),
                    now,
                ),
        )
    }

    /// Checks a search by token vectors and gives the keys of the records to compare.
    pub fn search_multi_vector(
        &self,
        space: &str,
        query_tokens: &Vec<Vec<u32>>,
        options: &MultiVectorSearchOptions,
        now: u64,
    ) -> (r: Result<Vec<RecordKey>, VectLiteError>)
        requires
            self.wf(),
            self.token_query_fits(space@, query_tokens.deep_view()),
        ensures
            match self.token_search_refusal(space@, query_tokens@.len()) {
                Some(f) => r matches Err(e) && e@ == f,
                None => r matches Ok(keys) && keys.deep_view() == self.token_hits(
                    space@,
                    query_tokens.deep_view(),
                    options,
                    now,
                ),
            },
            r matches Ok(keys) ==> forall|k: KeyModel| #[trigger]
                keys.deep_view().contains(k) ==> token_suits(
                    self.rows(),
                    space@,
                    options.filter,
                    opt_name(options.namespace),
                    now,
                    k,
                ),
            r matches Ok(keys) ==> forall|k: KeyModel|
                !self.token_indexes().indexes@.contains_key(space@) && #[trigger] token_suits(
                    self.rows(),
                    space@,
                    options.filter,
                    opt_name(options.namespace),
                    now,
                    k,
                ) ==> keys.deep_view().contains(k),
    {
        match self.check_open() {
            Ok(()) => {},
            Err(e) => {
                return Err(e);
            },
        }
        if space.is_empty() {
            return Err(invalid("multi-vector space name must not be empty"));
        }
        if query_tokens.len() == 0 {
            return Err(invalid("query_tokens must not be empty"));
        }
        let candidates: Vec<RecordKey> = match self.token_candidate_keys(
            space,
            query_tokens,
            options.top_k,
        ) {
            Some(keys) => keys,
            None => self.all_keys(),
        };
        let ghost all = candidates.deep_view();
        let ghost keep = |k: KeyModel|
            self@.contains_key(k) && token_eligible(
                k,
                self@[k],
                space@,
                options.filter,
                opt_name(options.namespace),
                now,
            );
        let mut out: Vec<RecordKey> = Vec::new();
        let mut i: usize = 0;
        proof {
            reveal(Seq::filter);
            assert(all.take(0).filter(keep) =~= Seq::empty());
            assert(out.deep_view() =~= all.take(0).filter(keep));
        }
        while i < candidates.len()
            invariant
                i <= candidates@.len(),
                all == candidates.deep_view(),
                self.wf(),
                keep == (|k: KeyModel|
                    self@.contains_key(k) && token_eligible(
                        k,
                        self@[k],
                        space@,
                        options.filter,
                        opt_name(options.namespace),
                        now,
                    )),
                out.deep_view() == all.take(i as int).filter(keep),
            decreases candidates@.len() - i,
        {
            let ghost before = out.deep_view();
            let key = &candidates[i];
            let ghost k = key.deep_view();
            proof {
                assert(all[i as int] == k);
                assert(all.take(i + 1) =~= all.take(i as int).push(k));
                lemma_filter_push(all.take(i as int), k, keep);
            }
            match self.table.records.lookup(key) {
                Some(record) => {
                    proof {
                        assert(self@.contains_key(k));
                        assert(crate::table::entry_valid((k, self@[k]), self.dim()));
                    }
                    if is_token_eligible(record, space, options, now) {
                        out.push(key.duplicate());
                        proof {
                            assert(out.deep_view() =~= before.push(k));
                        }
                    }
                },
                None => {},
            }
            i += 1;
        }
        proof {
            assert(all.take(i as int) =~= all);
            use_type_invariant(&self.table.records);
            self.table.records.lemma_pairs_ascending();
            assert forall|k: KeyModel|
                #![trigger out.deep_view().contains(k)]
                #![trigger token_suits(self.rows(), space@, options.filter, opt_name(options.namespace), now, k)]
                {
                    let suiting = token_suits(
                        self.rows(),
                        space@,
                        options.filter,
                        opt_name(options.namespace),
                        now,
                        k,
                    );
                    &&& out.deep_view().contains(k) ==> suiting
                    &&& !self.token_indexes().indexes@.contains_key(space@) && suiting
                        ==> out.deep_view().contains(k)
                } by {
                law_token_search(self, space@, query_tokens.deep_view(), options, now, k);
            }
        }
        Ok(out)
    }

    /// The results of a search by token vectors, the best first, at most as many as are wanted.
    /// `keys` are keys of records, and `scores` their scores.
    pub fn rank_multi_vector(&self, keys: &Vec<RecordKey>, scores: &Vec<u32>, top_k: usize) -> (r:
        Vec<MultiVectorSearchResult>)
        requires
            keys@.len() == scores@.len(),
            forall|i: int|
                0 <= i < keys@.len() ==> self@.contains_key((#[trigger] keys@[i]).deep_view()),
        ensures
            ({
                let order = least_positions(
                    falling_keys(scores@),
                    self.wanted(top_k as nat),
                );
                &&& r@.len() == order.len()
                &&& forall|j: int|
                    0 <= j < r@.len() ==> {
                        let at = order[j] as int;
                        &&& ((#[trigger] r@[j]).namespace@, r@[j].id@) == keys@[at].deep_view()
                        &&& r@[j].score == scores@[at]
                        &&& r@[j].metadata.pairs() == self@[keys@[at].deep_view()].metadata
                    }
            }),
            r@.len() == if top_k > 0 && top_k < keys@.len() {
                top_k as nat
            } else if top_k > 0 || keys@.len() < self.rows().len() {
                keys@.len()
            } else {
                self.rows().len()
            },
            forall|a: int, b: int|
                #![trigger r@[a], r@[b]]
                0 <= a < b < r@.len() ==> !single_lt(r@[a].score, r@[b].score),
            forall|a: int, i: int|
                #![trigger r@[a], scores@[i]]
                0 <= a < r@.len() && 0 <= i < scores@.len() && single_lt(r@[a].score, scores@[i])
                    ==> exists|c: int|
                    0 <= c < a && (#[trigger] r@[c]).score == scores@[i] && (
                        r@[c].namespace@,
                        r@[c].id@,
                    ) == keys@[i].deep_view(),
    {
        let wanted: usize = if top_k == 0 {
            self.table.records.len()
        } else {
            top_k
        };
        let ranked = rank_scores(scores, true, wanted);
        let ghost order = least_positions(falling_keys(scores@), wanted as nat);
        proof {
            assert(falling_keys(scores@).len() == scores.len());
            law_least_positions(falling_keys(scores@), wanted as nat);
        }
        let mut out: Vec<MultiVectorSearchResult> = Vec::new();
        let mut j: usize = 0;
        while j < ranked.len()
            invariant
                ranked@ == with_scores(order, scores@),
                ranked@.len() == order.len(),
                keys@.len() == scores@.len(),
                forall|a: int| 0 <= a < order.len() ==> (#[trigger] order[a]) < scores@.len(),
                forall|i: int|
                    0 <= i < keys@.len() ==> self@.contains_key((#[trigger] keys@[i]).deep_view()),
                j <= order.len(),
                out@.len() == j,
                forall|p: int|
                    0 <= p < j ==> {
                        let at = order[p] as int;
                        &&& ((#[trigger] out@[p]).namespace@, out@[p].id@) == keys@[at].deep_view()
                        &&& out@[p].score == scores@[at]
                        &&& out@[p].metadata.pairs() == self@[keys@[at].deep_view()].metadata
                    },
            decreases order.len() - j,
        {
            let (at, score) = ranked[j];
            proof {
                assert(at == order[j as int]);
                assert(self@.contains_key(keys@[at as int].deep_view()));
            }
            let key = &keys[at];
            match self.table.records.lookup(key) {
                Some(record) => {
                    out.push(
                        MultiVectorSearchResult {
                            namespace: key.0.duplicate(),
                            id: key.1.duplicate(),
                            score,
                            metadata: record.metadata.duplicate(),
                        },
                    );
                },
                None => {},
            }
            j += 1;
        }
        proof {
            law_greatest_scores(scores@, wanted as nat);
            assert forall|a: int, i: int|
                #![trigger out@[a], scores@[i]]
                0 <= a < out@.len() && 0 <= i < scores@.len() && single_lt(
                    out@[a].score,
                    scores@[i],
                ) implies exists|c: int|
                0 <= c < a && (#[trigger] out@[c]).score == scores@[i] && (
                    out@[c].namespace@,
                    out@[c].id@,
                ) == keys@[i].deep_view() by {
                assert(scores@[order[a] as int] == out@[a].score);
                assert(order.contains(i as usize));
                let c = choose|c: int| 0 <= c < order.len() && order[c] == i as usize;
                assert(out@[c].score == scores@[i]);
                if a < c {
                    assert(!single_lt(scores@[order[a] as int], scores@[order[c] as int]));
                }
            }
        }
        out
    }
}

/// Whether a search by token vectors shows a record.
pub open spec fn token_eligible(
    k: KeyModel,
    m: RecordModel,
    space: Seq<char>,
    filter: Option<MetadataFilter>,
    namespace: Option<Seq<char>>,
    now: u64,
) -> bool {
    &&& !m.expired(now)
    &&& key_in(namespace, k)
    &&& has_key(m.multi_vectors, space)
    &&& filter matches Some(f) ==> accepts(f, m.metadata)
}

fn is_token_eligible(
    record: &Record,
    space: &str,
    options: &MultiVectorSearchOptions,
    now: u64,
) -> (r: bool)
    ensures
        r == token_eligible(
            record@.key(),
            record@,
            space@,
            options.filter,
            opt_name(options.namespace),
            now,
        ),
{
    if record.is_expired_at(now) {
        return false;
    }
    let inside: bool = match &options.namespace {
        Some(n) => same_text(record.namespace.as_str(), n.as_str()),
        None => true,
    };
    if !inside {
        return false;
    }
    if !record.multi_vectors.contains_key(space) {
        return false;
    }
    match &options.filter {
        Some(f) => f.matches(&record.metadata),
        None => true,
    }
}

} // verus!
