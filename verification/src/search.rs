//! Searches: what is compared, which records are considered, and how they are ranked.
use vstd::prelude::*;
use crate::ann::{graph_search, resolved, GraphSearch};
use crate::change::first_of;
use crate::database::Database;
use crate::error::{invalid, Failure, VectLiteError};
use crate::float_bits::{single_le, single_less_or_equal};
use crate::metric::DistanceMetric;
use crate::order::Duplicate;
use crate::payload_index::opt_text;
use crate::quantization::rescored;
use crate::quantizers::QuantizedIndex;
use crate::ranking::{law_least_positions, least_positions};
use crate::record::{KeyModel, RecordKey};
use crate::search_options::{HybridSearchOptions, ONE};
use crate::text::{concat5, decimal, decimal_text};

verus! {

/// How many components a dense search compares, or why it is refused. A query that is shorter than
/// the dimension has to say so.
pub open spec fn search_dimension(
    dimension: nat,
    query: Option<nat>,
    truncate: Option<usize>,
) -> Result<Option<nat>, Failure> {
    match query {
        None => Ok(None),
        Some(n) => if n == 0 {
            Err(Failure::InvalidFormat("query vector must not be empty"@))
        } else if n > dimension {
            Err(mismatched(dimension, n))
        } else {
            match truncate {
                Some(t) => if t == 0 {
                    Err(Failure::InvalidFormat("truncate_dim must be greater than zero"@))
                } else if t > dimension {
                    Err(mismatched(dimension, t as nat))
                } else if t > n {
                    Err(
                        Failure::InvalidFormat(
                            "truncate_dim ("@ + decimal(t as nat)
                                + ") cannot exceed query vector length ("@ + decimal(n) + ")"@,
                        ),
                    )
                } else {
                    Ok(Some(t as nat))
                },
                None => if n != dimension {
                    Err(mismatched(dimension, n))
                } else {
                    Ok(Some(n))
                },
            }
        },
    }
}

/// The error for a vector of another dimension.
pub open spec fn mismatched(expected: nat, found: nat) -> Failure {
    Failure::DimensionMismatch { expected: expected as usize, found: found as usize }
}

/// How many records a search considers.
pub open spec fn fetch_size(top_k: nat, requested: nat, total: nat, diverse: bool) -> nat {
    let wanted = if top_k == 0 {
        1
    } else {
        top_k
    };
    let least = if diverse {
        4 * wanted
    } else {
        wanted
    };
    let most = if requested > least {
        requested
    } else {
        least
    };
    if most < total {
        most
    } else {
        total
    }
}

/// A search considers at least as many records as it is to return, as far as there are that many.
pub proof fn law_fetch_size(top_k: nat, requested: nat, total: nat, diverse: bool)
    ensures
        fetch_size(top_k, requested, total, diverse) <= total,
        top_k <= total ==> top_k <= fetch_size(top_k, requested, total, diverse),
{
}

/// How many records a search considers.
pub fn resolve_fetch_k(
    top_k: usize,
    requested_fetch_k: usize,
    total_records: usize,
    diverse: bool,
) -> (r: usize)
    ensures
        r == fetch_size(
            top_k as nat,
            requested_fetch_k as nat,
            total_records as nat,
            diverse,
        ),
{
    if total_records == 0 {
        return 0;
    }
    let wanted: usize = if top_k == 0 {
        1
    } else {
        top_k
    };
    let least: usize = if diverse {
        if wanted > usize::MAX / 4 {
            usize::MAX
        } else {
            4 * wanted
        }
    } else {
        wanted
    };
    let most: usize = if requested_fetch_k > least {
        requested_fetch_k
    } else {
        least
    };
    if most < total_records {
        most
    } else {
        total_records
    }
}

/// Where the candidates of a dense search come from.
#[derive(Clone, Copy, Debug, PartialEq, Eq, Structural)]
pub enum DenseSource {
    /// From nowhere: all records are considered.
    Scan,
    /// From the quantized index.
    Quantized,
    /// From the graph of a slot.
    Graph(GraphSearch),
}

/// How a search proceeds.
#[derive(Clone, Copy, Debug, PartialEq, Eq, Structural)]
pub struct SearchPlan {
    /// The number of wanted results.
    pub top_k: usize,
    /// The number of records to consider.
    pub fetch_k: usize,
    /// How many components are compared, where there is a dense query.
    pub effective_dimension: Option<usize>,
    /// Whether fewer components are compared than there are.
    pub truncated: bool,
    pub source: DenseSource,
}

/// The length of a query, where there is one.
pub open spec fn query_len(q: Option<&Vec<u32>>) -> Option<nat> {
    match q {
        Some(v) => Some(v@.len()),
        None => None,
    }
}

/// Whether a balance of relevance and diversity is out of range.
pub open spec fn lambda_out_of_range(lambda: Option<u32>) -> bool {
    lambda matches Some(l) && !(single_le(0, l) && single_le(l, ONE))
}

/// An optional text behind a value.
pub open spec fn opt_name(name: Option<String>) -> Option<Seq<char>> {
    match name {
        Some(s) => Some(s@),
        None => None,
    }
}

impl Database {
    /// Why a search is refused, if it is. `zero_norm` says whether the query has no length.
    pub open spec fn search_refusal(
        &self,
        dense: Option<nat>,
        zero_norm: bool,
        has_terms: bool,
        options: &HybridSearchOptions,
    ) -> Option<Failure> {
        first_of(
            self.read_refusal(),
            match search_dimension(self.dim(), dense, options.truncate_dim) {
                Err(f) => Some(f),
                Ok(_) => if dense is None && !has_terms {
                    Some(
                        Failure::InvalidFormat(
                            "search requires a dense query, a sparse query, or both"@,
                        ),
                    )
                } else if dense is Some && zero_norm && (self.measure() == DistanceMetric::Cosine
                    || self.measure() == DistanceMetric::DotProduct) {
                    Some(
                        Failure::InvalidFormat(
                            "query vector has zero norm; cosine/dot-product similarity is undefined"@,
                        ),
                    )
                } else if lambda_out_of_range(options.mmr_lambda) {
                    Some(Failure::InvalidFormat("mmr_lambda must be between 0.0 and 1.0"@))
                } else if opt_name(options.vector_name) == Some(Seq::<char>::empty()) {
                    Some(Failure::InvalidFormat("vector_name must not be empty"@))
                } else {
                    None
                },
            },
        )
    }

    /// Where the candidates of a dense search come from: from the quantized index for the main
    /// vector, else from the graph of the slot where it has enough live entries, else from
    /// nowhere. A search that compares fewer components considers all records.
    pub open spec fn dense_source(
        &self,
        has_query: bool,
        truncated: bool,
        namespace: Option<Seq<char>>,
        vector_name: Option<Seq<char>>,
        fetch_k: nat,
    ) -> DenseSource {
        let slot = (
            namespace,
            match vector_name {
                Some(n) => n,
                None => Seq::empty(),
            },
        );
        if !has_query || truncated {
            DenseSource::Scan
        } else if vector_name is None && self.quantizer().index is Some
            && self.quantizer().index->Some_0.size() > 0 {
            DenseSource::Quantized
        } else if self.graphs().contains_key(slot) {
            let g = self.graphs()[slot];
            match graph_search(
                g.keys.len(),
                g.dead.len(),
                fetch_k,
                self.tuning().ef_search,
                self.tuning().ef_construction as nat,
            ) {
                None => DenseSource::Scan,
                Some((count, fetch, ef)) => DenseSource::Graph(
                    GraphSearch {
                        candidate_count: count as usize,
                        fetch_count: fetch as usize,
                        ef_search: ef as usize,
                    },
                ),
            }
        } else {
            DenseSource::Scan
        }
    }

    /// The number of wanted results; zero means all.
    pub open spec fn wanted(&self, top_k: nat) -> nat {
        if top_k == 0 {
            self.rows().len()
        } else {
            top_k
        }
    }

    /// How many components a dense search compares.
    pub fn resolve_dense_search_dimension(
        &self,
        dense_query: Option<&Vec<u32>>,
        truncate_dim: Option<usize>,
    ) -> (r: Result<Option<usize>, VectLiteError>)
        ensures
            match search_dimension(self.dim(), query_len(dense_query), truncate_dim) {
                Err(f) => r matches Err(e) && e@ == f,
                Ok(None) => r matches Ok(None),
                Ok(Some(n)) => r matches Ok(Some(x)) && x == n,
            },
    {
        let query = match dense_query {
            Some(q) => q,
            None => {
                return Ok(None);
            },
        };
        let n: usize = query.len();
        let dimension: usize = self.table.dimension;
        if n == 0 {
            return Err(invalid("query vector must not be empty"));
        }
        if n > dimension {
            return Err(VectLiteError::DimensionMismatch { expected: dimension, found: n });
        }
        match truncate_dim {
            Some(t) => {
                if t == 0 {
                    return Err(invalid("truncate_dim must be greater than zero"));
                }
                if t > dimension {
                    return Err(VectLiteError::DimensionMismatch { expected: dimension, found: t });
                }
                if t > n {
                    return Err(
                        VectLiteError::InvalidFormat(
                            concat5(
                                "truncate_dim (",
                                decimal_text(t as u64).as_str(),
                                ") cannot exceed query vector length (",
                                decimal_text(n as u64).as_str(),
                                ")",
                            ),
                        ),
                    );
                }
                Ok(Some(t))
            },
            None => {
                if n != dimension {
                    return Err(VectLiteError::DimensionMismatch { expected: dimension, found: n });
                }
                Ok(Some(n))
            },
        }
    }

    /// Checks a search and decides how it proceeds. `zero_norm` says whether the query has no
    /// length.
    pub fn plan_search(
        &self,
        dense_query: Option<&Vec<u32>>,
        zero_norm: bool,
        has_terms: bool,
        options: &HybridSearchOptions,
        namespace: Option<&str>,
    ) -> (r: Result<SearchPlan, VectLiteError>)
        requires
            self.wf(),
        ensures
            match self.search_refusal(query_len(dense_query), zero_norm, has_terms, options) {
                Some(f) => r matches Err(e) && e@ == f,
                None => {
                    &&& r matches Ok(p)
                    &&& p.top_k == self.wanted(options.top_k as nat)
                    &&& p.fetch_k == fetch_size(
                        p.top_k as nat,
                        options.fetch_k as nat,
                        self.rows().len(),
                        options.mmr_lambda is Some,
                    )
                    &&& match search_dimension(
                        self.dim(),
                        query_len(dense_query),
                        options.truncate_dim,
                    ) {
                        Ok(Some(n)) => p.effective_dimension == Some(n as usize) && p.truncated
                            == (n < self.dim()),
                        _ => p.effective_dimension is None && !p.truncated,
                    }
                    &&& p.source == self.dense_source(
                        dense_query is Some,
                        p.truncated,
                        opt_text(namespace),
                        opt_name(options.vector_name),
                        p.fetch_k as nat,
                    )
                },
            },
    {
        match self.check_open() {
            Ok(()) => {},
            Err(e) => {
                return Err(e);
            },
        }
        let effective: Option<usize> = match self.resolve_dense_search_dimension(
            dense_query,
            options.truncate_dim,
        ) {
            Ok(n) => n,
            Err(e) => {
                return Err(e);
            },
        };
        if dense_query.is_none() && !has_terms {
            return Err(invalid("search requires a dense query, a sparse query, or both"));
        }
        if dense_query.is_some() && zero_norm && self.metric.is_similarity() {
            return Err(
                invalid("query vector has zero norm; cosine/dot-product similarity is undefined"),
            );
        }
        if let Some(l) = options.mmr_lambda {
            if !(single_less_or_equal(0, l) && single_less_or_equal(l, ONE)) {
                return Err(invalid("mmr_lambda must be between 0.0 and 1.0"));
            }
        }
        if let Some(name) = &options.vector_name {
            if name.as_str().is_empty() {
                proof {
                    assert(name@ =~= Seq::<char>::empty());
                }
                return Err(invalid("vector_name must not be empty"));
            }
        }
        let total: usize = self.table.records.len();
        let top_k: usize = if options.top_k == 0 {
            total
        } else {
            options.top_k
        };
        let fetch_k: usize = resolve_fetch_k(
            top_k,
            options.fetch_k,
            total,
            options.mmr_lambda.is_some(),
        );
        let truncated: bool = match effective {
            Some(n) => n < self.table.dimension,
            None => false,
        };
        let vector_name: Option<&str> = match &options.vector_name {
            Some(s) => Some(s.as_str()),
            None => None,
        };
        let source = self.choose_source(
            dense_query.is_some(),
            truncated,
            namespace,
            vector_name,
            fetch_k,
        );
        Ok(SearchPlan { top_k, fetch_k, effective_dimension: effective, truncated, source })
    }

    fn choose_source(
        &self,
        has_query: bool,
        truncated: bool,
        namespace: Option<&str>,
        vector_name: Option<&str>,
        fetch_k: usize,
    ) -> (r: DenseSource)
        ensures
            r == self.dense_source(
                has_query,
                truncated,
                opt_text(namespace),
                opt_text(vector_name),
                fetch_k as nat,
            ),
    {
        if !has_query || truncated {
            return DenseSource::Scan;
        }
        if vector_name.is_none() {
            if let Some(index) = &self.quant.index {
                if index.count() > 0 {
                    return DenseSource::Quantized;
                }
            }
        }
        let name: &str = match vector_name {
            Some(n) => n,
            None => {
                proof {
                    reveal_strlit("");
                    assert(""@ =~= Seq::<char>::empty());
                }
                ""
            },
        };
        match self.catalog.slot(namespace, name) {
            Some(index) => match index.search_plan(fetch_k, &self.config) {
                Some(p) => DenseSource::Graph(p),
                None => DenseSource::Scan,
            },
            None => DenseSource::Scan,
        }
    }

    /// The keys of the neighbours that a graph search found: those that are not dead, in their
    /// order, at most as many as are wanted. A slot without a graph has none.
    pub fn graph_candidates(
        &self,
        namespace: Option<&str>,
        vector_name: &str,
        neighbours: &Vec<usize>,
        plan: &GraphSearch,
    ) -> (r: Vec<RecordKey>)
        ensures
            ({
                let slot = (opt_text(namespace), vector_name@);
                r.deep_view() == if self.graphs().contains_key(slot) {
                    resolved(self.graphs()[slot], neighbours@, plan.candidate_count as nat)
                } else {
                    Seq::empty()
                }
            }),
    {
        match self.catalog.slot(namespace, vector_name) {
            Some(index) => index.resolve(neighbours, plan.candidate_count),
            None => {
                let none: Vec<RecordKey> = Vec::new();
                proof {
                    assert(none.deep_view() =~= Seq::<KeyModel>::empty());
                }
                none
            },
        }
    }

    /// The keys that the quantized index singles out for a query. `scores` are the approximate
    /// scores or distances of all vectors, where the index needs them.
    pub fn quantized_candidate_keys(
        &self,
        query: &Vec<u32>,
        scores: &Vec<u32>,
        top_k: usize,
    ) -> (r: Option<Vec<RecordKey>>)
        requires
            self.wf(),
            self.quantizer().index matches Some(index) ==> {
                &&& index matches QuantizedIndex::Binary(q) ==> query@.len() == q.dimension && 8
                    * q.bytes_per_vector <= u32::MAX
                &&& !(index is Binary) ==> scores@.len() == index.size()
            },
        ensures
            match self.quantizer().index {
                Some(index) if index.size() > 0 => r matches Some(keys) && keys.deep_view()
                    == crate::sparse_index::picked(
                    self.quantizer().keys.deep_view(),
                    least_positions(
                        index.candidate_keys(query@, scores@),
                        rescored(
                            top_k as nat,
                            index.multiplier() as nat,
                            index.size() as nat,
                        ),
                    ),
                ),
                _ => r is None,
            },
    {
        let index = match &self.quant.index {
            Some(x) => x,
            None => {
                return None;
            },
        };
        if index.count() == 0 {
            return None;
        }
        let order = index.search_candidates(query, scores, top_k);
        let ghost all = self.quant.keys.deep_view();
        proof {
            let n = rescored(top_k as nat, index.multiplier() as nat, index.size() as nat);
            law_least_positions(index.candidate_keys(query@, scores@), n);
            assert(index.candidate_keys(query@, scores@).len() == index.size());
        }
        let mut out: Vec<RecordKey> = Vec::new();
        let mut j: usize = 0;
        proof {
            assert(out.deep_view() =~= crate::sparse_index::picked(all, order@.take(0)));
        }
        while j < order.len()
            invariant
                j <= order@.len(),
                all == self.quant.keys.deep_view(),
                forall|a: int| 0 <= a < order@.len() ==> (#[trigger] order@[a]) < self.quant.keys@.len(),
                out.deep_view() == crate::sparse_index::picked(all, order@.take(j as int)),
            decreases order@.len() - j,
        {
            let ghost before = out.deep_view();
            let at: usize = order[j];
            let k = self.quant.keys[at].duplicate();
            out.push(k);
            proof {
                assert(all[at as int] == k.deep_view());
                assert(out.deep_view() =~= before.push(k.deep_view()));
                assert(out.deep_view() =~= crate::sparse_index::picked(all, order@.take(j + 1)));
            }
            j += 1;
        }
        proof {
            assert(order@.take(j as int) =~= order@);
        }
        Some(out)
    }
}

} // verus!
