//! What a search asks for and what it answers.
use vstd::prelude::*;
use crate::filter::MetadataFilter;
use crate::metadata::Metadata;
use crate::ordered_map::OrderedMap;

verus! {

/// The single-precision pattern of one.
pub const ONE: u32 = 0x3f80_0000;

/// A search by a dense vector.
pub struct SearchOptions {
    /// The number of wanted results; zero means all.
    pub top_k: usize,
    pub filter: Option<MetadataFilter>,
    /// How many leading components to compare.
    pub truncate_dim: Option<usize>,
}

impl Default for SearchOptions {
    fn default() -> (r: Self)
        ensures
            r == (SearchOptions { top_k: 10, filter: None, truncate_dim: None }),
    {
        SearchOptions { top_k: 10, filter: None, truncate_dim: None }
    }
}

/// How dense and sparse scores are combined.
#[derive(Clone, Copy, Debug, PartialEq, Eq, Structural)]
pub enum FusionStrategy {
    /// By their weighted sum.
    Linear,
    /// By the reciprocals of their ranks.
    Rrf { rank_constant: usize },
}

impl FusionStrategy {
    /// The name of the strategy.
    pub open spec fn label_of(self) -> Seq<char> {
        match self {
            FusionStrategy::Linear => "linear"@,
            FusionStrategy::Rrf { .. } => "rrf"@,
        }
    }

    /// The name of the strategy.
    pub fn label(&self) -> (r: &'static str)
        ensures
            r@ == self.label_of(),
    {
        match self {
            FusionStrategy::Linear => "linear",
            FusionStrategy::Rrf { .. } => "rrf",
        }
    }
}

/// A search by a dense vector, sparse terms or both. Weights are single-precision patterns.
pub struct HybridSearchOptions {
    pub top_k: usize,
    pub filter: Option<MetadataFilter>,
    pub dense_weight: u32,
    pub sparse_weight: u32,
    /// How many records to consider at least.
    pub fetch_k: usize,
    /// How relevance and diversity are balanced, where diversity is wanted.
    pub mmr_lambda: Option<u32>,
    pub vector_name: Option<String>,
    pub fusion: FusionStrategy,
    pub truncate_dim: Option<usize>,
    /// Queries by vector name with their weights.
    pub multi_vector_queries: OrderedMap<String, (Vec<u32>, u32)>,
}

impl Default for HybridSearchOptions {
    fn default() -> (r: Self)
        ensures
            r.top_k == 10,
            r.filter is None,
            r.dense_weight == ONE,
            r.sparse_weight == ONE,
            r.fetch_k == 0,
            r.mmr_lambda is None,
            r.vector_name is None,
            r.fusion == FusionStrategy::Linear,
            r.truncate_dim is None,
            r.multi_vector_queries.pairs().len() == 0,
    {
        HybridSearchOptions {
            top_k: 10,
            filter: None,
            dense_weight: ONE,
            sparse_weight: ONE,
            fetch_k: 0,
            mmr_lambda: None,
            vector_name: None,
            fusion: FusionStrategy::Linear,
            truncate_dim: None,
            multi_vector_queries: OrderedMap::new(),
        }
    }
}

impl SearchOptions {
    /// The same search as one that also knows sparse terms, whose weight is zero.
    pub fn into_hybrid(self) -> (r: HybridSearchOptions)
        ensures
            r.top_k == self.top_k,
            r.filter == self.filter,
            r.truncate_dim == self.truncate_dim,
            r.dense_weight == ONE,
            r.sparse_weight == 0,
            r.fetch_k == 0,
            r.mmr_lambda is None,
            r.vector_name is None,
            r.fusion == FusionStrategy::Linear,
            r.multi_vector_queries.pairs().len() == 0,
    {
        HybridSearchOptions {
            top_k: self.top_k,
            filter: self.filter,
            dense_weight: ONE,
            sparse_weight: 0,
            fetch_k: 0,
            mmr_lambda: None,
            vector_name: None,
            fusion: FusionStrategy::Linear,
            truncate_dim: self.truncate_dim,
            multi_vector_queries: OrderedMap::new(),
        }
    }
}

/// A result of a search.
pub struct SearchResult {
    pub namespace: String,
    pub id: String,
    pub score: u32,
    pub dense_score: u32,
    pub sparse_score: u32,
    pub vector_name: Option<String>,
    pub matched_terms: Vec<String>,
    pub dense_rank: Option<usize>,
    pub sparse_rank: Option<usize>,
    pub metadata: Metadata,
    pub bm25_term_scores: OrderedMap<String, u32>,
}

/// Times in microseconds.
#[derive(Clone, Copy, Debug, PartialEq, Eq, Structural)]
pub struct SearchTimings {
    pub dense_us: u64,
    pub sparse_us: u64,
    pub fusion_us: u64,
    pub total_us: u64,
}

/// How a search went.
pub struct SearchStats {
    pub used_ann: bool,
    pub ann_candidate_count: usize,
    pub exact_fallback: bool,
    pub considered_count: usize,
    pub fetch_k: usize,
    pub mmr_applied: bool,
    pub sparse_candidate_count: usize,
    pub ann_loaded_from_disk: bool,
    pub wal_entries_replayed: usize,
    pub fusion: String,
    /// How many components were compared.
    pub effective_dimension: usize,
    pub matryoshka_truncated: bool,
    pub timings: SearchTimings,
}

/// The results of a search and how it went.
pub struct SearchOutcome {
    pub results: Vec<SearchResult>,
    pub stats: SearchStats,
}

/// A search by token vectors.
pub struct MultiVectorSearchOptions {
    pub top_k: usize,
    pub filter: Option<MetadataFilter>,
    pub namespace: Option<String>,
}

impl Default for MultiVectorSearchOptions {
    fn default() -> (r: Self)
        ensures
            r == (MultiVectorSearchOptions { top_k: 10, filter: None, namespace: None }),
    {
        MultiVectorSearchOptions { top_k: 10, filter: None, namespace: None }
    }
}

/// A result of a search by token vectors.
pub struct MultiVectorSearchResult {
    pub namespace: String,
    pub id: String,
    pub score: u32,
    pub metadata: Metadata,
}

} // verus!
