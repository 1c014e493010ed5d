use std::collections::{BTreeMap, HashMap};

use vectlite::ann::GraphAction;
use vectlite::change::Change;
use vectlite::codec::Reader;
use vectlite::commit::Effects;
use vectlite::config::{IndexConfig, WalSyncMode};
use vectlite::database::Database;
use vectlite::error::VectLiteError;
use vectlite::filter::MetadataFilter;
use vectlite::hits::Diversifier;
use vectlite::hybrid::{order_hits, rank_hits, Scores};
use vectlite::metadata::{Metadata, MetadataValue};
use vectlite::metric::DistanceMetric;
use vectlite::order::Duplicate;
use vectlite::ordered_map::OrderedMap;
use vectlite::payload_index::PayloadIndexType;
use vectlite::quantization::{
    BinaryQuantizationConfig, BinaryQuantizer, MultiVectorQuantizationConfig,
    ProductQuantizationConfig, QuantizationConfig, ScalarQuantizationConfig,
    TwoBitQuantizationConfig,
};
use vectlite::quantizers::{
    find_nearest_centroid, ProductQuantizer, QuantizedIndex, ScalarQuantizer,
};
use vectlite::record::{MultiVectors, NamedVectors, Record, SparseVector};
use vectlite::search::{DenseSource, SearchPlan};
use vectlite::search_options::{
    FusionStrategy, HybridSearchOptions, MultiVectorSearchOptions, MultiVectorSearchResult,
    SearchOptions, SearchOutcome, SearchResult, SearchTimings,
};
use vectlite::sparse_index::sparse_candidate_keys;
use vectlite::token_index::MultiVectorQuantizedIndex;
use vectlite::wal::wal_header;

type Key = (String, String);
type Slot = (Option<String>, String);

fn bits(v: &[f32]) -> Vec<u32> {
    v.iter().map(|x| x.to_bits()).collect()
}

fn floats(v: &[u32]) -> Vec<f32> {
    v.iter().map(|x| f32::from_bits(*x)).collect()
}

fn score(metric: DistanceMetric, a: &[f32], b: &[f32]) -> f32 {
    let pairs = || a.iter().zip(b.iter());
    match metric {
        DistanceMetric::Cosine => {
            let dot: f32 = pairs().map(|(x, y)| x * y).sum();
            let na: f32 = a.iter().map(|x| x * x).sum();
            let nb: f32 = b.iter().map(|x| x * x).sum();
            if na == 0.0 || nb == 0.0 {
                0.0
            } else {
                dot / (na.sqrt() * nb.sqrt())
            }
        }
        DistanceMetric::DotProduct => pairs().map(|(x, y)| x * y).sum(),
        DistanceMetric::Euclidean => -pairs().map(|(x, y)| (x - y) * (x - y)).sum::<f32>().sqrt(),
        DistanceMetric::Manhattan => -pairs().map(|(x, y)| (x - y).abs()).sum::<f32>(),
    }
}

fn squared_distance(a: &[f32], b: &[f32]) -> f32 {
    a.iter().zip(b.iter()).map(|(x, y)| (x - y) * (x - y)).sum()
}

fn nearest(v: &[f32], centroids: &[Vec<f32>]) -> usize {
    let distances: Vec<u32> =
        centroids.iter().map(|c| squared_distance(v, c).to_bits()).collect();
    find_nearest_centroid(&distances)
}

fn kmeans(vectors: &[&[f32]], dimension: usize, k: usize, iterations: usize) -> Vec<Vec<f32>> {
    let actual = k.min(vectors.len());
    let mut centroids: Vec<Vec<f32>> = (0..actual).map(|i| vectors[i].to_vec()).collect();
    for _ in 0..iterations {
        let mut sums = vec![vec![0.0_f32; dimension]; actual];
        let mut counts = vec![0_usize; actual];
        for v in vectors {
            let c = nearest(v, &centroids);
            counts[c] += 1;
            for (j, x) in v.iter().enumerate() {
                sums[c][j] += x;
            }
        }
        for c in 0..actual {
            if counts[c] > 0 {
                for x in sums[c].iter_mut() {
                    *x /= counts[c] as f32;
                }
            } else {
                sums[c] = centroids[c].clone();
            }
        }
        centroids = sums;
    }
    while centroids.len() < k {
        centroids.push(vec![0.0; dimension]);
    }
    centroids
}

fn scale(min: f32, max: f32) -> f32 {
    if max - min < 1e-10 {
        0.0
    } else {
        255.0 / (max - min)
    }
}

fn scalar_rows(q: &ScalarQuantizer, vectors: &[Vec<f32>]) -> Vec<Vec<u8>> {
    let mins = floats(&q.mins);
    let maxs = floats(&q.maxs);
    vectors
        .iter()
        .map(|v| {
            v.iter()
                .enumerate()
                .map(|(i, x)| {
                    let s = scale(mins[i], maxs[i]);
                    if s == 0.0 {
                        128
                    } else {
                        ((x - mins[i]) * s).clamp(0.0, 255.0) as u8
                    }
                })
                .collect()
        })
        .collect()
}

fn product_rows(books: &[Vec<Vec<f32>>], vectors: &[Vec<f32>]) -> Vec<Vec<u8>> {
    vectors
        .iter()
        .map(|v| {
            let part = v.len() / books.len();
            books
                .iter()
                .enumerate()
                .map(|(s, book)| nearest(&v[s * part..(s + 1) * part], book) as u8)
                .collect()
        })
        .collect()
}

fn books_of(q: &ProductQuantizer) -> Vec<Vec<Vec<f32>>> {
    q.codebooks.iter().map(|b| b.iter().map(|c| floats(c)).collect()).collect()
}

fn train(vectors: &[Vec<f32>], dimension: usize, config: QuantizationConfig) -> QuantizedIndex {
    let patterns: Vec<Vec<u32>> = vectors.iter().map(|v| bits(v)).collect();
    match config {
        QuantizationConfig::Scalar(c) => {
            let mut q = ScalarQuantizer::calibrate(&patterns, dimension, c);
            let rows = scalar_rows(&q, vectors);
            q.rebuild_codes(&rows);
            QuantizedIndex::Scalar(q)
        }
        QuantizationConfig::Binary(c) => {
            let mut q = BinaryQuantizer::new(dimension, c);
            q.add_vectors(&patterns);
            QuantizedIndex::Binary(q)
        }
        QuantizationConfig::Product(c) => {
            let part = dimension / c.num_sub_vectors;
            let books: Vec<Vec<Vec<f32>>> = (0..c.num_sub_vectors)
                .map(|s| {
                    let parts: Vec<&[f32]> =
                        vectors.iter().map(|v| &v[s * part..(s + 1) * part]).collect();
                    kmeans(&parts, part, c.num_centroids, c.training_iterations)
                })
                .collect();
            let patterns: Vec<Vec<Vec<u32>>> =
                books.iter().map(|b| b.iter().map(|x| bits(x)).collect()).collect();
            let mut q = ProductQuantizer::with_codebooks(dimension, patterns, c);
            q.add_codes(&product_rows(&books, vectors));
            QuantizedIndex::Product(q)
        }
    }
}

fn recode(index: QuantizedIndex, vectors: &[Vec<f32>]) -> QuantizedIndex {
    match index {
        QuantizedIndex::Scalar(mut q) => {
            let rows = scalar_rows(&q, vectors);
            q.rebuild_codes(&rows);
            QuantizedIndex::Scalar(q)
        }
        QuantizedIndex::Binary(mut q) => {
            let patterns: Vec<Vec<u32>> = vectors.iter().map(|v| bits(v)).collect();
            q.rebuild_codes(&patterns);
            QuantizedIndex::Binary(q)
        }
        QuantizedIndex::Product(mut q) => {
            let rows = product_rows(&books_of(&q), vectors);
            q.rebuild_codes(&rows);
            QuantizedIndex::Product(q)
        }
    }
}

/// The approximate scores or distances of all vectors of an index.
fn approximate(index: &QuantizedIndex, query: &[f32], metric: DistanceMetric) -> Vec<u32> {
    match index {
        QuantizedIndex::Scalar(q) => {
            let mins = floats(&q.mins);
            let maxs = floats(&q.maxs);
            (0..q.count)
                .map(|i| {
                    let v: Vec<f32> = (0..q.dimension)
                        .map(|j| {
                            let s = scale(mins[j], maxs[j]);
                            if s == 0.0 {
                                mins[j]
                            } else {
                                mins[j] + q.codes[i * q.dimension + j] as f32 / s
                            }
                        })
                        .collect();
                    score(metric, query, &v).to_bits()
                })
                .collect()
        }
        QuantizedIndex::Binary(_) => Vec::new(),
        QuantizedIndex::Product(q) => {
            let books = books_of(q);
            let part = q.sub_dimension;
            (0..q.count)
                .map(|i| {
                    (0..q.num_sub_vectors)
                        .map(|s| {
                            let code = q.codes[i * q.num_sub_vectors + s] as usize;
                            squared_distance(&query[s * part..(s + 1) * part], &books[s][code])
                        })
                        .sum::<f32>()
                        .to_bits()
                })
                .collect()
        }
    }
}

fn maxsim(query: &[Vec<f32>], tokens: &[Vec<f32>], metric: DistanceMetric) -> f32 {
    if query.is_empty() || tokens.is_empty() {
        return 0.0;
    }
    query
        .iter()
        .map(|q| {
            tokens.iter().map(|t| score(metric, q, t)).fold(f32::NEG_INFINITY, |a, b| {
                if b > a {
                    b
                } else {
                    a
                }
            })
        })
        .sum()
}

/// The bytes that a database leaves behind.
#[derive(Clone, Default)]
struct Disk {
    file: Vec<u8>,
    log: Option<Vec<u8>>,
    defs: Option<Vec<u8>>,
    quant: Option<Vec<u8>>,
    tokens: BTreeMap<String, Vec<u8>>,
}

/// A database with its bytes in memory, a clock that is set by hand, and graphs that compare a
/// query with every node.
struct Db {
    inner: Database,
    disk: Disk,
    now: f64,
    graphs: HashMap<Slot, Vec<Vec<f32>>>,
}

impl Db {
    fn create(dimension: usize) -> Result<Db, VectLiteError> {
        Db::create_with_metric(dimension, DistanceMetric::Cosine)
    }

    fn create_with_metric(dimension: usize, metric: DistanceMetric) -> Result<Db, VectLiteError> {
        let inner = Database::create_with_metric(dimension, metric)?;
        let mut db =
            Db { inner, disk: Disk::default(), now: 1_000_000.0, graphs: HashMap::new() };
        db.compact()?;
        Ok(db)
    }

    fn reopen(disk: &Disk, now: f64, read_only: bool) -> Result<Db, VectLiteError> {
        let log = disk.log.as_deref();
        let defs = disk.defs.as_deref();
        let inner = if read_only {
            Database::open_read_only(&disk.file, log, defs)?
        } else {
            Database::open(&disk.file, log, defs)?
        };
        let mut db = Db { inner, disk: disk.clone(), now, graphs: HashMap::new() };
        let actions = db.inner.rebuild_graphs();
        db.perform(actions);
        if let Some(bytes) = &disk.quant {
            let index = QuantizedIndex::read_params(&mut Reader::new(bytes))?;
            let index = recode(index, &db.main_vectors());
            db.inner.install_quantized(index);
        }
        for (space, bytes) in &disk.tokens {
            let index = MultiVectorQuantizedIndex::read_params(&mut Reader::new(bytes))?;
            db.inner.load_multi_vector_index(space, index);
        }
        Ok(db)
    }

    fn open(disk: &Disk) -> Result<Db, VectLiteError> {
        Db::reopen(disk, 1_000_000.0, false)
    }

    fn open_read_only(disk: &Disk) -> Result<Db, VectLiteError> {
        Db::reopen(disk, 1_000_000.0, true)
    }

    fn clock(&self) -> u64 {
        self.now.to_bits()
    }

    fn main_vectors(&self) -> Vec<Vec<f32>> {
        self.inner.main_vectors().iter().map(|v| floats(v)).collect()
    }

    fn vector_of(&self, key: &Key, name: &str) -> Vec<f32> {
        let record = self.inner.record(key).expect("a record of the graph");
        floats(record.vector_for(Some(name)).expect("a vector of the graph"))
    }

    fn perform(&mut self, actions: Vec<GraphAction>) {
        for action in actions {
            match action {
                GraphAction::Clear => self.graphs.clear(),
                GraphAction::Build { namespace, vector_name, keys, .. } => {
                    let nodes = keys.iter().map(|k| self.vector_of(k, &vector_name)).collect();
                    self.graphs.insert((namespace, vector_name), nodes);
                }
                GraphAction::Append { namespace, vector_name, first_id, keys, .. } => {
                    let more: Vec<Vec<f32>> =
                        keys.iter().map(|k| self.vector_of(k, &vector_name)).collect();
                    let nodes = self.graphs.entry((namespace, vector_name)).or_default();
                    assert_eq!(nodes.len(), first_id);
                    nodes.extend(more);
                }
            }
        }
    }

    fn retrain(&mut self) {
        if let Some(config) = self.inner.quantization_config() {
            let vectors = self.main_vectors();
            if !vectors.is_empty() {
                let index = train(&vectors, self.inner.dimension(), config);
                self.inner.install_quantized(index);
            }
        }
    }

    fn apply(&mut self, effects: Effects) {
        self.perform(effects.actions);
        if effects.retrain {
            self.retrain();
        }
        for space in effects.spaces {
            assert!(self.inner.space_is_even(&space));
            self.inner.rebuild_multi_vector_quantized_index(&space);
        }
    }

    fn write(&mut self, change: Result<Change, VectLiteError>) -> Result<usize, VectLiteError> {
        let change = change?;
        let count = change.count();
        if change.is_empty() {
            return Ok(count);
        }
        self.inner.decide_append(&change);
        let log = self.disk.log.get_or_insert_with(wal_header);
        log.extend_from_slice(change.bytes());
        let effects = self.inner.commit(change);
        self.apply(effects);
        Ok(count)
    }

    fn compact(&mut self) -> Result<(), VectLiteError> {
        let effects = self.inner.compact(self.now.to_bits())?;
        self.apply(effects);
        self.disk.file = self.inner.snapshot()?;
        self.disk.log = None;
        self.inner.compaction_saved();
        Ok(())
    }

    fn insert(&mut self, id: &str, v: Vec<f32>, m: Metadata) -> Result<(), VectLiteError> {
        let change = self.inner.insert(id, bits(&v), m);
        self.write(change).map(|_| ())
    }

    fn upsert(&mut self, id: &str, v: Vec<f32>, m: Metadata) -> Result<(), VectLiteError> {
        let change = self.inner.upsert(id, bits(&v), m);
        self.write(change).map(|_| ())
    }

    fn insert_in_namespace(
        &mut self,
        namespace: &str,
        id: &str,
        v: Vec<f32>,
        m: Metadata,
    ) -> Result<(), VectLiteError> {
        let change = self.inner.insert_in_namespace(namespace, id, bits(&v), m);
        self.write(change).map(|_| ())
    }

    fn upsert_in_namespace(
        &mut self,
        namespace: &str,
        id: &str,
        v: Vec<f32>,
        m: Metadata,
    ) -> Result<(), VectLiteError> {
        let change = self.inner.upsert_in_namespace(namespace, id, bits(&v), m);
        self.write(change).map(|_| ())
    }

    fn upsert_with_sparse(
        &mut self,
        namespace: &str,
        id: &str,
        v: Vec<f32>,
        sparse: SparseVector,
    ) -> Result<(), VectLiteError> {
        let change = self.inner.upsert_with_sparse_in_namespace(
            namespace,
            id,
            bits(&v),
            sparse,
            Metadata::new(),
        );
        self.write(change).map(|_| ())
    }

    fn upsert_tokens(
        &mut self,
        namespace: &str,
        id: &str,
        v: Vec<f32>,
        space: &str,
        tokens: Vec<Vec<f32>>,
    ) -> Result<(), VectLiteError> {
        let mut multi = MultiVectors::new();
        multi.insert(space.to_owned(), tokens.iter().map(|t| bits(t)).collect());
        let change = self.inner.upsert_multi_vectors_in_namespace(
            namespace,
            id,
            bits(&v),
            Metadata::new(),
            multi,
        );
        self.write(change).map(|_| ())
    }

    fn delete(&mut self, id: &str) -> Result<bool, VectLiteError> {
        let change = self.inner.delete(id);
        self.write(change).map(|n| n > 0)
    }

    fn update_metadata(&mut self, id: &str, patch: Metadata) -> Result<bool, VectLiteError> {
        let change = self.inner.update_metadata(id, patch);
        self.write(change).map(|n| n > 0)
    }

    fn set_ttl_in(&mut self, ns: &str, id: &str, ttl: f64) -> Result<bool, VectLiteError> {
        let change =
            self.inner.set_ttl_in_namespace(ns, id, ttl.to_bits(), (self.now + ttl).to_bits());
        self.write(change).map(|n| n > 0)
    }

    fn set_ttl(&mut self, id: &str, ttl: f64) -> Result<bool, VectLiteError> {
        self.set_ttl_in("", id, ttl)
    }

    fn clear_ttl(&mut self, id: &str) -> Result<bool, VectLiteError> {
        let change = self.inner.clear_ttl(id);
        self.write(change).map(|n| n > 0)
    }

    fn get(&self, id: &str) -> Option<&Record> {
        self.inner.get(id, self.clock())
    }

    fn count(&self, namespace: Option<&str>, filter: Option<&MetadataFilter>) -> usize {
        self.inner.count_filtered(namespace, filter, self.clock())
    }

    fn list(&self, filter: Option<&MetadataFilter>) -> Vec<&Record> {
        self.inner.list(None, filter, 0, 0, self.clock())
    }

    fn create_index(&mut self, field: &str, kind: PayloadIndexType) -> Result<bool, VectLiteError> {
        let made = self.inner.create_index(field, kind)?;
        if made {
            self.disk.defs = self.inner.index_defs_file()?;
        }
        Ok(made)
    }

    fn drop_index(&mut self, field: &str) -> Result<bool, VectLiteError> {
        let dropped = self.inner.drop_index(field)?;
        if dropped {
            self.disk.defs = self.inner.index_defs_file()?;
        }
        Ok(dropped)
    }

    fn enable_quantization(&mut self, config: QuantizationConfig) -> Result<(), VectLiteError> {
        self.inner.enable_quantization(config)?;
        self.retrain();
        let mut bytes = Vec::new();
        self.inner.quantized_index().expect("an index").write_params(&mut bytes);
        self.disk.quant = Some(bytes);
        Ok(())
    }

    fn disable_quantization(&mut self) -> Result<(), VectLiteError> {
        self.inner.disable_quantization()?;
        self.disk.quant = None;
        Ok(())
    }

    fn enable_token_quantization(
        &mut self,
        space: &str,
        config: MultiVectorQuantizationConfig,
    ) -> Result<(), VectLiteError> {
        self.inner.enable_multi_vector_quantization(space, config)?;
        assert!(self.inner.space_is_even(space));
        self.inner.rebuild_multi_vector_quantized_index(space);
        if let Some(t) = self.inner.token_index(space) {
            let mut bytes = Vec::new();
            t.index.write_params(&mut bytes);
            self.disk.tokens.insert(space.to_owned(), bytes);
        }
        Ok(())
    }

    fn term_score(&self, key: &Key, term: &str, weight: f32) -> f32 {
        let terms = self.inner.sparse_index();
        let n = terms.doc_count();
        let df = terms.document_frequency(term);
        if weight <= 0.0 || n == 0 || df == 0 {
            return 0.0;
        }
        let lengths: Vec<f32> =
            (0..n).map(|i| floats(terms.document(i).1).iter().sum::<f32>()).collect();
        let mine = (0..n).find(|i| terms.document(*i).0 == key).map_or(0.0, |i| lengths[i]);
        let average = lengths.iter().sum::<f32>() / n as f32;
        let norm = if average > 0.0 { 1.0 - 0.75 + 0.75 * (mine / average) } else { 1.0 };
        let df = df as f32;
        let idf = ((n as f32 - df + 0.5) / (df + 0.5) + 1.0).ln();
        idf * (weight * (1.2 + 1.0) / (weight + 1.2 * norm))
    }

    fn sparse_score(&self, key: &Key, query: &SparseVector) -> f32 {
        let record = self.inner.record(key).expect("a selected record");
        (0..query.len())
            .map(|i| {
                let term = query.key_at(i);
                match record.sparse.get(term) {
                    Some(w) => {
                        f32::from_bits(*query.value_at(i))
                            * self.term_score(key, term, f32::from_bits(*w))
                    }
                    None => 0.0,
                }
            })
            .sum()
    }

    fn scores(
        &self,
        keys: &[Key],
        dense: Option<&[f32]>,
        sparse: Option<&SparseVector>,
        options: &HybridSearchOptions,
        plan: &SearchPlan,
    ) -> Vec<Scores> {
        keys.iter()
            .map(|key| {
                let record = self.inner.record(key).expect("a selected record");
                let dense_score = match (dense, record.vector_for(options.vector_name.as_deref())) {
                    (Some(q), Some(v)) => {
                        let n = plan.effective_dimension.unwrap_or(q.len());
                        score(self.inner.metric(), &q[..n], &floats(v)[..n])
                    }
                    _ => 0.0,
                };
                let sparse_score = sparse.map_or(0.0, |q| self.sparse_score(key, q));
                let mut term_scores = OrderedMap::new();
                if let Some(q) = sparse {
                    for i in 0..q.len() {
                        if let Some(w) = record.sparse.get(q.key_at(i)) {
                            let s = self.term_score(key, q.key_at(i), f32::from_bits(*w));
                            term_scores.insert(q.key_at(i).clone(), s.to_bits());
                        }
                    }
                }
                Scores {
                    dense: dense_score.to_bits(),
                    sparse: sparse_score.to_bits(),
                    terms: term_scores,
                }
            })
            .collect()
    }

    fn hybrid(
        &self,
        namespace: Option<&str>,
        dense: Option<&[f32]>,
        sparse: Option<&SparseVector>,
        options: HybridSearchOptions,
    ) -> Result<SearchOutcome, VectLiteError> {
        let now = self.clock();
        let patterns = dense.map(bits);
        let zero_norm = dense.map_or(false, |q| q.iter().map(|x| x * x).sum::<f32>() == 0.0);
        let plan = self.inner.plan_search(
            patterns.as_ref(),
            zero_norm,
            sparse.is_some(),
            &options,
            namespace,
        )?;
        let name = options.vector_name.as_deref();
        let dense_keys: Option<Vec<Key>> = match (plan.source, dense, &patterns) {
            (DenseSource::Quantized, Some(q), Some(p)) => {
                let index = self.inner.quantized_index().expect("a planned index");
                let scores = approximate(index, q, self.inner.metric());
                self.inner.quantized_candidate_keys(p, &scores, plan.fetch_k)
            }
            (DenseSource::Graph(g), Some(q), _) => {
                let slot = (namespace.map(|s| s.to_owned()), name.unwrap_or("").to_owned());
                let nodes = &self.graphs[&slot];
                let mut order: Vec<usize> = (0..nodes.len()).collect();
                let metric = self.inner.metric();
                order.sort_by(|a, b| {
                    score(metric, q, &nodes[*b]).total_cmp(&score(metric, q, &nodes[*a]))
                });
                order.truncate(g.fetch_count);
                Some(self.inner.graph_candidates(namespace, name.unwrap_or(""), &order, &g))
            }
            _ => None,
        };
        let sparse_keys: Vec<Key> = match sparse {
            Some(q) => {
                let keys = self.inner.sparse_index().matching_keys(namespace, q);
                let scores: Vec<u32> =
                    keys.iter().map(|k| self.sparse_score(k, q).to_bits()).collect();
                sparse_candidate_keys(&keys, &scores, plan.fetch_k)
            }
            None => Vec::new(),
        };
        let looked_at = self.inner.consider_records(
            &plan,
            dense.is_some(),
            dense_keys.as_ref(),
            &sparse_keys,
            &options,
            namespace,
            now,
        );
        let scores = self.scores(&looked_at.keys, dense, sparse, &options, &plan);
        let hits = rank_hits(&looked_at.keys, &scores);
        let dense_weight = f32::from_bits(options.dense_weight);
        let sparse_weight = f32::from_bits(options.sparse_weight);
        let fused: Vec<u32> = hits
            .iter()
            .map(|hit| {
                let value = match options.fusion {
                    FusionStrategy::Linear => {
                        dense_weight * f32::from_bits(hit.dense_score)
                            + sparse_weight * f32::from_bits(hit.sparse_score)
                    }
                    FusionStrategy::Rrf { rank_constant } => {
                        let c = rank_constant.max(1) as f32;
                        hit.dense_rank.map_or(0.0, |r| dense_weight / (c + r as f32))
                            + hit.sparse_rank.map_or(0.0, |r| sparse_weight / (c + r as f32))
                    }
                };
                value.to_bits()
            })
            .collect();
        let hits = order_hits(hits, &fused);
        let chosen = options.mmr_lambda.map(|lambda| {
            let lambda = f32::from_bits(lambda);
            let mut chosen = Diversifier::new(hits.len(), plan.top_k);
            while !chosen.is_done() {
                let balanced: Vec<u32> = hits
                    .iter()
                    .map(|hit| {
                        let own = f32::from_bits(hit.score);
                        if chosen.positions().is_empty() {
                            return own.to_bits();
                        }
                        let penalty = chosen
                            .positions()
                            .iter()
                            .map(|p| {
                                dense_weight
                                    * score(
                                        self.inner.metric(),
                                        &self.vector_of(&hit.key, name.unwrap_or("")),
                                        &self.vector_of(&hits[*p].key, name.unwrap_or("")),
                                    )
                            })
                            .fold(0.0_f32, f32::max);
                        (lambda * own - (1.0 - lambda) * penalty).to_bits()
                    })
                    .collect();
                chosen.select(&hits, &balanced);
            }
            chosen
        });
        Ok(self.inner.finish_search(
            &plan,
            &options,
            sparse,
            &looked_at,
            &hits,
            chosen.as_ref(),
            SearchTimings { dense_us: 0, sparse_us: 0, fusion_us: 0, total_us: 0 },
        ))
    }

    fn search_in(
        &self,
        namespace: Option<&str>,
        query: &[f32],
        options: SearchOptions,
    ) -> Result<Vec<SearchResult>, VectLiteError> {
        self.hybrid(namespace, Some(query), None, options.into_hybrid()).map(|o| o.results)
    }

    fn search(
        &self,
        query: &[f32],
        options: SearchOptions,
    ) -> Result<Vec<SearchResult>, VectLiteError> {
        self.search_in(Some(""), query, options)
    }

    fn search_tokens(
        &self,
        space: &str,
        query: &[Vec<f32>],
        options: MultiVectorSearchOptions,
    ) -> Result<Vec<MultiVectorSearchResult>, VectLiteError> {
        let tokens: Vec<Vec<u32>> = query.iter().map(|t| bits(t)).collect();
        let keys = self.inner.search_multi_vector(space, &tokens, &options, self.clock())?;
        let scores: Vec<u32> = keys
            .iter()
            .map(|key| {
                let record = self.inner.record(key).expect("a selected record");
                let tokens: Vec<Vec<f32>> = record
                    .multi_vectors
                    .get(space)
                    .expect("a selected space")
                    .iter()
                    .map(|t| floats(t))
                    .collect();
                maxsim(query, &tokens, self.inner.metric()).to_bits()
            })
            .collect();
        Ok(self.inner.rank_multi_vector(&keys, &scores, options.top_k))
    }
}

fn top(k: usize) -> SearchOptions {
    SearchOptions { top_k: k, filter: None, truncate_dim: None }
}

fn text(s: &str) -> MetadataValue {
    MetadataValue::String(s.to_owned())
}

fn eq(key: &str, value: &str) -> MetadataFilter {
    MetadataFilter::eq(key, text(value))
}

fn meta(pairs: &[(&str, MetadataValue)]) -> Metadata {
    let mut m = Metadata::new();
    for (key, value) in pairs {
        m.insert((*key).to_owned(), value.duplicate());
    }
    m
}

fn sparse(pairs: &[(&str, f32)]) -> SparseVector {
    let mut s = SparseVector::new();
    for (term, weight) in pairs {
        s.insert((*term).to_owned(), weight.to_bits());
    }
    s
}

fn has_text(m: &Metadata, key: &str, want: &str) -> bool {
    match m.get(key) {
        Some(MetadataValue::String(s)) => s == want,
        _ => false,
    }
}

fn has_integer(m: &Metadata, key: &str, want: i64) -> bool {
    match m.get(key) {
        Some(MetadataValue::Integer(n)) => *n == want,
        _ => false,
    }
}

fn plain(id: &str, vector: &[f32], expires_at: Option<f64>) -> Record {
    Record {
        namespace: String::new(),
        id: id.to_owned(),
        vector: bits(vector),
        vectors: NamedVectors::new(),
        sparse: SparseVector::new(),
        metadata: Metadata::new(),
        multi_vectors: MultiVectors::new(),
        expires_at: expires_at.map(|t| t.to_bits()),
    }
}

fn ids(results: &[SearchResult]) -> Vec<&str> {
    results.iter().map(|r| r.id.as_str()).collect()
}

fn single(pattern: u32) -> f32 {
    f32::from_bits(pattern)
}

#[test]
fn roundtrip_persists_records() {
    let metadata = meta(&[("source", text("blog"))]);
    let mut database = Db::create(3).expect("create database");
    database.insert("doc1", vec![1.0, 0.0, 0.0], metadata.duplicate()).expect("insert record");

    let reopened = Db::open(&database.disk).expect("reopen database");
    assert_eq!(reopened.inner.dimension(), 3);
    assert_eq!(reopened.inner.len(), 1);

    let record = reopened.get("doc1").expect("record exists");
    assert_eq!(record.namespace, "");
    assert_eq!(record.id, "doc1");
    assert_eq!(floats(&record.vector), vec![1.0, 0.0, 0.0]);
    assert!(record.sparse.is_empty());
    assert_eq!(record.metadata.len(), 1);
    assert!(has_text(&record.metadata, "source", "blog"));
}

#[test]
fn search_orders_by_similarity_and_filters_metadata() {
    let mut database = Db::create(2).expect("create database");
    let docs = meta(&[("source", text("notes")), ("title", text("auth flow"))]);
    let blog = meta(&[("source", text("blog")), ("title", text("shipping"))]);
    database.insert("doc1", vec![1.0, 0.0], docs).expect("insert doc1");
    database.insert("doc2", vec![0.8, 0.2], blog).expect("insert doc2");
    database.insert("doc3", vec![0.0, 1.0], Metadata::new()).expect("insert doc3");

    let results = database
        .search(
            &[1.0, 0.0],
            SearchOptions {
                top_k: 5,
                filter: Some(MetadataFilter::and(vec![
                    eq("source", "notes"),
                    MetadataFilter::contains("title", "auth"),
                ])),
                truncate_dim: None,
            },
        )
        .expect("search database");

    assert_eq!(results.len(), 1);
    assert_eq!(results[0].id, "doc1");
    assert!(single(results[0].score) > 0.99);
}

#[test]
fn delete_removes_records_from_disk() {
    let mut database = Db::create(2).expect("create database");
    database.insert("doc1", vec![1.0, 0.0], Metadata::new()).expect("insert record");
    database.delete("doc1").expect("delete record");

    let reopened = Db::open(&database.disk).expect("reopen database");
    assert!(reopened.get("doc1").is_none());
    assert_eq!(reopened.inner.len(), 0);
}

#[test]
fn batch_upsert_persists_records_in_one_call() {
    let mut database = Db::create(2).expect("create database");
    let change = database.inner.upsert_many(vec![
        plain("doc1", &[1.0, 0.0], None),
        plain("doc2", &[0.0, 1.0], None),
    ]);
    let inserted = database.write(change).expect("batch upsert");
    assert_eq!(inserted, 2);

    let reopened = Db::open(&database.disk).expect("reopen database");
    assert_eq!(reopened.inner.len(), 2);
}

#[test]
fn extended_filters_match_expected_records() {
    let mut database = Db::create(2).expect("create database");
    let metadata = meta(&[("source", text("blog")), ("priority", MetadataValue::Integer(10))]);
    database.insert("doc1", vec![1.0, 0.0], metadata).expect("insert record");

    let results = database
        .search(
            &[1.0, 0.0],
            SearchOptions {
                top_k: 10,
                filter: Some(MetadataFilter::and(vec![
                    MetadataFilter::ne("source", text("notes")),
                    MetadataFilter::gte("priority", 10.0_f64.to_bits()),
                    MetadataFilter::lte("priority", 10.0_f64.to_bits()),
                ])),
                truncate_dim: None,
            },
        )
        .expect("search database");

    assert_eq!(results.len(), 1);
    assert_eq!(results[0].namespace, "");
    assert_eq!(results[0].id, "doc1");
    assert!(single(results[0].dense_score) > 0.99);
    assert_eq!(single(results[0].sparse_score), 0.0);
}

#[test]
fn namespaces_isolate_same_ids() {
    let mut database = Db::create(2).expect("create database");
    database
        .insert_in_namespace("docs", "doc1", vec![1.0, 0.0], Metadata::new())
        .expect("insert docs");
    database
        .insert_in_namespace("notes", "doc1", vec![0.0, 1.0], Metadata::new())
        .expect("insert notes");

    let now = database.clock();
    assert!(database.inner.get_in_namespace("docs", "doc1", now).is_some());
    assert!(database.inner.get_in_namespace("notes", "doc1", now).is_some());
    assert!(database.get("doc1").is_none());

    let docs = database
        .search_in(Some("docs"), &[1.0, 0.0], SearchOptions::default())
        .expect("search docs");
    let all =
        database.search_in(None, &[1.0, 0.0], SearchOptions::default()).expect("search all");

    assert_eq!(docs.len(), 1);
    assert_eq!(docs[0].namespace, "docs");
    assert_eq!(all.len(), 2);
    assert_eq!(database.inner.namespaces(), vec!["docs".to_owned(), "notes".to_owned()]);
}

#[test]
fn hybrid_search_combines_dense_and_sparse_scores() {
    let mut database = Db::create(2).expect("create database");
    database
        .upsert_with_sparse("docs", "doc1", vec![1.0, 0.0], sparse(&[("auth", 1.0), ("sso", 0.5)]))
        .expect("insert doc1");
    database
        .upsert_with_sparse("docs", "doc2", vec![1.0, 0.0], sparse(&[("billing", 1.0)]))
        .expect("insert doc2");

    let query = sparse(&[("auth", 1.0)]);
    let results = database
        .hybrid(Some("docs"), Some(&[1.0, 0.0]), Some(&query), HybridSearchOptions::default())
        .expect("hybrid search")
        .results;

    assert_eq!(results.len(), 2);
    assert_eq!(results[0].id, "doc1");
    assert!(single(results[0].sparse_score) > single(results[1].sparse_score));
    assert_eq!(results[0].matched_terms, vec!["auth".to_owned()]);
    assert!(results[0].bm25_term_scores.get("auth").is_some());
}

fn sparse_only() -> HybridSearchOptions {
    HybridSearchOptions {
        top_k: 10,
        dense_weight: 0.0_f32.to_bits(),
        ..HybridSearchOptions::default()
    }
}

#[test]
fn upsert_without_sparse_rebuilds_sparse_index() {
    let mut database = Db::create(2).expect("create database");
    database
        .upsert_with_sparse("docs", "doc1", vec![1.0, 0.0], sparse(&[("auth", 1.0)]))
        .expect("insert sparse doc");

    let query = sparse(&[("auth", 1.0)]);
    let initial = database
        .hybrid(Some("docs"), None, Some(&query), sparse_only())
        .expect("initial sparse search");
    assert_eq!(initial.stats.sparse_candidate_count, 1);

    database
        .upsert_in_namespace("docs", "doc1", vec![1.0, 0.0], Metadata::new())
        .expect("replace doc without sparse terms");

    let updated = database
        .hybrid(Some("docs"), None, Some(&query), sparse_only())
        .expect("sparse search after clearing sparse terms");
    assert_eq!(updated.stats.sparse_candidate_count, 0);
    assert!(updated.results.is_empty());
}

#[test]
fn named_vectors_roundtrip_and_search() {
    let mut database = Db::create(2).expect("create database");
    let mut one = NamedVectors::new();
    one.insert("title".to_owned(), bits(&[1.0, 0.0]));
    one.insert("body".to_owned(), bits(&[0.0, 1.0]));
    let mut two = NamedVectors::new();
    two.insert("title".to_owned(), bits(&[0.0, 1.0]));
    two.insert("body".to_owned(), bits(&[1.0, 0.0]));
    let change = database.inner.upsert_with_vectors_in_namespace(
        "docs",
        "doc1",
        bits(&[0.2, 0.8]),
        one,
        SparseVector::new(),
        Metadata::new(),
    );
    database.write(change).expect("insert doc1");
    let change = database.inner.upsert_with_vectors_in_namespace(
        "docs",
        "doc2",
        bits(&[0.8, 0.2]),
        two,
        SparseVector::new(),
        Metadata::new(),
    );
    database.write(change).expect("insert doc2");

    let reopened = Db::open(&database.disk).expect("reopen database");
    let record = reopened
        .inner
        .get_in_namespace("docs", "doc1", reopened.clock())
        .expect("expected stored record");
    assert_eq!(record.vectors.len(), 2);
    assert_eq!(record.vectors.get("title"), Some(&bits(&[1.0, 0.0])));

    let title = reopened
        .hybrid(
            Some("docs"),
            Some(&[1.0, 0.0]),
            None,
            HybridSearchOptions {
                top_k: 2,
                sparse_weight: 0.0_f32.to_bits(),
                vector_name: Some("title".to_owned()),
                ..HybridSearchOptions::default()
            },
        )
        .expect("search title vector")
        .results;
    let default = reopened
        .search_in(Some("docs"), &[1.0, 0.0], SearchOptions::default())
        .expect("search default vector");

    assert_eq!(ids(&title), vec!["doc1", "doc2"]);
    assert_eq!(ids(&default), vec!["doc2", "doc1"]);
}

#[test]
fn ann_index_is_built_for_larger_collections() {
    let mut database = Db::create(128).expect("create database");
    for i in 0..128 {
        let mut vector = vec![0.0_f32; 128];
        vector[i] = 1.0;
        database
            .insert_in_namespace("docs", &format!("doc{i}"), vector, Metadata::new())
            .expect("insert record");
    }

    assert!(database.inner.has_ann_index(None, None));
    assert!(database.inner.has_ann_index(Some("docs"), None));

    let mut query = vec![0.0_f32; 128];
    query[42] = 1.0;
    let outcome = database
        .hybrid(
            Some("docs"),
            Some(&query),
            None,
            HybridSearchOptions {
                top_k: 10,
                sparse_weight: 0.0_f32.to_bits(),
                ..HybridSearchOptions::default()
            },
        )
        .expect("search database");

    assert!(outcome.stats.used_ann);
    assert!(outcome.stats.ann_candidate_count >= 10);
    assert!(!outcome.stats.exact_fallback);
    assert_eq!(outcome.results.len(), 10);
    assert_eq!(outcome.results[0].id, "doc42");
}

#[test]
fn mmr_diversifies_near_duplicate_results() {
    let mut database = Db::create(2).expect("create database");
    database.insert("doc1", vec![1.0, 0.0], Metadata::new()).expect("insert doc1");
    database.insert("doc2", vec![0.99, 0.01], Metadata::new()).expect("insert doc2");
    database.insert("doc3", vec![0.7, 0.7], Metadata::new()).expect("insert doc3");

    let plain_results = database.search(&[1.0, 0.0], top(2)).expect("search database");
    let outcome = database
        .hybrid(
            Some(""),
            Some(&[1.0, 0.0]),
            None,
            HybridSearchOptions {
                top_k: 2,
                sparse_weight: 0.0_f32.to_bits(),
                fetch_k: 3,
                mmr_lambda: Some(0.3_f32.to_bits()),
                ..HybridSearchOptions::default()
            },
        )
        .expect("mmr search");

    assert_eq!(ids(&plain_results), vec!["doc1", "doc2"]);
    assert_eq!(ids(&outcome.results), vec!["doc1", "doc3"]);
    assert!(outcome.stats.mmr_applied);
    assert_eq!(outcome.stats.fetch_k, 3);
    assert_eq!(outcome.stats.considered_count, 3);
}

#[test]
fn closed_database_rejects_result_based_operations() {
    let mut database = Db::create(2).expect("create database");
    database.insert("doc1", vec![1.0, 0.0], Metadata::new()).expect("insert doc1");
    database.compact().expect("compact");
    database.inner.close();

    let search_err = match database.search(&[1.0, 0.0], top(1)) {
        Ok(_) => panic!("search on closed database should fail"),
        Err(e) => e,
    };
    assert!(matches!(
        search_err,
        VectLiteError::InvalidFormat(message) if message.contains("database is closed")
    ));

    let snapshot_err = match database.inner.snapshot() {
        Ok(_) => panic!("snapshot on closed database should fail"),
        Err(e) => e,
    };
    assert!(matches!(
        snapshot_err,
        VectLiteError::InvalidFormat(message) if message.contains("database is closed")
    ));
}

#[test]
fn scalar_quantization_enables_search_and_persists() {
    let dim = 32;
    let mut db = Db::create(dim).expect("create");
    for i in 0..50 {
        let mut v = vec![0.0_f32; dim];
        v[i % dim] = 1.0;
        v[(i + 1) % dim] = 0.5;
        db.upsert(&format!("doc{i}"), v, Metadata::new()).expect("upsert");
    }
    db.enable_quantization(QuantizationConfig::Scalar(ScalarQuantizationConfig {
        rescore_multiplier: 5,
    }))
    .expect("enable quant");
    assert!(db.inner.is_quantized());

    let mut query = vec![0.0_f32; dim];
    query[0] = 1.0;
    let results = db.search(&query, top(5)).expect("search");
    assert!(!results.is_empty());
    assert_eq!(results[0].id, "doc0");

    let db = Db::open(&db.disk).expect("reopen");
    assert!(db.inner.is_quantized());
    assert!(matches!(db.inner.quantization_config(), Some(QuantizationConfig::Scalar(_))));
    let results = db.search(&query, top(5)).expect("search after reopen");
    assert!(!results.is_empty());
    assert_eq!(results[0].id, "doc0");
}

#[test]
fn scalar_quantization_keeps_signed_cosine_neighbor_in_candidate_set() {
    let dim = 146;
    let mut query = vec![-1.0_f32; dim];
    for value in &mut query[..10] {
        *value = 1.0;
    }
    let mut db = Db::create(dim).expect("create");
    for i in 0..120 {
        db.upsert(&format!("high{i:03}"), vec![2.0_f32; dim], Metadata::new())
            .expect("upsert high distractor");
    }
    let mut low = vec![2.0_f32; dim];
    for value in &mut low[..10] {
        *value = -1.0;
    }
    db.upsert("calibration-low", low, Metadata::new()).expect("upsert calibration low");
    db.upsert("target", query.clone(), Metadata::new()).expect("upsert target");
    db.enable_quantization(QuantizationConfig::Scalar(ScalarQuantizationConfig {
        rescore_multiplier: 1,
    }))
    .expect("enable quant");

    let results = db.search(&query, top(1)).expect("search");
    assert_eq!(results[0].id, "target");
}

#[test]
fn binary_quantization_enables_search() {
    let dim = 64;
    let mut db = Db::create(dim).expect("create");
    for i in 0..100 {
        let v: Vec<f32> =
            (0..dim).map(|j| if (i + j) % 3 == 0 { 1.0 } else { -1.0 }).collect();
        db.upsert(&format!("doc{i}"), v, Metadata::new()).expect("upsert");
    }
    db.enable_quantization(QuantizationConfig::Binary(BinaryQuantizationConfig {
        rescore_multiplier: 10,
    }))
    .expect("enable quant");
    assert!(db.inner.is_quantized());

    let query: Vec<f32> = (0..dim).map(|j| if j % 3 == 0 { 1.0 } else { -1.0 }).collect();
    let results = db.search(&query, top(5)).expect("search");
    assert!(!results.is_empty());
    assert_eq!(results[0].id, "doc0");
}

#[test]
fn product_quantization_enables_search() {
    let dim = 32;
    let mut db = Db::create(dim).expect("create");
    for i in 0..100 {
        let v: Vec<f32> =
            (0..dim).map(|j| ((i * 7 + j * 13) % 100) as f32 / 100.0).collect();
        db.upsert(&format!("doc{i}"), v, Metadata::new()).expect("upsert");
    }
    db.enable_quantization(QuantizationConfig::Product(ProductQuantizationConfig {
        num_sub_vectors: 4,
        num_centroids: 16,
        training_iterations: 5,
        rescore_multiplier: 10,
    }))
    .expect("enable quant");
    assert!(db.inner.is_quantized());

    let query: Vec<f32> = (0..dim).map(|j| (j * 13 % 100) as f32 / 100.0).collect();
    let results = db.search(&query, top(5)).expect("search");
    assert!(!results.is_empty());
    assert_eq!(results[0].id, "doc0");
}

#[test]
fn disable_quantization_removes_sidecar() {
    let dim = 8;
    let mut db = Db::create(dim).expect("create");
    for i in 0..10 {
        let v: Vec<f32> = (0..dim).map(|j| (i + j) as f32).collect();
        db.upsert(&format!("doc{i}"), v, Metadata::new()).expect("upsert");
    }
    db.enable_quantization(QuantizationConfig::Scalar(ScalarQuantizationConfig::default()))
        .expect("enable");
    assert!(db.inner.is_quantized());
    assert!(db.disk.quant.is_some());

    db.disable_quantization().expect("disable");
    assert!(!db.inner.is_quantized());
    assert!(db.disk.quant.is_none());
}

#[test]
fn quantization_empty_database_returns_error() {
    let mut db = Db::create(4).expect("create");
    let result = db.inner.enable_quantization(QuantizationConfig::Scalar(
        ScalarQuantizationConfig::default(),
    ));
    assert!(result.is_err());
    assert!(!db.inner.is_quantized());
}

#[test]
fn product_quantization_invalid_subvector_count_returns_error() {
    let mut db = Db::create(146).expect("create");
    for i in 0..4 {
        db.upsert(&format!("doc{i}"), vec![0.1_f32 + i as f32; 146], Metadata::new())
            .expect("upsert");
    }
    assert_eq!(db.inner.valid_num_sub_vectors(), vec![1, 2, 73, 146]);

    let result = db.inner.enable_quantization(QuantizationConfig::Product(
        ProductQuantizationConfig {
            num_sub_vectors: 16,
            num_centroids: 4,
            training_iterations: 1,
            rescore_multiplier: 1,
        },
    ));
    assert!(matches!(
        result,
        Err(VectLiteError::InvalidFormat(message))
            if message.contains("dimension (146) must be divisible by num_sub_vectors (16)")
    ));
    assert!(!db.inner.is_quantized());
}

#[test]
fn multi_vector_upsert_and_search() {
    let mut db = Db::create(3).expect("create");
    db.upsert_tokens(
        "",
        "doc1",
        vec![1.0, 0.0, 0.0],
        "colbert",
        vec![vec![1.0, 0.0, 0.0], vec![0.0, 1.0, 0.0]],
    )
    .expect("upsert doc1");
    db.upsert_tokens(
        "",
        "doc2",
        vec![0.0, 0.0, 1.0],
        "colbert",
        vec![vec![0.0, 0.0, 1.0], vec![0.0, 1.0, 0.0]],
    )
    .expect("upsert doc2");
    assert_eq!(db.inner.len(), 2);

    let query = vec![vec![1.0, 0.0, 0.0], vec![0.0, 1.0, 0.0]];
    let results = db
        .search_tokens("colbert", &query, MultiVectorSearchOptions::default())
        .expect("search");
    assert_eq!(results.len(), 2);
    assert_eq!(results[0].id, "doc1");
}

#[test]
fn multi_vector_empty_space_error() {
    let db = Db::create(3).expect("create");
    let query = vec![vec![1.0, 0.0, 0.0]];
    assert!(db.search_tokens("", &query, MultiVectorSearchOptions::default()).is_err());
}

#[test]
fn multi_vector_empty_query_tokens_error() {
    let db = Db::create(3).expect("create");
    let query: Vec<Vec<f32>> = vec![];
    assert!(db.search_tokens("colbert", &query, MultiVectorSearchOptions::default()).is_err());
}

#[test]
fn multi_vector_search_with_namespace_filter() {
    let mut db = Db::create(3).expect("create");
    let tokens = vec![vec![1.0, 0.0, 0.0]];
    db.upsert_tokens("ns1", "doc1", vec![1.0, 0.0, 0.0], "colbert", tokens.clone())
        .expect("upsert ns1");
    db.upsert_tokens("ns2", "doc2", vec![0.0, 1.0, 0.0], "colbert", tokens)
        .expect("upsert ns2");

    let options = MultiVectorSearchOptions {
        top_k: 10,
        filter: None,
        namespace: Some("ns1".to_owned()),
    };
    let results =
        db.search_tokens("colbert", &[vec![1.0, 0.0, 0.0]], options).expect("search");
    assert_eq!(results.len(), 1);
    assert_eq!(results[0].id, "doc1");
    assert_eq!(results[0].namespace, "ns1");
}

#[test]
fn multi_vector_quantization_enable_disable() {
    let mut db = Db::create(3).expect("create");
    for i in 0..10 {
        let x = i as f32;
        db.upsert_tokens(
            "",
            &format!("doc{i}"),
            vec![x, 0.0, 0.0],
            "colbert",
            vec![vec![x, 0.0, 0.0], vec![0.0, x, 0.0], vec![0.0, 0.0, x]],
        )
        .expect("upsert");
    }
    assert!(!db.inner.is_multi_vector_quantized("colbert"));

    db.enable_token_quantization(
        "colbert",
        MultiVectorQuantizationConfig::TwoBit(TwoBitQuantizationConfig { rescore_multiplier: 4 }),
    )
    .expect("enable");
    assert!(db.inner.is_multi_vector_quantized("colbert"));

    let query = vec![vec![9.0, 0.0, 0.0], vec![0.0, 9.0, 0.0]];
    let results = db
        .search_tokens("colbert", &query, MultiVectorSearchOptions::default())
        .expect("search");
    assert!(!results.is_empty());

    db.inner.disable_multi_vector_quantization("colbert").expect("disable");
    assert!(!db.inner.is_multi_vector_quantized("colbert"));
}

#[test]
fn multi_vector_quantization_persists_across_reopen() {
    let mut db = Db::create(3).expect("create");
    for i in 0..10 {
        let x = i as f32 * 0.1;
        db.upsert_tokens(
            "",
            &format!("doc{i}"),
            vec![1.0, 0.0, 0.0],
            "colbert",
            vec![vec![x, 0.5, 0.5], vec![0.5, x, 0.5]],
        )
        .expect("upsert");
    }
    db.enable_token_quantization(
        "colbert",
        MultiVectorQuantizationConfig::TwoBit(TwoBitQuantizationConfig { rescore_multiplier: 4 }),
    )
    .expect("enable");
    assert!(db.inner.is_multi_vector_quantized("colbert"));

    let db = Db::open(&db.disk).expect("reopen");
    assert!(db.inner.is_multi_vector_quantized("colbert"));
    let results = db
        .search_tokens("colbert", &[vec![0.9, 0.5, 0.5]], MultiVectorSearchOptions::default())
        .expect("search");
    assert!(!results.is_empty());
}

#[test]
fn multi_vector_record_persists_across_reopen() {
    let mut db = Db::create(3).expect("create");
    db.upsert_tokens(
        "",
        "doc1",
        vec![1.0, 0.0, 0.0],
        "colbert",
        vec![vec![1.0, 2.0, 3.0], vec![4.0, 5.0, 6.0]],
    )
    .expect("upsert");

    let db = Db::open(&db.disk).expect("reopen");
    let record = db.get("doc1").expect("exists");
    let tokens = record.multi_vectors.get("colbert").expect("colbert space");
    assert_eq!(tokens.len(), 2);
    assert_eq!(floats(&tokens[0]), vec![1.0, 2.0, 3.0]);
    assert_eq!(floats(&tokens[1]), vec![4.0, 5.0, 6.0]);
}

const METRICS: [DistanceMetric; 4] = [
    DistanceMetric::Cosine,
    DistanceMetric::Euclidean,
    DistanceMetric::DotProduct,
    DistanceMetric::Manhattan,
];

#[test]
fn distance_metric_tag_roundtrip() {
    for metric in METRICS {
        let tag = metric.to_tag();
        let back = DistanceMetric::from_tag(tag).expect("valid tag");
        assert_eq!(back, metric);
    }
    assert!(DistanceMetric::from_tag(255).is_err());
}

#[test]
fn distance_metric_name_roundtrip() {
    for metric in METRICS {
        let back = DistanceMetric::from_name(metric.name()).expect("valid name");
        assert_eq!(back, metric);
    }
}

fn named(name: &str) -> DistanceMetric {
    DistanceMetric::from_name(name).expect("a known name")
}

#[test]
fn distance_metric_name_aliases() {
    assert_eq!(named("l2"), DistanceMetric::Euclidean);
    assert_eq!(named("L2"), DistanceMetric::Euclidean);
    assert_eq!(named("EUCLIDEAN"), DistanceMetric::Euclidean);
    assert_eq!(named("dot"), DistanceMetric::DotProduct);
    assert_eq!(named("dot_product"), DistanceMetric::DotProduct);
    assert_eq!(named("ip"), DistanceMetric::DotProduct);
    assert_eq!(named("inner_product"), DistanceMetric::DotProduct);
    assert_eq!(named("l1"), DistanceMetric::Manhattan);
    assert_eq!(named("L1"), DistanceMetric::Manhattan);
    assert!(DistanceMetric::from_name("hamming").is_err());
}

#[test]
fn distance_metric_is_similarity() {
    assert!(DistanceMetric::Cosine.is_similarity());
    assert!(DistanceMetric::DotProduct.is_similarity());
    assert!(!DistanceMetric::Euclidean.is_similarity());
    assert!(!DistanceMetric::Manhattan.is_similarity());
}

#[test]
fn distance_metric_default_is_cosine() {
    assert_eq!(DistanceMetric::default(), DistanceMetric::Cosine);
}

#[test]
fn distance_metric_display() {
    assert_eq!(DistanceMetric::Cosine.name(), "cosine");
    assert_eq!(DistanceMetric::Euclidean.name(), "euclidean");
    assert_eq!(DistanceMetric::DotProduct.name(), "dotproduct");
    assert_eq!(DistanceMetric::Manhattan.name(), "manhattan");
}

#[test]
fn create_with_metric_persists_metric() {
    for metric in METRICS {
        let db = Db::create_with_metric(4, metric).expect("create");
        assert_eq!(db.inner.metric(), metric);
        let db = Db::open(&db.disk).expect("reopen");
        assert_eq!(db.inner.metric(), metric);
    }
}

#[test]
fn default_create_uses_cosine_metric() {
    let db = Database::create(4).expect("create");
    assert_eq!(db.metric(), DistanceMetric::Cosine);
}

#[test]
fn open_or_create_with_metric_creates_new() {
    let db = Db::create_with_metric(4, DistanceMetric::Euclidean).expect("open_or_create");
    assert_eq!(db.inner.metric(), DistanceMetric::Euclidean);
    let db2 = Db::open(&db.disk).expect("reopen");
    assert!(db2.inner.check_dimension(4).is_ok());
    assert_eq!(db2.inner.metric(), DistanceMetric::Euclidean);
}

fn ordered(metric: DistanceMetric, rows: &[(&str, [f32; 3])], query: [f32; 3]) -> Vec<SearchResult> {
    let mut db = Db::create_with_metric(3, metric).expect("create");
    for (id, v) in rows {
        db.insert(id, v.to_vec(), Metadata::new()).expect("insert");
    }
    db.search(&query, top(3)).expect("search")
}

#[test]
fn search_with_euclidean_metric() {
    let results = ordered(
        DistanceMetric::Euclidean,
        &[("close", [1.0, 0.0, 0.0]), ("mid", [3.0, 0.0, 0.0]), ("far", [5.0, 5.0, 5.0])],
        [0.0, 0.0, 0.0],
    );
    assert_eq!(results.len(), 3);
    assert_eq!(ids(&results), vec!["close", "mid", "far"]);
    assert!(single(results[0].score) > single(results[1].score));
    assert!(single(results[1].score) > single(results[2].score));
}

#[test]
fn search_with_dotproduct_metric() {
    let results = ordered(
        DistanceMetric::DotProduct,
        &[("high", [10.0, 0.0, 0.0]), ("medium", [5.0, 0.0, 0.0]), ("low", [0.0, 1.0, 0.0])],
        [1.0, 0.0, 0.0],
    );
    assert_eq!(results.len(), 3);
    assert_eq!(ids(&results), vec!["high", "medium", "low"]);
    assert!(single(results[0].score) > single(results[1].score));
    assert!(single(results[1].score) > single(results[2].score));
}

#[test]
fn search_with_manhattan_metric() {
    let results = ordered(
        DistanceMetric::Manhattan,
        &[("close", [1.0, 0.0, 0.0]), ("mid", [2.0, 1.0, 0.0]), ("far", [3.0, 3.0, 3.0])],
        [0.0, 0.0, 0.0],
    );
    assert_eq!(results.len(), 3);
    assert_eq!(ids(&results), vec!["close", "mid", "far"]);
    assert!(single(results[0].score) > single(results[1].score));
    assert!(single(results[1].score) > single(results[2].score));
}

#[test]
fn matryoshka_prefix_search_accepts_short_query() {
    let mut db = Db::create(4).expect("create");
    db.insert("prefix_match", vec![1.0, 0.0, -1.0, -1.0], Metadata::new()).expect("insert prefix");
    db.insert("full_match", vec![0.0, 1.0, 1.0, 1.0], Metadata::new()).expect("insert full");

    let outcome = db
        .hybrid(
            Some(""),
            Some(&[1.0, 0.0]),
            None,
            HybridSearchOptions {
                top_k: 2,
                truncate_dim: Some(2),
                ..HybridSearchOptions::default()
            },
        )
        .expect("search");
    assert_eq!(outcome.results[0].id, "prefix_match");
    assert_eq!(outcome.stats.effective_dimension, 2);
    assert!(outcome.stats.matryoshka_truncated);
    assert!(!outcome.stats.used_ann);
}

#[test]
fn matryoshka_prefix_search_can_truncate_full_query() {
    let mut db = Db::create(4).expect("create");
    db.insert("prefix_match", vec![1.0, 0.0, -1.0, -1.0], Metadata::new()).expect("insert prefix");
    db.insert("tail_match", vec![0.0, 1.0, 1.0, 1.0], Metadata::new()).expect("insert tail");

    let outcome = db
        .hybrid(
            Some(""),
            Some(&[1.0, 0.0, 1.0, 1.0]),
            None,
            HybridSearchOptions {
                top_k: 2,
                truncate_dim: Some(2),
                ..HybridSearchOptions::default()
            },
        )
        .expect("search");
    assert_eq!(outcome.results[0].id, "prefix_match");
    assert_eq!(outcome.stats.effective_dimension, 2);
    assert!(outcome.stats.matryoshka_truncated);
}

#[test]
fn search_with_cosine_metric_explicit() {
    let results = ordered(
        DistanceMetric::Cosine,
        &[
            ("aligned", [2.0, 0.0, 0.0]),
            ("diagonal", [1.0, 1.0, 0.0]),
            ("orthogonal", [0.0, 0.0, 1.0]),
        ],
        [1.0, 0.0, 0.0],
    );
    assert_eq!(results.len(), 3);
    assert_eq!(ids(&results), vec!["aligned", "diagonal", "orthogonal"]);
    assert!((single(results[0].score) - 1.0).abs() < 1e-4);
}

#[test]
fn metric_persists_with_upsert_and_search_cycle() {
    let mut db = Db::create_with_metric(3, DistanceMetric::Manhattan).expect("create");
    db.upsert("a", vec![1.0, 0.0, 0.0], Metadata::new()).expect("upsert a");
    db.upsert("b", vec![0.0, 5.0, 0.0], Metadata::new()).expect("upsert b");

    let db = Db::open(&db.disk).expect("reopen");
    assert_eq!(db.inner.metric(), DistanceMetric::Manhattan);
    let results = db.search(&[1.0, 0.0, 0.0], top(2)).expect("search");
    assert_eq!(ids(&results), vec!["a", "b"]);
    assert!(single(results[0].score) > single(results[1].score));
}

#[test]
fn update_metadata_merges_patch() {
    let mut db = Db::create(3).expect("create");
    let m = meta(&[("source", text("blog")), ("version", MetadataValue::Integer(1))]);
    db.upsert("doc1", vec![1.0, 0.0, 0.0], m).expect("upsert");

    let patch = meta(&[
        ("version", MetadataValue::Integer(2)),
        ("reviewed", MetadataValue::Boolean(true)),
    ]);
    assert!(db.update_metadata("doc1", patch).expect("update"));

    let record = db.get("doc1").expect("found");
    assert!(has_text(&record.metadata, "source", "blog"));
    assert!(has_integer(&record.metadata, "version", 2));
    assert!(matches!(record.metadata.get("reviewed"), Some(MetadataValue::Boolean(true))));
}

#[test]
fn update_metadata_returns_false_for_missing_record() {
    let mut db = Db::create(3).expect("create");
    let updated =
        db.update_metadata("nonexistent", meta(&[("key", text("value"))])).expect("update");
    assert!(!updated);
}

#[test]
fn update_metadata_does_not_touch_vector() {
    let mut db = Db::create(3).expect("create");
    db.upsert("doc1", vec![1.0, 2.0, 3.0], meta(&[("source", text("blog"))])).expect("upsert");
    db.update_metadata("doc1", meta(&[("source", text("updated"))])).expect("update");
    let record = db.get("doc1").expect("found");
    assert_eq!(floats(&record.vector), vec![1.0, 2.0, 3.0]);
}

#[test]
fn update_metadata_persists_across_reopen() {
    let mut db = Db::create(3).expect("create");
    db.upsert("doc1", vec![1.0, 0.0, 0.0], meta(&[("source", text("blog"))])).expect("upsert");
    let patch = meta(&[("source", text("updated")), ("new_key", MetadataValue::Integer(42))]);
    db.update_metadata("doc1", patch).expect("update");

    let db = Db::open(&db.disk).expect("reopen");
    let record = db.get("doc1").expect("found");
    assert!(has_text(&record.metadata, "source", "updated"));
    assert!(has_integer(&record.metadata, "new_key", 42));
    assert_eq!(floats(&record.vector), vec![1.0, 0.0, 0.0]);
}

#[test]
fn update_metadata_in_namespace() {
    let mut db = Db::create(3).expect("create");
    db.upsert_in_namespace("ns1", "doc1", vec![1.0, 0.0, 0.0], meta(&[("key", text("original"))]))
        .expect("upsert");
    let change =
        db.inner.update_metadata_in_namespace("ns1", "doc1", meta(&[("key", text("patched"))]));
    assert_eq!(db.write(change).expect("update"), 1);

    let record = db.inner.get_in_namespace("ns1", "doc1", db.clock()).expect("found");
    assert!(has_text(&record.metadata, "key", "patched"));

    let change =
        db.inner.update_metadata_in_namespace("ns2", "doc1", meta(&[("key", text("nope"))]));
    assert_eq!(db.write(change).expect("update wrong ns"), 0);
}

#[test]
fn update_metadata_searchable_after_patch() {
    let mut db = Db::create(3).expect("create");
    db.upsert("doc1", vec![1.0, 0.0, 0.0], meta(&[("status", text("draft"))])).expect("upsert");
    assert_eq!(db.count(None, Some(&eq("status", "draft"))), 1);

    db.update_metadata("doc1", meta(&[("status", text("published"))])).expect("update");
    assert_eq!(db.count(None, Some(&eq("status", "draft"))), 0);
    assert_eq!(db.count(None, Some(&eq("status", "published"))), 1);
}

#[test]
fn update_metadata_read_only_fails() {
    let mut db = Db::create(3).expect("create");
    db.upsert("doc1", vec![1.0, 0.0, 0.0], Metadata::new()).expect("upsert");

    let mut db = Db::open_read_only(&db.disk).expect("open ro");
    let result = db.update_metadata("doc1", meta(&[("key", text("val"))]));
    assert!(matches!(result, Err(VectLiteError::ReadOnly)));
}

#[test]
fn create_keyword_index_returns_true_on_first_call() {
    let mut db = Db::create(3).expect("create");
    assert!(db.create_index("source", PayloadIndexType::Keyword).expect("create_index"));
    let indexes = db.inner.list_indexes();
    assert_eq!(indexes.len(), 1);
    assert_eq!(indexes[0].0, "source");
    assert!(matches!(indexes[0].1, PayloadIndexType::Keyword));
}

#[test]
fn create_index_returns_false_on_duplicate() {
    let mut db = Db::create(3).expect("create");
    assert!(db.create_index("source", PayloadIndexType::Keyword).expect("first"));
    assert!(!db.create_index("source", PayloadIndexType::Keyword).expect("second"));
    assert_eq!(db.inner.list_indexes().len(), 1);
}

#[test]
fn create_numeric_index() {
    let mut db = Db::create(3).expect("create");
    assert!(db.create_index("price", PayloadIndexType::Numeric).expect("create"));
    let indexes = db.inner.list_indexes();
    assert_eq!(indexes.len(), 1);
    assert!(matches!(indexes[0].1, PayloadIndexType::Numeric));
}

#[test]
fn drop_index_returns_true_and_removes() {
    let mut db = Db::create(3).expect("create");
    db.create_index("source", PayloadIndexType::Keyword).expect("create");
    assert_eq!(db.inner.list_indexes().len(), 1);
    assert!(db.drop_index("source").expect("drop"));
    assert_eq!(db.inner.list_indexes().len(), 0);
}

#[test]
fn drop_index_returns_false_for_nonexistent() {
    let mut db = Db::create(3).expect("create");
    assert!(!db.drop_index("nope").expect("drop"));
}

#[test]
fn list_indexes_empty_by_default() {
    let db = Db::create(3).expect("create");
    assert!(db.inner.list_indexes().is_empty());
}

/// A database of `n` records whose metadata is made from their numbers.
fn filled(n: usize, make: impl Fn(usize) -> Metadata) -> Db {
    let mut db = Db::create(3).expect("create");
    for i in 0..n {
        db.upsert(&format!("doc{i}"), vec![1.0, 0.0, 0.0], make(i)).expect("upsert");
    }
    db
}

#[test]
fn keyword_index_accelerates_eq_count() {
    let mut db = filled(50, |i| {
        meta(&[
            ("source", text(&format!("cat{}", i % 5))),
            ("idx", MetadataValue::Integer(i as i64)),
        ])
    });
    db.create_index("source", PayloadIndexType::Keyword).expect("create");
    assert_eq!(db.count(None, Some(&eq("source", "cat0"))), 10);
    assert_eq!(db.count(None, Some(&eq("source", "cat3"))), 10);
    assert_eq!(db.count(None, Some(&eq("source", "cat99"))), 0);
}

#[test]
fn keyword_index_accelerates_in_filter() {
    let mut db = filled(20, |i| meta(&[("tag", text(&format!("t{}", i % 4)))]));
    db.create_index("tag", PayloadIndexType::Keyword).expect("create");
    let filter = MetadataFilter::is_in("tag", vec![text("t0"), text("t2")]);
    assert_eq!(db.count(None, Some(&filter)), 10);
}

fn number(x: f64) -> MetadataValue {
    MetadataValue::Float(x.to_bits())
}

#[test]
fn numeric_index_accelerates_range_queries() {
    let mut db = filled(100, |i| meta(&[("score", number(i as f64))]));
    db.create_index("score", PayloadIndexType::Numeric).expect("create");
    let ninety = 90.0_f64.to_bits();
    let ten = 10.0_f64.to_bits();
    assert_eq!(db.count(None, Some(&MetadataFilter::gt("score", ninety))), 9);
    assert_eq!(db.count(None, Some(&MetadataFilter::gte("score", ninety))), 10);
    assert_eq!(db.count(None, Some(&MetadataFilter::lt("score", ten))), 10);
    assert_eq!(db.count(None, Some(&MetadataFilter::lte("score", ten))), 11);
}

#[test]
fn numeric_index_eq_lookup() {
    let mut db = filled(20, |i| meta(&[("priority", number((i % 3) as f64))]));
    db.create_index("priority", PayloadIndexType::Numeric).expect("create");
    let filter = MetadataFilter::eq("priority", number(0.0));
    assert_eq!(db.count(None, Some(&filter)), 7);
}

#[test]
fn payload_index_persists_across_reopen() {
    let mut db = Db::create(3).expect("create");
    db.upsert("doc1", vec![1.0, 0.0, 0.0], meta(&[("source", text("blog"))])).expect("upsert");
    db.upsert("doc2", vec![0.0, 1.0, 0.0], meta(&[("source", text("docs"))])).expect("upsert");
    db.create_index("source", PayloadIndexType::Keyword).expect("create");

    let db = Db::open(&db.disk).expect("reopen");
    let indexes = db.inner.list_indexes();
    assert_eq!(indexes.len(), 1);
    assert_eq!(indexes[0].0, "source");
    assert_eq!(db.count(None, Some(&eq("source", "blog"))), 1);
}

#[test]
fn payload_index_incremental_upsert_adds_to_index() {
    let mut db = Db::create(3).expect("create");
    db.create_index("source", PayloadIndexType::Keyword).expect("create");
    db.upsert("doc1", vec![1.0, 0.0, 0.0], meta(&[("source", text("blog"))])).expect("upsert");
    assert_eq!(db.count(None, Some(&eq("source", "blog"))), 1);
    db.upsert("doc2", vec![0.0, 1.0, 0.0], meta(&[("source", text("blog"))])).expect("upsert");
    assert_eq!(db.count(None, Some(&eq("source", "blog"))), 2);
}

#[test]
fn payload_index_incremental_delete_removes_from_index() {
    let mut db = Db::create(3).expect("create");
    db.upsert("doc1", vec![1.0, 0.0, 0.0], meta(&[("source", text("blog"))])).expect("upsert");
    db.upsert("doc2", vec![0.0, 1.0, 0.0], meta(&[("source", text("blog"))])).expect("upsert");
    db.create_index("source", PayloadIndexType::Keyword).expect("create");
    assert_eq!(db.count(None, Some(&eq("source", "blog"))), 2);
    db.delete("doc1").expect("delete");
    assert_eq!(db.count(None, Some(&eq("source", "blog"))), 1);
}

#[test]
fn payload_index_incremental_upsert_replaces_old_value() {
    let mut db = Db::create(3).expect("create");
    let v = vec![1.0, 0.0, 0.0];
    db.upsert_in_namespace("", "doc1", v.clone(), meta(&[("source", text("blog"))]))
        .expect("upsert");
    db.create_index("source", PayloadIndexType::Keyword).expect("create");
    assert_eq!(db.count(None, Some(&eq("source", "blog"))), 1);

    db.upsert_in_namespace("", "doc1", v, meta(&[("source", text("docs"))]))
        .expect("upsert replace");
    assert_eq!(db.count(None, Some(&eq("source", "blog"))), 0);
    assert_eq!(db.count(None, Some(&eq("source", "docs"))), 1);
}

#[test]
fn payload_index_update_metadata_maintains_index() {
    let mut db = Db::create(3).expect("create");
    db.upsert("doc1", vec![1.0, 0.0, 0.0], meta(&[("status", text("draft"))])).expect("upsert");
    db.create_index("status", PayloadIndexType::Keyword).expect("create");
    assert_eq!(db.count(None, Some(&eq("status", "draft"))), 1);
    db.update_metadata("doc1", meta(&[("status", text("published"))])).expect("update");
    assert_eq!(db.count(None, Some(&eq("status", "draft"))), 0);
    assert_eq!(db.count(None, Some(&eq("status", "published"))), 1);
}

#[test]
fn payload_index_and_filter_intersection() {
    let mut db = filled(30, |i| {
        meta(&[
            ("source", text(if i % 2 == 0 { "blog" } else { "docs" })),
            ("priority", number((i % 3) as f64)),
        ])
    });
    db.create_index("source", PayloadIndexType::Keyword).expect("create source");
    db.create_index("priority", PayloadIndexType::Numeric).expect("create priority");
    let filter = MetadataFilter::and(vec![
        eq("source", "blog"),
        MetadataFilter::gt("priority", 1.0_f64.to_bits()),
    ]);
    assert_eq!(db.count(None, Some(&filter)), 5);
}

#[test]
fn payload_index_with_namespace_filtering() {
    let mut db = Db::create(3).expect("create");
    let m = || meta(&[("tag", text("rust"))]);
    db.upsert_in_namespace("ns1", "doc1", vec![1.0, 0.0, 0.0], m()).expect("upsert");
    db.upsert_in_namespace("ns2", "doc2", vec![0.0, 1.0, 0.0], m()).expect("upsert");
    db.create_index("tag", PayloadIndexType::Keyword).expect("create");
    assert_eq!(db.count(None, Some(&eq("tag", "rust"))), 2);
    assert_eq!(db.count(Some("ns1"), Some(&eq("tag", "rust"))), 1);
    assert_eq!(db.count(Some("ns2"), Some(&eq("tag", "rust"))), 1);
}

#[test]
fn create_index_read_only_fails() {
    let mut db = Db::create(3).expect("create");
    db.upsert("doc1", vec![1.0, 0.0, 0.0], Metadata::new()).expect("upsert");
    let mut db = Db::open_read_only(&db.disk).expect("open ro");
    assert!(db.create_index("source", PayloadIndexType::Keyword).is_err());
}

#[test]
fn drop_index_read_only_fails() {
    let mut db = Db::create(3).expect("create");
    db.create_index("source", PayloadIndexType::Keyword).expect("create");
    let mut db = Db::open_read_only(&db.disk).expect("open ro");
    assert!(db.drop_index("source").is_err());
}

#[test]
fn multiple_indexes_independent() {
    let mut db = Db::create(3).expect("create");
    db.create_index("source", PayloadIndexType::Keyword).expect("kw");
    db.create_index("score", PayloadIndexType::Numeric).expect("num");
    assert_eq!(db.inner.list_indexes().len(), 2);
    db.drop_index("source").expect("drop source");
    let indexes = db.inner.list_indexes();
    assert_eq!(indexes.len(), 1);
    assert_eq!(indexes[0].0, "score");
}

#[test]
fn payload_index_search_returns_correct_results() {
    let mut db = Db::create(3).expect("create");
    let category = |s: &str| meta(&[("category", text(s))]);
    db.upsert("doc1", vec![1.0, 0.0, 0.0], category("tech")).expect("upsert");
    db.upsert("doc2", vec![0.9, 0.1, 0.0], category("science")).expect("upsert");
    db.upsert("doc3", vec![0.8, 0.2, 0.0], category("tech")).expect("upsert");
    db.create_index("category", PayloadIndexType::Keyword).expect("create");

    let results = db
        .search(
            &[1.0, 0.0, 0.0],
            SearchOptions {
                top_k: 10,
                filter: Some(eq("category", "tech")),
                truncate_dim: None,
            },
        )
        .expect("search");
    assert_eq!(results.len(), 2);
    let found = ids(&results);
    assert!(found.contains(&"doc1"));
    assert!(found.contains(&"doc3"));
    assert!(!found.contains(&"doc2"));
}

#[test]
fn payload_index_list_uses_index() {
    let mut db =
        filled(20, |i| meta(&[("type", text(if i % 2 == 0 { "even" } else { "odd" }))]));
    db.create_index("type", PayloadIndexType::Keyword).expect("create");
    let filter = eq("type", "even");
    let records = db.list(Some(&filter));
    assert_eq!(records.len(), 10);
    for r in &records {
        assert!(has_text(&r.metadata, "type", "even"));
    }
}

#[test]
fn payload_index_rebuild_on_create_with_existing_data() {
    let mut db = filled(10, |i| meta(&[("color", text(if i < 4 { "red" } else { "blue" }))]));
    db.create_index("color", PayloadIndexType::Keyword).expect("create");
    assert_eq!(db.count(None, Some(&eq("color", "red"))), 4);
    assert_eq!(db.count(None, Some(&eq("color", "blue"))), 6);
}

#[test]
fn numeric_index_combined_range() {
    let mut db = filled(50, |i| meta(&[("val", number(i as f64))]));
    db.create_index("val", PayloadIndexType::Numeric).expect("create");
    let filter = MetadataFilter::and(vec![
        MetadataFilter::gte("val", 10.0_f64.to_bits()),
        MetadataFilter::lt("val", 20.0_f64.to_bits()),
    ]);
    assert_eq!(db.count(None, Some(&filter)), 10);
}

#[test]
fn payload_index_sidecar_cleaned_on_drop_last_index() {
    let mut db = Db::create(3).expect("create");
    db.create_index("source", PayloadIndexType::Keyword).expect("create");
    assert!(db.disk.defs.is_some());
    db.drop_index("source").expect("drop");
    let db2 = Db::open(&db.disk).expect("reopen");
    assert!(db2.inner.list_indexes().is_empty());
}

#[test]
fn set_ttl_hides_record_from_get() {
    let mut db = Db::create(3).expect("create");
    db.upsert("doc1", vec![1.0, 0.0, 0.0], Metadata::new()).expect("upsert");
    assert!(db.set_ttl("doc1", 0.0).expect("set_ttl"));
    db.now += 0.01;
    assert!(db.get("doc1").is_none());
}

#[test]
fn clear_ttl_makes_record_visible_again() {
    let mut db = Db::create(3).expect("create");
    db.upsert("doc1", vec![1.0, 0.0, 0.0], Metadata::new()).expect("upsert");
    db.set_ttl("doc1", 0.0).expect("set_ttl");
    db.now += 0.01;
    assert!(db.get("doc1").is_none());
    db.clear_ttl("doc1").expect("clear_ttl");
    assert!(db.get("doc1").is_some());
}

#[test]
fn expired_records_excluded_from_count_and_list() {
    let mut db = Db::create(3).expect("create");
    db.upsert("a", vec![1.0, 0.0, 0.0], Metadata::new()).expect("upsert a");
    db.upsert("b", vec![0.0, 1.0, 0.0], Metadata::new()).expect("upsert b");
    assert_eq!(db.count(None, None), 2);
    assert_eq!(db.list(None).len(), 2);

    db.set_ttl("a", 0.0).expect("set_ttl");
    db.now += 0.01;
    assert_eq!(db.count(None, None), 1);
    assert_eq!(db.list(None).len(), 1);
    assert_eq!(db.list(None)[0].id, "b");
}

#[test]
fn expired_records_excluded_from_search() {
    let mut db = Db::create(3).expect("create");
    db.upsert("a", vec![1.0, 0.0, 0.0], Metadata::new()).expect("upsert a");
    db.upsert("b", vec![0.0, 1.0, 0.0], Metadata::new()).expect("upsert b");
    db.set_ttl("a", 0.0).expect("set_ttl");
    db.now += 0.01;
    let results = db.search(&[1.0, 0.0, 0.0], SearchOptions::default()).expect("search");
    assert_eq!(results.len(), 1);
    assert_eq!(results[0].id, "b");
}

#[test]
fn ttl_persists_across_reopen() {
    let mut db = Db::create(3).expect("create");
    db.upsert("doc1", vec![1.0, 0.0, 0.0], Metadata::new()).expect("upsert");
    db.set_ttl("doc1", 0.0).expect("set_ttl");
    let db = Db::reopen(&db.disk, db.now + 0.01, false).expect("reopen");
    assert!(db.get("doc1").is_none());
    assert_eq!(db.count(None, None), 0);
}

#[test]
fn compact_removes_expired_records() {
    let mut db = Db::create(3).expect("create");
    db.upsert("a", vec![1.0, 0.0, 0.0], Metadata::new()).expect("upsert a");
    db.upsert("b", vec![0.0, 1.0, 0.0], Metadata::new()).expect("upsert b");
    db.set_ttl("a", 0.0).expect("set_ttl");
    db.now += 0.01;
    db.compact().expect("compact");
    assert_eq!(db.inner.len(), 1);
}

#[test]
fn set_ttl_on_nonexistent_record_returns_false() {
    let mut db = Db::create(3).expect("create");
    assert!(!db.set_ttl("ghost", 60.0).expect("set_ttl"));
    assert!(!db.clear_ttl("ghost").expect("clear_ttl"));
}

#[test]
fn upsert_with_expires_at() {
    let mut db = Db::create(3).expect("create");
    let now = db.now;
    let change = db.inner.upsert_many(vec![plain("doc1", &[1.0, 0.0, 0.0], Some(now - 1.0))]);
    db.write(change).expect("upsert");
    assert!(db.get("doc1").is_none());

    let change =
        db.inner.upsert_many(vec![plain("doc2", &[0.0, 1.0, 0.0], Some(now + 86400.0))]);
    db.write(change).expect("upsert");
    assert!(db.get("doc2").is_some());
}

#[test]
fn set_ttl_in_namespace() {
    let mut db = Db::create(3).expect("create");
    db.upsert_in_namespace("ns1", "doc1", vec![1.0, 0.0, 0.0], Metadata::new()).expect("upsert");
    assert!(db.set_ttl_in("ns1", "doc1", 0.0).expect("set"));
    db.now += 0.01;
    assert!(db.inner.get_in_namespace("ns1", "doc1", db.clock()).is_none());
    assert!(!db.set_ttl_in("ns2", "doc1", 60.0).expect("set wrong ns"));
}

#[test]
fn list_cursor_basic() {
    let mut db = Db::create(3).expect("create");
    for i in 0..5 {
        db.upsert(&format!("doc{i}"), vec![1.0, 0.0, 0.0], Metadata::new()).expect("upsert");
    }
    let now = db.clock();
    let (page1, cursor1) = db.inner.list_cursor(None, None, 2, None, now);
    assert_eq!(page1.len(), 2);
    assert!(cursor1.is_some());
    let (page2, cursor2) = db.inner.list_cursor(None, None, 2, cursor1.as_deref(), now);
    assert_eq!(page2.len(), 2);
    assert!(cursor2.is_some());
    let (page3, cursor3) = db.inner.list_cursor(None, None, 2, cursor2.as_deref(), now);
    assert_eq!(page3.len(), 1);
    assert!(cursor3.is_none());

    let mut all: Vec<String> = Vec::new();
    for r in page1.iter().chain(page2.iter()).chain(page3.iter()) {
        all.push(r.id.clone());
    }
    all.sort();
    all.dedup();
    assert_eq!(all.len(), 5);
}

#[test]
fn list_cursor_with_namespace() {
    let mut db = Db::create(3).expect("create");
    for i in 0..3 {
        db.upsert_in_namespace("ns1", &format!("doc{i}"), vec![1.0, 0.0, 0.0], Metadata::new())
            .expect("upsert");
    }
    for i in 0..2 {
        db.upsert_in_namespace("ns2", &format!("doc{i}"), vec![0.0, 1.0, 0.0], Metadata::new())
            .expect("upsert");
    }
    let now = db.clock();
    let (page1, cursor1) = db.inner.list_cursor(Some("ns1"), None, 2, None, now);
    assert_eq!(page1.len(), 2);
    assert!(cursor1.is_some());
    let (page2, cursor2) = db.inner.list_cursor(Some("ns1"), None, 2, cursor1.as_deref(), now);
    assert_eq!(page2.len(), 1);
    assert!(cursor2.is_none());
}

#[test]
fn list_cursor_excludes_expired() {
    let mut db = Db::create(3).expect("create");
    for i in 0..5 {
        db.upsert(&format!("doc{i}"), vec![1.0, 0.0, 0.0], Metadata::new()).expect("upsert");
    }
    db.set_ttl("doc1", 0.0).expect("set ttl");
    db.now += 0.01;

    let mut all: Vec<String> = Vec::new();
    let mut cursor: Option<String> = None;
    loop {
        let (page, next) = db.inner.list_cursor(None, None, 10, cursor.as_deref(), db.clock());
        all.extend(page.iter().map(|r| r.id.clone()));
        if next.is_none() {
            break;
        }
        cursor = next;
    }
    assert_eq!(all.len(), 4);
    assert!(!all.iter().any(|id| id == "doc1"));
}

#[test]
fn list_cursor_empty_database() {
    let db = Db::create(3).expect("create");
    let (page, cursor) = db.inner.list_cursor(None, None, 10, None, db.clock());
    assert!(page.is_empty());
    assert!(cursor.is_none());
}

fn one_record(dimension: usize, metric: DistanceMetric) -> Db {
    let mut db = Db::create_with_metric(dimension, metric).expect("create");
    let mut v = vec![0.0; dimension];
    v[0] = 1.0;
    db.insert("a", v, Metadata::new()).expect("insert");
    db
}

fn search_error(db: &Db, query: &[f32]) -> VectLiteError {
    match db.search(query, top(5)) {
        Ok(_) => panic!("the search should fail"),
        Err(e) => e,
    }
}

#[test]
fn search_zero_norm_query_cosine_rejected() {
    let db = one_record(3, DistanceMetric::Cosine);
    let error = search_error(&db, &[0.0, 0.0, 0.0]).message();
    assert!(error.contains("zero norm"));
}

#[test]
fn search_zero_norm_query_dotproduct_rejected() {
    let db = one_record(3, DistanceMetric::DotProduct);
    assert!(db.search(&[0.0, 0.0, 0.0], top(5)).is_err());
}

#[test]
fn search_zero_norm_query_euclidean_allowed() {
    let db = one_record(3, DistanceMetric::Euclidean);
    assert!(db.search(&[0.0, 0.0, 0.0], top(5)).is_ok());
}

#[test]
fn search_undersized_query_rejected() {
    let db = one_record(4, DistanceMetric::Cosine);
    match search_error(&db, &[1.0, 0.0]) {
        VectLiteError::DimensionMismatch { expected, found } => {
            assert_eq!(expected, 4);
            assert_eq!(found, 2);
        }
        other => panic!("expected DimensionMismatch, got: {}", other.message()),
    }
}

#[test]
fn search_oversized_query_rejected() {
    let db = one_record(3, DistanceMetric::Cosine);
    match search_error(&db, &[1.0, 0.0, 0.0, 0.0, 0.0]) {
        VectLiteError::DimensionMismatch { expected, found } => {
            assert_eq!(expected, 3);
            assert_eq!(found, 5);
        }
        other => panic!("expected DimensionMismatch, got: {}", other.message()),
    }
}

#[test]
fn search_undersized_query_with_truncate_dim_allowed() {
    let db = one_record(4, DistanceMetric::Cosine);
    let options = SearchOptions { top_k: 5, filter: None, truncate_dim: Some(2) };
    assert!(db.search(&[1.0, 0.0], options).is_ok());
}

#[test]
fn a_refused_insert_changes_nothing() {
    let mut db = Db::create(2).expect("create");
    db.insert("a", vec![1.0, 0.0], Metadata::new()).expect("insert");
    let before = db.disk.log.clone();
    assert!(matches!(
        db.insert("a", vec![0.0, 1.0], Metadata::new()),
        Err(VectLiteError::DuplicateId { namespace, id }) if namespace.is_empty() && id == "a"
    ));
    assert!(matches!(
        db.insert("b", vec![0.0], Metadata::new()),
        Err(VectLiteError::DimensionMismatch { expected: 2, found: 1 })
    ));
    assert_eq!(db.disk.log, before);
    assert_eq!(db.inner.len(), 1);
    assert_eq!(floats(&db.get("a").expect("kept").vector), vec![1.0, 0.0]);
}

#[test]
fn a_read_only_database_refuses_every_write() {
    let mut db = Db::create(2).expect("create");
    db.insert("a", vec![1.0, 0.0], Metadata::new()).expect("insert");
    let mut db = Db::open_read_only(&db.disk).expect("open");
    assert!(matches!(db.delete("a"), Err(VectLiteError::ReadOnly)));
    assert!(matches!(db.insert("b", vec![0.0, 1.0], Metadata::new()), Err(VectLiteError::ReadOnly)));
    assert!(matches!(db.inner.compact(0), Err(VectLiteError::ReadOnly)));
    assert!(db.get("a").is_some());
}

#[test]
fn compaction_is_invisible_but_for_expired_records() {
    let mut db = filled(40, |i| meta(&[("n", MetadataValue::Integer(i as i64))]));
    db.delete("doc7").expect("delete");
    db.set_ttl("doc9", 0.0).expect("set ttl");
    db.now += 1.0;
    let shown: Vec<String> = db.list(None).iter().map(|r| r.id.clone()).collect();
    db.compact().expect("compact");
    assert_eq!(db.inner.len(), 38);
    let after: Vec<String> = db.list(None).iter().map(|r| r.id.clone()).collect();
    assert_eq!(shown, after);
    let again = Db::reopen(&db.disk, db.now, false).expect("reopen");
    let reopened: Vec<String> = again.list(None).iter().map(|r| r.id.clone()).collect();
    assert_eq!(shown, reopened);
    assert_eq!(again.inner.wal_entries_replayed(), 0);
}

#[test]
fn a_torn_log_replays_its_whole_batches() {
    let mut db = Db::create(2).expect("create");
    db.insert("a", vec![1.0, 0.0], Metadata::new()).expect("insert a");
    let whole = db.disk.log.clone().expect("a log").len();
    db.insert("b", vec![0.0, 1.0], Metadata::new()).expect("insert b");
    let mut torn = db.disk.clone();
    if let Some(log) = torn.log.as_mut() {
        log.truncate(whole + 5);
    }
    let reopened = Db::open(&torn).expect("reopen");
    assert_eq!(reopened.inner.len(), 1);
    assert!(reopened.get("a").is_some());
    assert_eq!(reopened.inner.wal_entries_replayed(), 1);
}

#[test]
fn graphs_come_back_from_their_manifest() {
    let mut db = Db::create(2).expect("create");
    for i in 0..40 {
        db.insert(&format!("doc{i}"), vec![1.0, i as f32], Metadata::new()).expect("insert");
    }
    db.compact().expect("compact");
    let manifest = vectlite::manifest::write_ann_manifest(&db.inner.graph_entries())
        .expect("a manifest");
    let mut again = Database::open(&db.disk.file, None, None).expect("open");
    let plan = again.plan_graph_load(&manifest).expect("a usable manifest");
    assert!(!plan.is_empty());
    again.adopt_graphs(&plan);
    assert!(again.has_ann_index(None, None));
    assert!(again.plan_graph_load(&manifest[..manifest.len() - 1]).is_none());
}

#[test]
fn deleting_leaves_dead_nodes_until_compaction() {
    let mut db = filled(40, |_| Metadata::new());
    assert_eq!(db.inner.tombstone_stats().1, 0);
    db.delete("doc3").expect("delete");
    assert!(db.inner.tombstone_stats().1 > 0);
    db.compact().expect("compact");
    assert_eq!(db.inner.tombstone_stats().1, 0);
}

#[test]
fn bulk_ingest_takes_records_in_batches() {
    let mut db = Db::create(2).expect("create");
    db.inner.begin_bulk(Some(IndexConfig::fast())).expect("begin");
    let records: Vec<Record> =
        (0..10).map(|i| plain(&format!("doc{i}"), &[i as f32, 1.0], None)).collect();
    let (changes, refused) = db.inner.bulk_ingest(records, 4);
    assert!(refused.is_none());
    assert_eq!(changes.iter().map(|c| c.count()).collect::<Vec<_>>(), vec![4, 4, 2]);
    for change in changes {
        db.inner.append_unsynced(&change);
        db.inner.apply_chunk(change);
    }
    db.inner.log_synced();
    let effects = db.inner.reindex();
    db.apply(effects);
    assert_eq!(db.inner.len(), 10);

    let mixed = vec![plain("x", &[1.0, 2.0], None), plain("y", &[1.0], None)];
    let (changes, refused) = db.inner.bulk_ingest(mixed, 1);
    assert_eq!(changes.len(), 1);
    assert!(matches!(refused, Some(VectLiteError::DimensionMismatch { .. })));
}

#[test]
fn deletes_by_filter_and_by_list() {
    let mut db = filled(10, |i| meta(&[("even", MetadataValue::Boolean(i % 2 == 0))]));
    let filter = MetadataFilter::eq("even", MetadataValue::Boolean(true));
    let change = db.inner.delete_by_filter(None, &filter);
    assert_eq!(db.write(change).expect("delete by filter"), 5);
    let ids = vec!["doc1".to_owned(), "doc2".to_owned(), "doc3".to_owned()];
    let change = db.inner.delete_many(&ids);
    assert_eq!(db.write(change).expect("delete many"), 2);
    assert_eq!(db.inner.len(), 3);
}

#[test]
fn rrf_fusion_ranks_by_reciprocal_ranks() {
    let mut db = Db::create(2).expect("create");
    db.upsert_with_sparse("", "dense", vec![1.0, 0.0], sparse(&[("x", 1.0)])).expect("dense");
    db.upsert_with_sparse("", "both", vec![0.9, 0.1], sparse(&[("auth", 1.0)])).expect("both");
    let query = sparse(&[("auth", 1.0)]);
    let options = HybridSearchOptions {
        fusion: FusionStrategy::Rrf { rank_constant: 60 },
        ..HybridSearchOptions::default()
    };
    let outcome =
        db.hybrid(Some(""), Some(&[1.0, 0.0]), Some(&query), options).expect("search");
    assert_eq!(ids(&outcome.results), vec!["both", "dense"]);
    assert_eq!(outcome.results[0].dense_rank, Some(2));
    assert_eq!(outcome.results[0].sparse_rank, Some(1));
    assert_eq!(outcome.results[1].sparse_rank, None);
    assert_eq!(outcome.stats.fusion, "rrf");
    let want = 1.0_f32 / 62.0 + 1.0 / 61.0;
    assert!((single(outcome.results[0].score) - want).abs() < 1e-7);
}

#[test]
fn a_numeric_index_takes_both_zeros_for_one() {
    let mut db = filled(2, |i| meta(&[("v", number(if i == 0 { -0.0 } else { 0.0 }))]));
    db.create_index("v", PayloadIndexType::Numeric).expect("create");
    for zero in [0.0_f64, -0.0] {
        let at = zero.to_bits();
        assert_eq!(db.count(None, Some(&MetadataFilter::gte("v", at))), 2);
        assert_eq!(db.count(None, Some(&MetadataFilter::lte("v", at))), 2);
        assert_eq!(db.count(None, Some(&MetadataFilter::eq("v", number(zero)))), 2);
        assert_eq!(db.count(None, Some(&MetadataFilter::gt("v", at))), 0);
        assert_eq!(db.count(None, Some(&MetadataFilter::lt("v", at))), 0);
    }
    let mut one = filled(1, |_| meta(&[("v", number(-0.0))]));
    one.create_index("v", PayloadIndexType::Numeric).expect("create");
    assert_eq!(one.count(None, Some(&MetadataFilter::gte("v", 0.0_f64.to_bits()))), 1);
}

#[test]
fn indexes_change_no_count() {
    let make = |i: usize| {
        let inner = meta(&[("lang", text(if i % 2 == 0 { "en" } else { "fr" }))]);
        meta(&[
            ("doc", MetadataValue::Object(inner)),
            ("doc.kind", text("flat")),
            ("v", number(if i % 3 == 0 { -0.0 } else { i as f64 })),
        ])
    };
    let mut db = filled(9, make);
    let filters = [
        eq("doc.lang", "en"),
        eq("doc.kind", "flat"),
        MetadataFilter::is_in("doc.lang", vec![text("fr"), text("de")]),
        MetadataFilter::or(vec![eq("doc.lang", "fr"), MetadataFilter::gte("v", 0)]),
        MetadataFilter::or(vec![
            eq("doc.lang", "en"),
            MetadataFilter::eq("v", number(0.0)),
        ]),
    ];
    let plain: Vec<usize> = filters.iter().map(|f| db.count(Some(""), Some(f))).collect();
    assert_eq!(plain, vec![5, 9, 4, 9, 6]);
    let indexes = [
        ("doc.lang", PayloadIndexType::Keyword),
        ("v", PayloadIndexType::Numeric),
        ("doc.kind", PayloadIndexType::Keyword),
    ];
    for (field, kind) in indexes {
        db.create_index(field, kind).expect("create");
        let now: Vec<usize> = filters.iter().map(|f| db.count(Some(""), Some(f))).collect();
        assert_eq!(now, plain);
    }
    db.update_metadata("doc0", meta(&[("doc.lang", text("fr"))])).expect("update");
    assert_eq!(db.count(None, Some(&eq("doc.lang", "en"))), 4);
    assert_eq!(db.list(Some(&eq("doc.lang", "fr"))).len(), 5);
}

#[test]
fn quantization_stays_on_over_writes() {
    let mut db = filled(4, |_| Metadata::new());
    db.enable_quantization(QuantizationConfig::Scalar(ScalarQuantizationConfig {
        rescore_multiplier: 5,
    }))
    .expect("enable");
    let change = db.inner.upsert("new", bits(&[0.0, 1.0, 0.0]), Metadata::new()).expect("upsert");
    db.inner.decide_append(&change);
    db.inner.commit(change);
    assert!(db.inner.is_quantized());

    let mut db = Db::create(2).expect("create");
    for id in ["a", "b"] {
        db.upsert_tokens("", id, vec![1.0, 0.0], "colbert", vec![vec![0.5, 1.0]]).expect("upsert");
    }
    db.enable_token_quantization(
        "colbert",
        MultiVectorQuantizationConfig::TwoBit(TwoBitQuantizationConfig { rescore_multiplier: 4 }),
    )
    .expect("enable");
    let change = db.inner.delete("a").expect("delete");
    db.inner.decide_append(&change);
    db.inner.commit(change);
    assert!(db.inner.is_multi_vector_quantized("colbert"));
    assert!(!db.inner.is_multi_vector_quantized("other"));
}

#[test]
fn a_stricter_log_is_forced_at_once() {
    let mut db = Db::create(2).expect("create");
    db.inner.set_wal_sync_mode(WalSyncMode::EveryN(64)).expect("loosen");
    db.insert("a", vec![1.0, 0.0], Metadata::new()).expect("insert");
    assert!(matches!(db.inner.set_wal_sync_mode(WalSyncMode::EveryN(64)), Ok(false)));
    assert!(matches!(db.inner.set_wal_sync_mode(WalSyncMode::EveryN(128)), Ok(false)));
    assert!(matches!(db.inner.set_wal_sync_mode(WalSyncMode::EveryN(1)), Ok(true)));
    assert!(matches!(db.inner.set_wal_sync_mode(WalSyncMode::PerOp), Ok(true)));
    assert!(matches!(db.inner.set_wal_sync_mode(WalSyncMode::OnFlush), Ok(false)));
    assert!(matches!(db.inner.set_wal_sync_mode(WalSyncMode::EveryN(9)), Ok(true)));
}

#[test]
fn closing_forgets_indexes_and_settings() {
    let mut db = Db::create(2).expect("create");
    for id in ["a", "b"] {
        db.upsert_tokens("", id, vec![1.0, 0.0], "colbert", vec![vec![0.5, 1.0]]).expect("upsert");
    }
    db.create_index("v", PayloadIndexType::Numeric).expect("create");
    db.enable_token_quantization(
        "colbert",
        MultiVectorQuantizationConfig::TwoBit(TwoBitQuantizationConfig { rescore_multiplier: 4 }),
    )
    .expect("enable");
    assert!(matches!(
        db.inner.set_ef_search(Some(0)),
        Err(VectLiteError::InvalidFormat(m)) if m == "ef_search must be >= 1"
    ));
    assert!(db.inner.set_ef_search(Some(7)).is_ok());
    db.inner.close();
    assert!(db.inner.list_indexes().is_empty());
    assert!(!db.inner.is_multi_vector_quantized("colbert"));
    assert!(db.inner.token_index("colbert").is_none());
    assert!(!db.inner.is_quantized());
    assert_eq!(db.inner.len(), 0);
    for ef_search in [None, Some(0), Some(9)] {
        assert!(matches!(
            db.inner.set_ef_search(ef_search),
            Err(VectLiteError::InvalidFormat(m)) if m == "database is closed"
        ));
    }
    assert_eq!(db.inner.index_config().ef_search, Some(7));
}

#[test]
fn an_endless_time_to_live_is_refused() {
    let mut db = Db::create(2).expect("create");
    db.insert("a", vec![1.0, 0.0], Metadata::new()).expect("insert");
    for ttl in [f64::INFINITY, f64::NEG_INFINITY, f64::NAN, -1.0] {
        assert!(matches!(
            db.set_ttl("a", ttl),
            Err(VectLiteError::InvalidFormat(m))
                if m == "ttl_secs must be a non-negative finite number"
        ));
    }
    assert!(db.get("a").is_some());
    assert!(db.set_ttl("a", f64::MAX).expect("set_ttl"));
    assert!(db.get("a").is_some());
}
