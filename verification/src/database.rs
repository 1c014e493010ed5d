//! A database: its records, its indexes and what may be done with it.
use vstd::prelude::*;
use crate::ann::{catalog_valid, covers, AnnCatalog, Catalog};
use crate::arena::VectorArena;
use crate::config::{IndexConfig, WalSyncMode};
use crate::error::{invalid, Failure, VectLiteError};
use crate::filter::MetadataFilter;
use crate::metric::DistanceMetric;
use crate::order::{text_before, Duplicate, Key};
use crate::ordered_map::{map_of, OrderedMap};
use crate::payload_index::{opt_text, PayloadIndexType};
use crate::quantization::{MultiVectorQuantizationConfig, QuantizationConfig};
use crate::quantizers::QuantizedIndex;
use crate::record::{KeyModel, Record, RecordKey, RecordModel};
use crate::sparse_index::SparseIndex;
use crate::table::{
    cursor_key, following, key_cursor, models, opt_filter, page, page_size, selected,
    texts_ascending, Table,
};
use crate::token_index::MultiVectorQuantizedIndex;

verus! {

/// How a database was opened.
#[derive(Clone, Copy, Debug, PartialEq, Eq, Structural)]
pub struct Access {
    pub read_only: bool,
    /// Whether the lock of the database is held.
    pub locked: bool,
}

/// The state of the log.
#[derive(Clone, Copy, Debug, PartialEq, Eq, Structural)]
pub struct LogState {
    pub mode: WalSyncMode,
    /// How many changes were appended since the log was last forced to disk.
    pub pending: usize,
    /// How many changes were replayed from the log when the database was opened.
    pub replayed: usize,
}

/// What is known of the graphs on disk.
#[derive(Clone, Copy, Debug, PartialEq, Eq, Structural)]
pub struct GraphFlags {
    /// Whether the graphs came from disk.
    pub loaded: bool,
    /// Whether the graphs have changes that are not on disk.
    pub dirty: bool,
}

/// The quantized index over the main vectors.
pub struct QuantState {
    pub config: Option<QuantizationConfig>,
    pub index: Option<QuantizedIndex>,
    /// The key of each vector in the index.
    pub keys: Vec<(String, String)>,
    /// Whether the index is to be rebuilt at the next compaction.
    pub dirty: bool,
}

/// A quantized index over token vectors, with the key of each document.
pub struct TokenIndex {
    pub index: MultiVectorQuantizedIndex,
    pub keys: Vec<(String, String)>,
}

impl DeepView for TokenIndex {
    type V = TokenIndex;

    open spec fn deep_view(&self) -> TokenIndex {
        *self
    }
}

impl DeepView for MultiVectorQuantizationConfig {
    type V = MultiVectorQuantizationConfig;

    open spec fn deep_view(&self) -> MultiVectorQuantizationConfig {
        *self
    }
}

impl Duplicate for MultiVectorQuantizationConfig {
    fn duplicate(&self) -> (r: Self) {
        *self
    }
}

/// The quantized indexes over the token vectors of spaces.
pub struct TokenState {
    pub configs: OrderedMap<String, MultiVectorQuantizationConfig>,
    pub indexes: OrderedMap<String, TokenIndex>,
    /// Whether the indexes are to be rebuilt at the next compaction.
    pub dirty: bool,
}

/// A database. Its files and graphs are kept by whoever holds it.
pub struct Database {
    pub(crate) table: Table,
    pub(crate) metric: DistanceMetric,
    pub(crate) config: IndexConfig,
    pub(crate) access: Access,
    pub(crate) log: LogState,
    pub(crate) catalog: AnnCatalog,
    pub(crate) ann: GraphFlags,
    pub(crate) sparse: SparseIndex,
    pub(crate) arena: Option<VectorArena>,
    pub(crate) arena_dirty: bool,
    pub(crate) quant: QuantState,
    pub(crate) tokens: TokenState,
}

/// Whether an index has as many keys as vectors, and an index only where there are settings.
pub open spec fn quant_valid(q: QuantState) -> bool {
    q.index matches Some(x) ==> x.wf() && x.size() == q.keys@.len() && q.config is Some
}

/// Whether an index has as many keys as documents.
pub open spec fn token_index_valid(t: TokenIndex) -> bool {
    t.index.wf() && t.index.doc_ranges@.len() == t.keys@.len()
}

/// Whether every index over token vectors is valid.
pub open spec fn tokens_valid(t: TokenState) -> bool {
    forall|s: Seq<char>| #[trigger] t.indexes@.contains_key(s) ==> token_index_valid(t.indexes@[s])
}

impl Database {
    /// The records by key.
    pub open(crate) spec fn view(&self) -> Map<KeyModel, RecordModel> {
        self.table@
    }

    /// The records in key order.
    pub open(crate) spec fn rows(&self) -> Seq<(KeyModel, RecordModel)> {
        self.table.rows()
    }

    /// The dimension of the main vectors.
    pub open(crate) spec fn dim(&self) -> nat {
        self.table.dim()
    }

    /// The kinds of the payload indexes by field.
    pub open(crate) spec fn kinds(&self) -> Map<Seq<char>, PayloadIndexType> {
        self.table.kinds()
    }

    /// What the neighbour graphs hold.
    pub open(crate) spec fn graphs(&self) -> Catalog {
        self.catalog@
    }

    /// The metric by which vectors are compared.
    pub open(crate) spec fn measure(&self) -> DistanceMetric {
        self.metric
    }

    /// The tuning of the graphs.
    pub open(crate) spec fn tuning(&self) -> IndexConfig {
        self.config
    }

    /// How the database was opened.
    pub open(crate) spec fn opened(&self) -> Access {
        self.access
    }

    /// The state of the log.
    pub open(crate) spec fn logged(&self) -> LogState {
        self.log
    }

    /// What is known of the graphs on disk.
    pub open(crate) spec fn flags(&self) -> GraphFlags {
        self.ann
    }

    /// The index over sparse terms.
    pub open(crate) spec fn terms(&self) -> SparseIndex {
        self.sparse
    }

    /// The quantized index over the main vectors.
    pub open(crate) spec fn quantizer(&self) -> QuantState {
        self.quant
    }

    /// The quantized indexes over token vectors.
    pub open(crate) spec fn token_indexes(&self) -> TokenState {
        self.tokens
    }

    /// The vectors in one run of memory, where they are kept, and whether they are out of date.
    pub open(crate) spec fn scan_state(&self) -> (Option<VectorArena>, bool) {
        (self.arena, self.arena_dirty)
    }

    /// All parts are consistent.
    pub open(crate) spec fn wf(&self) -> bool {
        &&& self.table.wf()
        &&& catalog_valid(self.catalog@)
        &&& self.arena matches Some(a) ==> a.wf()
        &&& quant_valid(self.quant)
        &&& tokens_valid(self.tokens)
    }

    /// Every graph holds every record of its slot.
    pub open spec fn complete(&self) -> bool {
        covers(self.graphs(), self@)
    }

    /// Whether the database was closed.
    pub open spec fn closed(&self) -> bool {
        !self.opened().locked && self.rows().len() == 0 && self.dim() == 0
    }

    /// Why reads are refused, if they are.
    pub open spec fn read_refusal(&self) -> Option<Failure> {
        if self.closed() {
            Some(Failure::InvalidFormat("database is closed"@))
        } else {
            None
        }
    }

    /// Why writes are refused, if they are.
    pub open spec fn write_refusal(&self) -> Option<Failure> {
        if self.closed() {
            Some(Failure::InvalidFormat("database is closed"@))
        } else if self.opened().read_only {
            Some(Failure::ReadOnly)
        } else {
            None
        }
    }

    /// Everything but the records and their indexes is as before.
    pub open spec fn same_settings(&self, other: &Database) -> bool {
        &&& self.dim() == other.dim()
        &&& self.kinds() == other.kinds()
        &&& self.measure() == other.measure()
        &&& self.tuning() == other.tuning()
        &&& self.opened() == other.opened()
        &&& self.logged() == other.logged()
    }

    /// Whether the database was closed.
    pub fn is_closed(&self) -> (r: bool)
        ensures
            r == self.closed(),
    {
        !self.access.locked && self.table.records.is_empty() && self.table.dimension == 0
    }

    /// Refuses reads of a closed database.
    pub fn check_open(&self) -> (r: Result<(), VectLiteError>)
        ensures
            match self.read_refusal() {
                Some(f) => r matches Err(e) && e@ == f,
                None => r is Ok,
            },
    {
        if self.is_closed() {
            return Err(invalid("database is closed"));
        }
        Ok(())
    }

    /// Refuses writes of a closed or read-only database.
    pub fn check_writable(&self) -> (r: Result<(), VectLiteError>)
        ensures
            match self.write_refusal() {
                Some(f) => r matches Err(e) && e@ == f,
                None => r is Ok,
            },
    {
        if self.is_closed() {
            return Err(invalid("database is closed"));
        }
        if self.access.read_only {
            return Err(VectLiteError::ReadOnly);
        }
        Ok(())
    }

    /// Whether the database was opened for reading only.
    pub fn is_read_only(&self) -> (r: bool)
        ensures
            r == self.opened().read_only,
    {
        self.access.read_only
    }

    /// The dimension of the main vectors.
    pub fn dimension(&self) -> (r: usize)
        ensures
            r == self.dim(),
    {
        self.table.dimension
    }

    /// The metric by which vectors are compared.
    pub fn metric(&self) -> (r: DistanceMetric)
        ensures
            r == self.measure(),
    {
        self.metric
    }

    /// The number of records, expired ones included.
    pub fn len(&self) -> (r: usize)
        ensures
            r == self.rows().len(),
    {
        self.table.records.len()
    }

    /// Whether there is no record.
    pub fn is_empty(&self) -> (r: bool)
        ensures
            r == (self.rows().len() == 0),
    {
        self.table.records.len() == 0
    }

    /// The record of a key, unless it is expired.
    pub fn get_in_namespace(&self, namespace: &str, id: &str, now: u64) -> (r: Option<&Record>)
        ensures
            ({
                let k = (namespace@, id@);
                let there = self@.contains_key(k) && !self@[k].expired(now);
                &&& r is Some == there
                &&& r matches Some(x) ==> x@ == self@[k]
            }),
    {
        self.table.get_in_namespace(namespace, id, now)
    }

    /// The record of an id in the default namespace, unless it is expired.
    pub fn get(&self, id: &str, now: u64) -> (r: Option<&Record>)
        ensures
            ({
                let k = (Seq::<char>::empty(), id@);
                let there = self@.contains_key(k) && !self@[k].expired(now);
                &&& r is Some == there
                &&& r matches Some(x) ==> x@ == self@[k]
            }),
    {
        proof {
            reveal_strlit("");
            assert(""@ =~= Seq::<char>::empty());
        }
        self.get_in_namespace("", id, now)
    }

    /// The record at a position in key order.
    pub fn record_at(&self, i: usize) -> (r: &Record)
        requires
            i < self.rows().len(),
        ensures
            r@ == self.rows()[i as int].1,
    {
        self.table.records.value_at(i)
    }

    /// The record of a key, shown or not.
    pub fn record(&self, key: &RecordKey) -> (r: Option<&Record>)
        ensures
            r is Some == self@.contains_key(key.deep_view()),
            r matches Some(x) ==> x@ == self@[key.deep_view()],
    {
        self.table.records.lookup(key)
    }

    /// The index over sparse terms.
    pub fn sparse_index(&self) -> (r: &SparseIndex)
        ensures
            *r == self.terms(),
    {
        &self.sparse
    }

    /// The number of records that are shown.
    pub fn count_filtered(
        &self,
        namespace: Option<&str>,
        filter: Option<&MetadataFilter>,
        now: u64,
    ) -> (r: usize)
        requires
            self.wf(),
        ensures
            r == selected(
                self.rows(),
                opt_text(namespace),
                opt_filter(filter),
                now,
            ).len(),
    {
        self.table.count_filtered(namespace, filter, now)
    }

    /// The records that are shown, in key order, from `offset` on and at most `limit` of them; a
    /// limit of zero means all.
    pub fn list(
        &self,
        namespace: Option<&str>,
        filter: Option<&MetadataFilter>,
        limit: usize,
        offset: usize,
        now: u64,
    ) -> (r: Vec<&Record>)
        requires
            self.wf(),
        ensures
            r.deep_view() == models(
                page(
                    selected(
                        self.rows(),
                        opt_text(namespace),
                        opt_filter(filter),
                        now,
                    ),
                    limit as nat,
                    offset as nat,
                ),
            ),
    {
        self.table.list(namespace, filter, limit, offset, now)
    }

    /// A page of at most `limit` records after the cursor `after`, and the cursor of the next
    /// page where there are more.
    pub fn list_cursor(
        &self,
        namespace: Option<&str>,
        filter: Option<&MetadataFilter>,
        limit: usize,
        after: Option<&str>,
        now: u64,
    ) -> (r: (Vec<&Record>, Option<String>))
        requires
            self.wf(),
        ensures
            ({
                let all = following(
                    self.rows(),
                    opt_text(namespace),
                    opt_filter(filter),
                    now,
                    match after {
                        Some(c) => Some(cursor_key(c@)),
                        None => None,
                    },
                );
                let size = page_size(limit as nat) as int;
                if all.len() > size {
                    &&& r.0.deep_view() == models(all.take(size))
                    &&& r.1 matches Some(c) && c@ == key_cursor(all[size - 1].1.key())
                } else {
                    &&& r.0.deep_view() == models(all)
                    &&& r.1 is None
                }
            }),
    {
        self.table.list_cursor(namespace, filter, limit, after, now)
    }

    /// The namespaces of the records, each once and in ascending order.
    pub fn namespaces(&self) -> (r: Vec<String>)
        ensures
            texts_ascending(r.deep_view()),
            forall|n: Seq<char>|
                r.deep_view().contains(n) <==> exists|k: KeyModel| #[trigger]
                    self@.contains_key(k) && k.0 == n,
    {
        let r = self.table.namespaces();
        proof {
            assert(self@ == self.table@);
            assert forall|n: Seq<char>|
                r.deep_view().contains(n) <==> exists|k: KeyModel| #[trigger]
                    self@.contains_key(k) && k.0 == n by {
                if r.deep_view().contains(n) {
                    let k = choose|k: KeyModel| #[trigger]
                        self.table@.contains_key(k) && k.0 == n;
                    assert(self@.contains_key(k));
                }
            }
        }
        r
    }

    /// The fields of the payload indexes in ascending order, with the kinds of the indexes.
    pub fn list_indexes(&self) -> (r: Vec<(String, PayloadIndexType)>)
        ensures
            map_of(
                Seq::new(r@.len(), |i: int| (r@[i].0@, r@[i].1)),
            ) == self.kinds(),
            forall|i: int, j: int|
                #![trigger r@[i], r@[j]]
                0 <= i < j < r@.len() ==> text_before(r@[i].0@, r@[j].0@),
    {
        let r = self.table.indexes.list();
        proof {
            use_type_invariant(&self.table.indexes.indexes);
            self.table.indexes.lemma_kinds();
            let defs = self.table.indexes.defs();
            assert(Seq::new(r@.len(), |i: int| (r@[i].0@, r@[i].1)) =~= defs);
            assert forall|i: int, j: int|
                #![trigger r@[i], r@[j]]
                0 <= i < j < r@.len() implies text_before(r@[i].0@, r@[j].0@) by {
                assert(<String as Key>::before(defs[i].0, defs[j].0));
            }
        }
        r
    }
}

} // verus!
