//! Creating, opening, compacting and closing a database.
use vstd::prelude::*;
use crate::ann::{law_rebuild_covers, rebuilt, AnnCatalog, Catalog, GraphAction, SlotId, SlotModel};
use crate::commit::{builds_all, lemma_rows_named};
use crate::config::{IndexConfig, WalSyncMode};
use crate::database::{Access, Database, GraphFlags, LogState, QuantState, TokenIndex, TokenState};
use crate::error::{invalid, Failure, VectLiteError};
use crate::manifest::{
    actual_entries, adopted, entries_expected, expected_ann_entries, load_plan, parse_manifest,
    plan_ann_load, read_ann_manifest, AnnManifestEntry, EntryModel,
};
use crate::metric::DistanceMetric;
use crate::ordered_map::{has_key, lemma_map_of_at, map_of, position_of, OrderedMap};
use crate::payload_index::{decode_defs, parse_def_file, PayloadIndexType, PayloadIndexes};
use crate::record::{KeyModel, RecordKey, RecordModel};
use crate::snapshot::{
    enc_snapshot, law_snapshot_roundtrip, parse_snapshot, read_snapshot, snapshot_fits,
    snapshot_storable, SnapshotModel,
};
use crate::soundness::{batches_dimensioned, law_read_snapshot_valid, law_read_wal_dimensioned};
use crate::sparse_index::SparseIndex;
use crate::table::{apply_ops, entry_valid, Table};
use crate::wal::{
    batch_fits, batch_storable, enc_batch, enc_wal, law_wal_roundtrip, parse_wal, read_wal, OpModel,
    WalOp,
};

verus! {

/// The records after batches of changes, one after the other.
pub open spec fn apply_batches(
    records: Map<KeyModel, RecordModel>,
    batches: Seq<Seq<OpModel>>,
) -> Map<KeyModel, RecordModel>
    decreases batches.len(),
{
    if batches.len() == 0 {
        records
    } else {
        apply_ops(apply_batches(records, batches.drop_last()), batches.last())
    }
}

/// The number of changes in batches, as far as a size can count.
pub open spec fn op_total(batches: Seq<Seq<OpModel>>) -> nat
    decreases batches.len(),
{
    if batches.len() == 0 {
        0
    } else {
        let n = op_total(batches.drop_last()) + batches.last().len();
        if n > usize::MAX {
            usize::MAX as nat
        } else {
            n
        }
    }
}

/// The batches of a log that may be missing.
pub open spec fn parse_log(dimension: nat, log: Option<Seq<u8>>) -> Result<
    Seq<Seq<OpModel>>,
    Failure,
> {
    match log {
        None => Ok(Seq::empty()),
        Some(b) => parse_wal(dimension, b),
    }
}

/// The index definitions of a file that may be missing or unreadable.
pub open spec fn parse_kinds(defs: Option<Seq<u8>>) -> Map<Seq<char>, PayloadIndexType> {
    match defs {
        None => Map::empty(),
        Some(b) => match parse_def_file(b) {
            Some(pairs) => map_of(pairs),
            None => Map::empty(),
        },
    }
}

/// The bytes behind a reference that may be missing.
pub open spec fn opt_bytes(b: Option<&[u8]>) -> Option<Seq<u8>> {
    match b {
        Some(x) => Some(x@),
        None => None,
    }
}

/// The settings of a new session.
pub open spec fn new_session(db: &Database) -> bool {
    &&& db.tuning() == (IndexConfig {
        m: 16,
        ef_construction: 200,
        ef_search: None,
        parallel_insert_threshold: 256,
        tombstone_rebuild_pct: 30,
    })
    &&& db.logged().mode == WalSyncMode::PerOp
    &&& db.logged().pending == 0
    &&& db.flags() == (GraphFlags { loaded: false, dirty: false })
    &&& db.graphs() == Catalog::empty()
    &&& db.scan_state() == (None::<crate::arena::VectorArena>, false)
    &&& db.quantizer().config is None
    &&& db.quantizer().index is None
    &&& !db.quantizer().dirty
    &&& db.token_indexes().configs.pairs().len() == 0
    &&& db.token_indexes().indexes@ == Map::<Seq<char>, TokenIndex>::empty()
    &&& !db.token_indexes().dirty
}

fn session(table: Table, metric: DistanceMetric, read_only: bool, replayed: usize) -> (r: Database)
    requires
        table.wf(),
    ensures
        r.wf(),
        r.complete(),
        new_session(&r),
        r@ == table@,
        r.rows() == table.rows(),
        r.dim() == table.dim(),
        r.kinds() == table.kinds(),
        r.measure() == metric,
        r.opened() == (Access { read_only, locked: true }),
        r.logged().replayed == replayed,
        r.terms().describes(r.rows()),
{
    let sparse = SparseIndex::build(&table.records);
    Database {
        table,
        metric,
        config: IndexConfig::default(),
        access: Access { read_only, locked: true },
        log: LogState { mode: WalSyncMode::PerOp, pending: 0, replayed },
        catalog: AnnCatalog::new(),
        ann: GraphFlags { loaded: false, dirty: false },
        sparse,
        arena: None,
        arena_dirty: false,
        quant: QuantState { config: None, index: None, keys: Vec::new(), dirty: false },
        tokens: TokenState {
            configs: OrderedMap::new(),
            indexes: OrderedMap::new(),
            dirty: false,
        },
    }
}

/// Whether a database holds what its files say.
pub open spec fn opens_as(
    r: Result<Database, VectLiteError>,
    file: Seq<u8>,
    log: Option<Seq<u8>>,
    defs: Option<Seq<u8>>,
    read_only: bool,
) -> bool {
    match parse_snapshot(file) {
        Err(e) => r matches Err(x) && x@ == e,
        Ok(s) => match parse_log(s.dimension, log) {
            Err(e) => r matches Err(x) && x@ == e,
            Ok(batches) => {
                &&& r matches Ok(db)
                &&& db.wf()
                &&& db.complete()
                &&& new_session(&db)
                &&& db.dim() == s.dimension
                &&& db.measure() == s.metric
                &&& db@ == apply_batches(map_of(s.records), batches)
                &&& db.logged().replayed == op_total(batches)
                &&& db.kinds() == parse_kinds(defs)
                &&& db.opened() == (Access { read_only, locked: true })
                &&& db.terms().describes(db.rows())
            },
        },
    }
}

fn replay(table: Table, batches: Vec<Vec<WalOp>>) -> (r: (Table, usize))
    requires
        table.wf(),
        batches_dimensioned(batches.deep_view(), table.dim()),
    ensures
        r.0.wf(),
        r.0.dim() == table.dim(),
        r.0.kinds() == table.kinds(),
        r.0@ == apply_batches(table@, batches.deep_view()),
        r.1 == op_total(batches.deep_view()),
{
    let ghost all = batches.deep_view();
    let ghost start = table@;
    let ghost dim = table.dim();
    let ghost kinds = table.kinds();
    let mut table = table;
    let mut replayed: usize = 0;
    proof {
        assert(all.take(0) =~= Seq::empty());
    }
    for batch in it: batches
        invariant
            all == batches.deep_view(),
            it.seq() == batches@,
            batches_dimensioned(all, dim),
            table.wf(),
            table.dim() == dim,
            table.kinds() == kinds,
            table@ == apply_batches(start, all.take(it.index())),
            replayed == op_total(all.take(it.index())),
    {
        proof {
            let at = it.index();
            assert(all[at] == batch.deep_view());
            assert(all.take(at + 1).drop_last() =~= all.take(at));
            assert(all.take(at + 1).last() == all[at]);
        }
        let n: usize = batch.len();
        table.apply_ops_in_memory(batch);
        replayed = if n > usize::MAX - replayed {
            usize::MAX
        } else {
            replayed + n
        };
    }
    proof {
        assert(all.take(all.len() as int) =~= all);
    }
    (table, replayed)
}

impl Database {
    /// A new database with a metric.
    pub fn create_with_metric(dimension: usize, metric: DistanceMetric) -> (r: Result<
        Database,
        VectLiteError,
    >)
        ensures
            dimension == 0 ==> (r matches Err(e) && e@ == Failure::InvalidFormat(
                "dimension must be greater than zero"@,
            )),
            dimension > 0 ==> {
                &&& r matches Ok(db)
                &&& db.wf()
                &&& db.complete()
                &&& new_session(&db)
                &&& db.dim() == dimension
                &&& db.measure() == metric
                &&& db.rows() == Seq::<(KeyModel, RecordModel)>::empty()
                &&& db@ == Map::<KeyModel, RecordModel>::empty()
                &&& db.kinds() == Map::<Seq<char>, PayloadIndexType>::empty()
                &&& db.opened() == (Access { read_only: false, locked: true })
                &&& db.logged().replayed == 0
            },
    {
        if dimension == 0 {
            return Err(invalid("dimension must be greater than zero"));
        }
        Ok(session(Table::new(dimension), metric, false, 0))
    }

    /// A new database that compares vectors by their angle.
    pub fn create(dimension: usize) -> (r: Result<Database, VectLiteError>)
        ensures
            dimension == 0 ==> (r matches Err(e) && e@ == Failure::InvalidFormat(
                "dimension must be greater than zero"@,
            )),
            dimension > 0 ==> {
                &&& r matches Ok(db)
                &&& db.wf()
                &&& db.complete()
                &&& new_session(&db)
                &&& db.dim() == dimension
                &&& db.measure() == DistanceMetric::Cosine
                &&& db.rows() == Seq::<(KeyModel, RecordModel)>::empty()
                &&& db@ == Map::<KeyModel, RecordModel>::empty()
                &&& db.kinds() == Map::<Seq<char>, PayloadIndexType>::empty()
                &&& db.opened() == (Access { read_only: false, locked: true })
                &&& db.logged().replayed == 0
            },
    {
        Database::create_with_metric(dimension, DistanceMetric::Cosine)
    }

    fn open_files(file: &[u8], log: Option<&[u8]>, defs: Option<&[u8]>, read_only: bool) -> (r:
        Result<Database, VectLiteError>)
        ensures
            opens_as(r, file@, opt_bytes(log), opt_bytes(defs), read_only),
    {
        let snapshot = match read_snapshot(file) {
            Ok(s) => s,
            Err(e) => {
                return Err(e);
            },
        };
        let dimension: usize = snapshot.dimension;
        let metric = snapshot.metric;
        let batches = match log {
            Some(bytes) => match read_wal(bytes, dimension) {
                Ok(b) => b,
                Err(e) => {
                    return Err(e);
                },
            },
            None => {
                let none: Vec<Vec<WalOp>> = Vec::new();
                proof {
                    assert(none.deep_view() =~= Seq::<Seq<OpModel>>::empty());
                }
                none
            },
        };
        let ghost rows = snapshot.records.pairs();
        proof {
            law_read_snapshot_valid(file@);
            if let Some(b) = log {
                law_read_wal_dimensioned(dimension as nat, b@);
            }
            use_type_invariant(&snapshot.records);
            snapshot.records.lemma_pairs_ascending();
            assert forall|k: KeyModel| #[trigger] map_of(rows).contains_key(k) implies entry_valid(
                (k, map_of(rows)[k]),
                dimension as nat,
            ) by {
                let i = position_of(rows, k);
                assert(has_key(rows, k));
                lemma_map_of_at::<(String, String), RecordModel>(rows, i);
                assert(entry_valid(rows[i], dimension as nat));
            }
        }
        let table = Table {
            dimension,
            records: snapshot.records,
            indexes: PayloadIndexes::new(),
        };
        let (table, replayed) = replay(table, batches);
        let indexes = match defs {
            Some(bytes) => match decode_defs(bytes) {
                Some(d) => PayloadIndexes::rebuild(&d, &table.records),
                None => PayloadIndexes::new(),
            },
            None => PayloadIndexes::new(),
        };
        let table = Table { dimension: table.dimension, records: table.records, indexes };
        Ok(session(table, metric, read_only, replayed))
    }

    /// Opens a database from its file, its log and its index definitions.
    pub fn open(file: &[u8], log: Option<&[u8]>, defs: Option<&[u8]>) -> (r: Result<
        Database,
        VectLiteError,
    >)
        ensures
            opens_as(r, file@, opt_bytes(log), opt_bytes(defs), false),
    {
        Database::open_files(file, log, defs, false)
    }

    /// Opens a database for reading only.
    pub fn open_read_only(file: &[u8], log: Option<&[u8]>, defs: Option<&[u8]>) -> (r: Result<
        Database,
        VectLiteError,
    >)
        ensures
            opens_as(r, file@, opt_bytes(log), opt_bytes(defs), true),
    {
        Database::open_files(file, log, defs, true)
    }

    /// Refuses a database of another dimension than wanted.
    pub fn check_dimension(&self, wanted: usize) -> (r: Result<(), VectLiteError>)
        ensures
            self.dim() == wanted ==> r is Ok,
            self.dim() != wanted ==> (r matches Err(e) && e@ == (Failure::DimensionMismatch {
                expected: self.dim() as usize,
                found: wanted,
            })),
    {
        if self.table.dimension != wanted {
            return Err(
                VectLiteError::DimensionMismatch { expected: self.table.dimension, found: wanted },
            );
        }
        Ok(())
    }

    /// The graphs to load from a manifest, unless it is unreadable or out of date.
    pub fn plan_graph_load(&self, manifest: &[u8]) -> (r: Option<
        Vec<((Option<String>, String), Vec<RecordKey>)>,
    >)
        requires
            self.wf(),
        ensures
            match parse_manifest(manifest@) {
                Err(_) => r is None,
                Ok(stored) => exists|expected: Seq<EntryModel>| #[trigger]
                    entries_expected(expected, self.rows()) && r.deep_view() == load_plan(
                        expected,
                        stored,
                    ),
            },
    {
        match read_ann_manifest(manifest) {
            Ok(stored) => {
                proof {
                    use_type_invariant(&self.table.records);
                    self.table.records.lemma_pairs_ascending();
                    lemma_rows_named(self.rows(), self.dim());
                }
                let expected = expected_ann_entries(&self.table.records);
                let plan = plan_ann_load(&expected, &stored);
                proof {
                    assert(entries_expected(expected.deep_view(), self.rows()));
                }
                plan
            },
            Err(_) => None,
        }
    }

    /// Everything but the graphs and what is known of them is as before.
    pub open(crate) spec fn same_but_graphs(&self, other: &Database) -> bool {
        &&& self.table == other.table
        &&& self.metric == other.metric
        &&& self.config == other.config
        &&& self.access == other.access
        &&& self.log == other.log
        &&& self.sparse == other.sparse
        &&& self.arena == other.arena
        &&& self.arena_dirty == other.arena_dirty
        &&& self.quant == other.quant
        &&& self.tokens == other.tokens
    }

    /// The slots and their graphs, in slot order.
    pub open(crate) spec fn graph_slots(&self) -> Seq<(SlotId, SlotModel)> {
        self.catalog.entries()
    }

    /// What a manifest of the graphs as they are lists.
    pub fn graph_entries(&self) -> (r: Vec<AnnManifestEntry>)
        ensures
            r.deep_view() == actual_entries(self.graph_slots()),
    {
        self.catalog.actual_ann_entries()
    }

    /// Takes over the graphs that were loaded.
    pub fn adopt_graphs(&mut self, slots: &Vec<((Option<String>, String), Vec<RecordKey>)>)
        requires
            old(self).wf(),
        ensures
            final(self).wf(),
            final(self).same_but_graphs(old(self)),
            final(self).graphs() == adopted(slots.deep_view()),
            final(self).flags() == (GraphFlags { loaded: true, ..old(self).flags() }),
    {
        self.catalog.adopt(slots);
        self.ann = GraphFlags { loaded: true, dirty: self.ann.dirty };
        proof {
            self.catalog.lemma_lengths();
            lemma_adopted_alive(slots.deep_view());
        }
    }

    /// Rebuilds all graphs from the records.
    pub fn rebuild_graphs(&mut self) -> (actions: Vec<GraphAction>)
        requires
            old(self).wf(),
        ensures
            final(self).wf(),
            final(self).complete(),
            final(self).same_but_graphs(old(self)),
            final(self).flags() == old(self).flags(),
            final(self).graphs() == rebuilt(old(self).rows()),
            builds_all(
                actions@,
                final(self).graph_list(),
                old(self).tuning().parallel_insert_threshold as nat,
            ),
    {
        proof {
            use_type_invariant(&self.table.records);
            self.table.records.lemma_pairs_ascending();
            lemma_rows_named(self.rows(), self.dim());
            self.table.records.lemma_len();
            law_rebuild_covers(self.rows());
        }
        self.catalog.rebuild_ann(&self.table.records, &self.config)
    }
}

proof fn lemma_adopted_alive(slots: Seq<(SlotId, Seq<KeyModel>)>)
    ensures
        forall|s: SlotId| #[trigger]
            adopted(slots).contains_key(s) ==> adopted(slots)[s].dead == Set::<usize>::empty(),
    decreases slots.len(),
{
    if slots.len() > 0 {
        let before = adopted(slots.drop_last());
        lemma_adopted_alive(slots.drop_last());
        assert forall|s: SlotId| #[trigger] adopted(slots).contains_key(s) implies adopted(
            slots,
        )[s].dead == Set::<usize>::empty() by {
            if s != slots.last().0 {
                assert(before.contains_key(s));
            }
        }
    }
}

/// A database that is opened from a file and a log that were written holds the records of the
/// file after the batches of the log, also where the last write to the log was cut off at any
/// point.
pub proof fn law_reopen(
    r: Result<Database, VectLiteError>,
    s: SnapshotModel,
    batches: Seq<Seq<OpModel>>,
    torn: Seq<OpModel>,
    kept: int,
    defs: Option<Seq<u8>>,
    read_only: bool,
)
    requires
        snapshot_fits(s),
        snapshot_storable(s),
        forall|i: int|
            0 <= i < batches.len() ==> batch_fits(#[trigger] batches[i]) && batch_storable(
                batches[i],
                s.dimension,
            ),
        batch_fits(torn),
        0 <= kept < enc_batch(torn).len(),
        opens_as(
            r,
            enc_snapshot(s),
            Some(enc_wal(batches) + enc_batch(torn).take(kept)),
            defs,
            read_only,
        ),
    ensures
        r matches Ok(db) && db@ == apply_batches(map_of(s.records), batches) && db.dim()
            == s.dimension && db.measure() == s.metric,
{
    law_snapshot_roundtrip(s);
    law_wal_roundtrip(batches, torn, kept, s.dimension);
}

} // verus!
