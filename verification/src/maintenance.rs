//! Compaction, settings and indexes of an open database.
use vstd::prelude::*;
use crate::ann::{
    covers, in_slot, law_rebuild_covers, rebuilt, AnnCatalog, Catalog, GraphAction, SlotId,
    SlotModel,
};
use crate::arena::VectorArena;
use crate::codec::too_long;
use crate::commit::{builds_all, lemma_rows_named, space_names, Effects};
use crate::database::{
    Access, Database, GraphFlags, LogState, QuantState, TokenIndex, TokenState,
};
use crate::error::VectLiteError;
use crate::order::Duplicate;
use crate::ordered_map::{ascending, has_key, lemma_map_of_at, position_of, OrderedMap};
use crate::payload_index::{PayloadIndexType, PayloadIndexes};
use crate::quantization::MultiVectorQuantizationConfig;
use crate::record::{KeyModel, RecordModel};
use crate::snapshot::{enc_snapshot, snapshot_fits, write_snapshot, SnapshotModel};
use crate::sparse_index::SparseIndex;
use crate::table::{apply_ops, Table};
use crate::wal::{OpModel, WalOp};

verus! {

/// The records that are not expired.
pub open spec fn unexpired(records: Map<KeyModel, RecordModel>, now: u64) -> Map<
    KeyModel,
    RecordModel,
> {
    Map::new(
        |k: KeyModel| records.contains_key(k) && !records[k].expired(now),
        |k: KeyModel| records[k],
    )
}

/// Whether some graph has dead entries.
pub open spec fn any_dead(catalog: Catalog) -> bool {
    exists|s: SlotId| #[trigger] catalog.contains_key(s) && catalog[s].dead.len() > 0
}

/// Removing records keeps the graphs complete.
pub proof fn law_removal_covers(
    catalog: Catalog,
    records: Map<KeyModel, RecordModel>,
    fewer: Map<KeyModel, RecordModel>,
)
    requires
        covers(catalog, records),
        forall|k: KeyModel| #[trigger]
            fewer.contains_key(k) ==> records.contains_key(k) && records[k] == fewer[k],
    ensures
        covers(catalog, fewer),
{
    assert forall|s: SlotId, k: KeyModel|
        #![trigger catalog.contains_key(s), fewer.contains_key(k)]
        catalog.contains_key(s) && fewer.contains_key(k) && in_slot(
            k,
            fewer[k],
            s,
        ) implies crate::ann::alive(catalog[s], k) by {
        assert(records.contains_key(k));
    }
}

impl Table {
    fn expired_ops(&self, now: u64) -> (r: Vec<WalOp>)
        ensures
            forall|i: int|
                0 <= i < r.deep_view().len() ==> (#[trigger] r.deep_view()[i]) is Delete,
            forall|k: KeyModel|
                (self@.contains_key(k) && self@[k].expired(now)) <==> #[trigger] deletes_key(
                    r.deep_view(),
                    k,
                ),
    {
        let ghost rows = self.rows();
        proof {
            use_type_invariant(&self.records);
            self.records.lemma_pairs_ascending();
        }
        let mut ops: Vec<WalOp> = Vec::new();
        let mut i: usize = 0;
        while i < self.records.len()
            invariant
                i <= rows.len(),
                rows == self.rows(),
                forall|j: int|
                    0 <= j < ops.deep_view().len() ==> (#[trigger] ops.deep_view()[j]) is Delete,
                forall|k: KeyModel| #[trigger]
                    deletes_key(ops.deep_view(), k) <==> exists|p: int|
                        0 <= p < i && (#[trigger] rows[p]).0 == k && rows[p].1.expired(now),
            decreases rows.len() - i,
        {
            let ghost before = ops.deep_view();
            let record = self.records.value_at(i);
            let key = self.records.key_at(i);
            let ghost row = rows[i as int];
            if record.is_expired_at(now) {
                let op = WalOp::Delete { namespace: key.0.duplicate(), id: key.1.duplicate() };
                ops.push(op);
                proof {
                    assert(ops.deep_view() =~= before.push(op.deep_view()));
                    assert(op.deep_view() == OpModel::Delete(row.0));
                    assert forall|j: int| 0 <= j < ops.deep_view().len() implies (
                    #[trigger] ops.deep_view()[j]) is Delete by {
                        if j < before.len() {
                            assert(ops.deep_view()[j] == before[j]);
                        }
                    }
                }
            }
            proof {
                let after = ops.deep_view();
                assert forall|k: KeyModel| #[trigger]
                    deletes_key(after, k) <==> exists|p: int|
                        0 <= p < i + 1 && (#[trigger] rows[p]).0 == k && rows[p].1.expired(now) by {
                    if deletes_key(after, k) {
                        let j = choose|j: int|
                            0 <= j < after.len() && #[trigger] after[j] == OpModel::Delete(k);
                        if j < before.len() {
                            assert(before[j] == OpModel::Delete(k));
                            assert(deletes_key(before, k));
                            let p = choose|p: int|
                                0 <= p < i && (#[trigger] rows[p]).0 == k && rows[p].1.expired(
                                    now,
                                );
                            assert(rows[p].0 == k);
                        } else {
                            assert(rows[i as int].0 == k);
                        }
                    }
                    if exists|p: int|
                        0 <= p < i + 1 && (#[trigger] rows[p]).0 == k && rows[p].1.expired(now) {
                        let p = choose|p: int|
                            0 <= p < i + 1 && (#[trigger] rows[p]).0 == k && rows[p].1.expired(now);
                        if p < i {
                            assert(deletes_key(before, k));
                            let j = choose|j: int|
                                0 <= j < before.len() && #[trigger] before[j] == OpModel::Delete(k);
                            assert(after[j] == OpModel::Delete(k));
                        } else {
                            assert(after[before.len() as int] == OpModel::Delete(k));
                        }
                    }
                }
            }
            i += 1;
        }
        proof {
            assert forall|k: KeyModel|
                (self@.contains_key(k) && self@[k].expired(now)) <==> #[trigger] deletes_key(
                    ops.deep_view(),
                    k,
                ) by {
                if self@.contains_key(k) && self@[k].expired(now) {
                    assert(has_key(rows, k));
                    let p = position_of(rows, k);
                    assert(rows[p].0 == k && rows[p].1.expired(now));
                }
                if deletes_key(ops.deep_view(), k) {
                    let p = choose|p: int|
                        0 <= p < rows.len() && (#[trigger] rows[p]).0 == k && rows[p].1.expired(
                            now,
                        );
                    lemma_map_of_at::<(String, String), RecordModel>(rows, p);
                }
            }
        }
        ops
    }
}

/// Whether changes delete a key.
pub open spec fn deletes_key(ops: Seq<OpModel>, k: KeyModel) -> bool {
    exists|j: int| 0 <= j < ops.len() && #[trigger] ops[j] == OpModel::Delete(k)
}

proof fn lemma_deleted(records: Map<KeyModel, RecordModel>, ops: Seq<OpModel>, k: KeyModel)
    requires
        forall|i: int| 0 <= i < ops.len() ==> (#[trigger] ops[i]) is Delete,
    ensures
        apply_ops(records, ops).contains_key(k) <==> records.contains_key(k) && !deletes_key(
            ops,
            k,
        ),
        apply_ops(records, ops).contains_key(k) ==> apply_ops(records, ops)[k] == records[k],
    decreases ops.len(),
{
    if ops.len() > 0 {
        let t = ops.drop_last();
        assert forall|i: int| 0 <= i < t.len() implies (#[trigger] t[i]) is Delete by {
            assert(t[i] == ops[i]);
        }
        lemma_deleted(records, t, k);
        assert(ops[ops.len() - 1] is Delete);
        if deletes_key(t, k) {
            let j = choose|j: int| 0 <= j < t.len() && #[trigger] t[j] == OpModel::Delete(k);
            assert(ops[j] == OpModel::Delete(k));
        }
        if deletes_key(ops, k) {
            let j = choose|j: int| 0 <= j < ops.len() && #[trigger] ops[j] == OpModel::Delete(k);
            if j < t.len() {
                assert(t[j] == OpModel::Delete(k));
            }
        }
    }
}

impl AnnCatalog {
    /// Whether some graph has dead entries.
    pub fn has_dead(&self) -> (r: bool)
        ensures
            r == any_dead(self@),
    {
        let ghost graphs = self.slots.pairs();
        proof {
            use_type_invariant(&self.slots);
            self.slots.lemma_pairs_ascending();
        }
        let mut i: usize = 0;
        while i < self.slots.len()
            invariant
                i <= graphs.len(),
                graphs == self.slots.pairs(),
                ascending::<(Option<String>, String), SlotModel>(graphs),
                forall|j: int| 0 <= j < i ==> (#[trigger] graphs[j]).1.dead.len() == 0,
            decreases graphs.len() - i,
        {
            let index = self.slots.value_at(i);
            if index.tombstones.len() > 0 {
                proof {
                    lemma_map_of_at::<(Option<String>, String), SlotModel>(graphs, i as int);
                    assert(self@.contains_key(graphs[i as int].0));
                }
                return true;
            }
            i += 1;
        }
        proof {
            assert forall|s: SlotId| #[trigger] self@.contains_key(s) implies self@[s].dead.len()
                == 0 by {
                assert(has_key(graphs, s));
                let j = position_of(graphs, s);
                assert(graphs[j].1.dead.len() == 0);
            }
        }
        false
    }

    /// The numbers of live and of dead entries of all graphs together, as far as a size can
    /// count.
    pub fn totals(&self) -> (r: (usize, usize))
        ensures
            r.0 == live_total(self.entries()),
            r.1 == dead_total(self.entries()),
    {
        let ghost graphs = self.slots.pairs();
        let mut live: usize = 0;
        let mut dead: usize = 0;
        let mut i: usize = 0;
        proof {
            assert(graphs.take(0) =~= Seq::empty());
        }
        while i < self.slots.len()
            invariant
                i <= graphs.len(),
                graphs == self.slots.pairs(),
                live == live_total(graphs.take(i as int)),
                dead == dead_total(graphs.take(i as int)),
            decreases graphs.len() - i,
        {
            let index = self.slots.value_at(i);
            proof {
                assert(graphs.take(i + 1).drop_last() =~= graphs.take(i as int));
                assert(graphs.take(i + 1).last() == graphs[i as int]);
            }
            let l: usize = index.live_count();
            let d: usize = index.tombstones.len();
            live = if l > usize::MAX - live {
                usize::MAX
            } else {
                live + l
            };
            dead = if d > usize::MAX - dead {
                usize::MAX
            } else {
                dead + d
            };
            i += 1;
        }
        proof {
            assert(graphs.take(i as int) =~= graphs);
        }
        (live, dead)
    }
}

/// The number of live entries of graphs, as far as a size can count.
pub open spec fn live_total(graphs: Seq<(SlotId, SlotModel)>) -> nat
    decreases graphs.len(),
{
    if graphs.len() == 0 {
        0
    } else {
        let n = live_total(graphs.drop_last()) + (graphs.last().1.keys.len()
            - graphs.last().1.dead.len());
        if n > usize::MAX {
            usize::MAX as nat
        } else {
            n as nat
        }
    }
}

/// The number of dead entries of graphs, as far as a size can count.
pub open spec fn dead_total(graphs: Seq<(SlotId, SlotModel)>) -> nat
    decreases graphs.len(),
{
    if graphs.len() == 0 {
        0
    } else {
        let n = dead_total(graphs.drop_last()) + graphs.last().1.dead.len();
        if n > usize::MAX {
            usize::MAX as nat
        } else {
            n
        }
    }
}

impl Database {
    /// Whether expired records were removed and the indexes that this calls for were rebuilt, or
    /// are to be.
    pub open spec fn compacted(&self, before: &Database, now: u64, fx: &Effects) -> bool {
        &&& self@ == unexpired(before@, now)
        &&& self.same_settings(before)
        &&& self.terms() == before.terms()
        &&& !fx.terms_rebuilt
        &&& self.scan_state() == before.scan_state()
        &&& self.flags() == before.flags()
        &&& fx.save_graphs
        &&& if any_dead(before.graphs()) {
            &&& self.graphs() == rebuilt(self.rows())
            &&& builds_all(
                fx.actions@,
                self.graph_list(),
                self.tuning().parallel_insert_threshold as nat,
            )
        } else {
            self.graphs() == before.graphs() && fx.actions@.len() == 0
        }
        &&& if before.quantizer().dirty {
            &&& self.quantizer().config == before.quantizer().config
            &&& self.quantizer().index is None
            &&& self.quantizer().keys@.len() == 0
            &&& !self.quantizer().dirty
            &&& fx.retrain == (self.quantizer().config is Some && self.rows().len() > 0)
        } else {
            self.quantizer() == before.quantizer() && !fx.retrain
        }
        &&& if before.token_indexes().dirty {
            &&& self.token_indexes().configs == before.token_indexes().configs
            &&& self.token_indexes().indexes@ == Map::<Seq<char>, TokenIndex>::empty()
            &&& !self.token_indexes().dirty
            &&& fx.spaces.deep_view() == space_names(self.token_indexes())
        } else {
            self.token_indexes() == before.token_indexes() && fx.spaces@.len() == 0
        }
    }

    fn compact_inner(&mut self, now: u64) -> (fx: Effects)
        requires
            old(self).wf(),
        ensures
            final(self).wf(),
            old(self).complete() ==> final(self).complete(),
            final(self).compacted(old(self), now, &fx),
    {
        let ghost before = self@;
        let ghost graphs = self.graphs();
        let ops = self.table.expired_ops(now);
        let ghost all = ops.deep_view();
        self.table.apply_ops_in_memory(ops);
        proof {
            assert forall|k: KeyModel| #[trigger] self@.contains_key(k) == unexpired(
                before,
                now,
            ).contains_key(k) by {
                lemma_deleted(before, all, k);
                assert(deletes_key(all, k) || !deletes_key(all, k));
            }
            assert forall|k: KeyModel| #[trigger] self@.contains_key(k) implies self@[k]
                == unexpired(before, now)[k] by {
                lemma_deleted(before, all, k);
            }
            assert(self@ =~= unexpired(before, now));
            if covers(graphs, before) {
                law_removal_covers(graphs, before, self@);
            }
            use_type_invariant(&self.table.records);
            self.table.records.lemma_pairs_ascending();
            lemma_rows_named(self.rows(), self.dim());
            self.table.records.lemma_len();
            law_rebuild_covers(self.rows());
        }
        let actions: Vec<GraphAction> = if self.catalog.has_dead() {
            self.catalog.rebuild_ann(&self.table.records, &self.config)
        } else {
            Vec::new()
        };
        let mut retrain: bool = false;
        if self.quant.dirty {
            self.quant.index = None;
            self.quant.keys = Vec::new();
            self.quant.dirty = false;
            retrain = self.quant.config.is_some() && self.table.records.len() > 0;
        }
        let mut spaces: Vec<String> = Vec::new();
        if self.tokens.dirty {
            self.tokens.indexes = OrderedMap::new();
            self.tokens.dirty = false;
            spaces = self.space_list();
        }
        Effects { actions, terms_rebuilt: false, retrain, spaces, save_graphs: true }
    }

    /// Removes expired records, rebuilds graphs with dead entries, and asks for the quantized
    /// indexes that are out of date. The file is then to be written anew.
    pub fn compact(&mut self, now: u64) -> (r: Result<Effects, VectLiteError>)
        requires
            old(self).wf(),
        ensures
            final(self).wf(),
            old(self).complete() ==> final(self).complete(),
            match old(self).write_refusal() {
                Some(f) => (r matches Err(e) && e@ == f) && *final(self) == *old(self),
                None => r matches Ok(fx) && final(self).compacted(old(self), now, &fx),
            },
    {
        match self.check_writable() {
            Ok(()) => {},
            Err(e) => {
                return Err(e);
            },
        }
        Ok(self.compact_inner(now))
    }

    /// Compacts the database.
    pub fn flush(&mut self, now: u64) -> (r: Result<Effects, VectLiteError>)
        requires
            old(self).wf(),
        ensures
            final(self).wf(),
            old(self).complete() ==> final(self).complete(),
            match old(self).write_refusal() {
                Some(f) => (r matches Err(e) && e@ == f) && *final(self) == *old(self),
                None => r matches Ok(fx) && final(self).compacted(old(self), now, &fx),
            },
    {
        self.compact(now)
    }

    /// What a file of the database holds.
    pub open spec fn snapshot_model(&self) -> SnapshotModel {
        SnapshotModel { dimension: self.dim(), metric: self.measure(), records: self.rows() }
    }

    /// The bytes of a file of the database, the changes of the log included.
    pub fn snapshot(&self) -> (r: Result<Vec<u8>, VectLiteError>)
        ensures
            match self.read_refusal() {
                Some(f) => r matches Err(e) && e@ == f,
                None => if snapshot_fits(self.snapshot_model()) {
                    r matches Ok(b) && b@ == enc_snapshot(self.snapshot_model())
                } else {
                    r matches Err(e) && e@ == too_long()
                },
            },
    {
        match self.check_open() {
            Ok(()) => {},
            Err(e) => {
                return Err(e);
            },
        }
        write_snapshot(self.table.dimension, self.metric, &self.table.records)
    }

    /// Notes that the file was written, the log removed and the graphs saved.
    pub fn compaction_saved(&mut self)
        requires
            old(self).wf(),
        ensures
            final(self).wf(),
            final(self).rows() == old(self).rows(),
            final(self)@ == old(self)@,
            final(self).dim() == old(self).dim(),
            final(self).kinds() == old(self).kinds(),
            final(self).measure() == old(self).measure(),
            final(self).graphs() == old(self).graphs(),
            final(self).tuning() == old(self).tuning(),
            final(self).opened() == old(self).opened(),
            final(self).logged() == (LogState { replayed: 0, ..old(self).logged() }),
            final(self).flags() == (GraphFlags { dirty: false, ..old(self).flags() }),
            final(self).terms() == old(self).terms(),
            final(self).scan_state() == old(self).scan_state(),
            final(self).quantizer() == old(self).quantizer(),
            final(self).token_indexes() == old(self).token_indexes(),
    {
        self.log = LogState {
            mode: self.log.mode,
            pending: self.log.pending,
            replayed: 0,
        };
        self.ann = GraphFlags { loaded: self.ann.loaded, dirty: false };
    }

    /// Forgets the records and everything that is kept of them, and gives up the lock. A writable database is compacted before.
    pub fn close(&mut self)
        requires
            old(self).wf(),
        ensures
            final(self).wf(),
            final(self).complete(),
            final(self).closed(),
            final(self).opened() == (Access { locked: false, ..old(self).opened() }),
            final(self)@ == Map::<KeyModel, RecordModel>::empty(),
            final(self).kinds() == Map::<Seq<char>, PayloadIndexType>::empty(),
            final(self).measure() == old(self).measure(),
            final(self).tuning() == old(self).tuning(),
            final(self).logged() == old(self).logged(),
            final(self).graphs() == Catalog::empty(),
            final(self).flags() == old(self).flags(),
            final(self).terms().describes(Seq::empty()),
            final(self).scan_state() == (None::<VectorArena>, false),
            final(self).quantizer().config is None,
            final(self).quantizer().index is None,
            final(self).quantizer().keys@.len() == 0,
            !final(self).quantizer().dirty,
            final(self).token_indexes().configs@ == Map::<
                Seq<char>,
                MultiVectorQuantizationConfig,
            >::empty(),
            final(self).token_indexes().indexes@ == Map::<Seq<char>, TokenIndex>::empty(),
            !final(self).token_indexes().dirty,
    {
        self.table = Table {
            dimension: 0,
            records: OrderedMap::new(),
            indexes: PayloadIndexes::new(),
        };
        self.catalog = AnnCatalog::new();
        self.sparse = SparseIndex::new();
        self.quant = QuantState { config: None, index: None, keys: Vec::new(), dirty: false };
        self.tokens = TokenState {
            configs: OrderedMap::new(),
            indexes: OrderedMap::new(),
            dirty: false,
        };
        self.arena = None;
        self.arena_dirty = false;
        self.access = Access { read_only: self.access.read_only, locked: false };
    }
}

} // verus!
