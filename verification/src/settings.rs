//! The settings of an open database and the indexes that they ask for.
use vstd::prelude::*;
use crate::ann::GraphAction;
use crate::arena::{arena_rows, VectorArena};
use crate::change::{first_of, Change};
use crate::codec::too_long;
use crate::commit::{builds_all, Effects};
use crate::config::{decide_sync, sync_decision, IndexConfig, WalSyncMode};
use crate::database::{Database, GraphFlags, LogState};
use crate::error::{invalid, Failure, VectLiteError};
use crate::maintenance::{dead_total, live_total};
use crate::payload_index::{defs_fit, enc_def_file, PayloadIndexType};

verus! {

/// Whether a log that was forced to disk less often before is to be forced now.
pub open spec fn stricter(previous: WalSyncMode, mode: WalSyncMode) -> bool {
    match (previous, mode) {
        (WalSyncMode::OnFlush, WalSyncMode::PerOp) => true,
        (WalSyncMode::OnFlush, WalSyncMode::EveryN(_)) => true,
        (WalSyncMode::EveryN(_), WalSyncMode::PerOp) => true,
        (WalSyncMode::EveryN(before), WalSyncMode::EveryN(after)) => after < before,
        _ => false,
    }
}

impl Database {
    /// Everything but the state of the log is as before.
    pub open(crate) spec fn same_but_log(&self, other: &Database) -> bool {
        &&& self.table == other.table
        &&& self.metric == other.metric
        &&& self.config == other.config
        &&& self.access == other.access
        &&& self.catalog == other.catalog
        &&& self.ann == other.ann
        &&& self.sparse == other.sparse
        &&& self.arena == other.arena
        &&& self.arena_dirty == other.arena_dirty
        &&& self.quant == other.quant
        &&& self.tokens == other.tokens
    }

    /// Counts changes that are about to be appended to the log and decides whether the log is
    /// forced to disk with them.
    pub fn decide_append(&mut self, change: &Change) -> (sync: bool)
        ensures
            final(self).same_but_log(old(self)),
            ({
                let log = old(self).logged();
                let d = sync_decision(log.mode, log.pending as nat, change@.ops.len());
                &&& sync == d.0
                &&& final(self).logged() == (LogState { pending: d.1 as usize, ..log })
            }),
    {
        let (sync, pending) = decide_sync(self.log.mode, self.log.pending, change.len());
        self.log = LogState { mode: self.log.mode, pending, replayed: self.log.replayed };
        sync
    }

    /// Counts changes that are about to be appended to the log without forcing it to disk.
    pub fn append_unsynced(&mut self, change: &Change)
        ensures
            final(self).same_but_log(old(self)),
            ({
                let log = old(self).logged();
                let n = log.pending + change@.ops.len();
                final(self).logged() == (LogState {
                    pending: if n > usize::MAX {
                        usize::MAX
                    } else {
                        n as usize
                    },
                    ..log
                })
            }),
    {
        let n: usize = change.len();
        let pending: usize = if n > usize::MAX - self.log.pending {
            usize::MAX
        } else {
            self.log.pending + n
        };
        self.log = LogState { mode: self.log.mode, pending, replayed: self.log.replayed };
    }

    /// Notes that the log was forced to disk.
    pub fn log_synced(&mut self)
        ensures
            final(self).same_but_log(old(self)),
            final(self).logged() == (LogState { pending: 0, ..old(self).logged() }),
    {
        self.log = LogState { mode: self.log.mode, pending: 0, replayed: self.log.replayed };
    }

    /// Sets when the log is forced to disk. The answer says whether it is to be forced now.
    pub fn set_wal_sync_mode(&mut self, mode: WalSyncMode) -> (r: Result<bool, VectLiteError>)
        ensures
            final(self).same_but_log(old(self)),
            ({
                let refusal = first_of(
                    old(self).write_refusal(),
                    if mode == WalSyncMode::EveryN(0) {
                        Some(Failure::InvalidFormat("WalSyncMode::EveryN must be >= 1"@))
                    } else {
                        None
                    },
                );
                match refusal {
                    Some(f) => (r matches Err(e) && e@ == f) && final(self).logged()
                        == old(self).logged(),
                    None => {
                        &&& r matches Ok(now)
                        &&& now == (stricter(old(self).logged().mode, mode)
                            && old(self).logged().pending > 0)
                        &&& final(self).logged() == (LogState { mode, ..old(self).logged() })
                    },
                }
            }),
    {
        match self.check_writable() {
            Ok(()) => {},
            Err(e) => {
                return Err(e);
            },
        }
        match mode.validate() {
            Ok(()) => {},
            Err(e) => {
                return Err(e);
            },
        }
        let stricter: bool = match (self.log.mode, mode) {
            (WalSyncMode::OnFlush, WalSyncMode::PerOp) => true,
            (WalSyncMode::OnFlush, WalSyncMode::EveryN(_)) => true,
            (WalSyncMode::EveryN(_), WalSyncMode::PerOp) => true,
            (WalSyncMode::EveryN(before), WalSyncMode::EveryN(after)) => after < before,
            _ => false,
        };
        self.log = LogState { mode, pending: self.log.pending, replayed: self.log.replayed };
        Ok(stricter && self.log.pending > 0)
    }

    /// When the log is forced to disk.
    pub fn wal_sync_mode(&self) -> (r: WalSyncMode)
        ensures
            r == self.logged().mode,
    {
        self.log.mode
    }

    /// How many changes were replayed when the database was opened.
    pub fn wal_entries_replayed(&self) -> (r: usize)
        ensures
            r == self.logged().replayed,
    {
        self.log.replayed
    }

    /// Sets the tuning of the graphs. Where it changes how graphs are built, they are rebuilt.
    pub fn set_index_config(&mut self, config: IndexConfig) -> (r: Result<Effects, VectLiteError>)
        requires
            old(self).wf(),
        ensures
            final(self).wf(),
            old(self).complete() ==> final(self).complete(),
            ({
                let refusal = first_of(
                    old(self).write_refusal(),
                    match config.defect() {
                        Some(m) => Some(Failure::InvalidFormat(m)),
                        None => None,
                    },
                );
                let changed = old(self).tuning().m != config.m
                    || old(self).tuning().ef_construction != config.ef_construction;
                match refusal {
                    Some(f) => (r matches Err(e) && e@ == f) && *final(self) == *old(self),
                    None => {
                        &&& r matches Ok(fx)
                        &&& final(self).tuning() == config
                        &&& final(self).rows() == old(self).rows()
                        &&& final(self)@ == old(self)@
                        &&& final(self).dim() == old(self).dim()
                        &&& final(self).kinds() == old(self).kinds()
                        &&& final(self).measure() == old(self).measure()
                        &&& final(self).opened() == old(self).opened()
                        &&& final(self).logged() == old(self).logged()
                        &&& final(self).terms() == old(self).terms()
                        &&& final(self).scan_state() == old(self).scan_state()
                        &&& final(self).quantizer() == old(self).quantizer()
                        &&& final(self).token_indexes() == old(self).token_indexes()
                        &&& !fx.retrain && !fx.terms_rebuilt && fx.spaces@.len() == 0
                        &&& fx.save_graphs == changed
                        &&& if changed {
                            &&& final(self).graphs() == crate::ann::rebuilt(old(self).rows())
                            &&& builds_all(
                                fx.actions@,
                                final(self).graph_list(),
                                config.parallel_insert_threshold as nat,
                            )
                            &&& final(self).flags() == (GraphFlags { loaded: false, dirty: false })
                        } else {
                            &&& final(self).graphs() == old(self).graphs()
                            &&& fx.actions@.len() == 0
                            &&& final(self).flags() == old(self).flags()
                        }
                    },
                }
            }),
    {
        match self.check_writable() {
            Ok(()) => {},
            Err(e) => {
                return Err(e);
            },
        }
        match config.validate() {
            Ok(()) => {},
            Err(e) => {
                return Err(e);
            },
        }
        let changed: bool = self.config.m != config.m || self.config.ef_construction
            != config.ef_construction;
        self.config = config;
        let mut actions: Vec<GraphAction> = Vec::new();
        if changed {
            actions = self.rebuild_graphs();
            self.ann = GraphFlags { loaded: false, dirty: false };
        }
        Ok(
            Effects {
                actions,
                terms_rebuilt: false,
                retrain: false,
                spaces: Vec::new(),
                save_graphs: changed,
            },
        )
    }

    /// The tuning of the graphs.
    pub fn index_config(&self) -> (r: IndexConfig)
        ensures
            r == self.tuning(),
    {
        self.config
    }

    /// Sets how widely the graphs of an open database are searched.
    pub fn set_ef_search(&mut self, ef_search: Option<usize>) -> (r: Result<(), VectLiteError>)
        ensures
            ({
                let refused = first_of(
                    old(self).read_refusal(),
                    if ef_search == Some(0usize) {
                        Some(Failure::InvalidFormat("ef_search must be >= 1"@))
                    } else {
                        None
                    },
                );
                match refused {
                    Some(f) => (r matches Err(e) && e@ == f) && *final(self) == *old(self),
                    None => {
                        &&& r is Ok
                        &&& final(self).tuning() == (IndexConfig {
                            ef_search,
                            ..old(self).tuning()
                        })
                        &&& final(self).same_but_tuning(old(self))
                    },
                }
            }),
    {
        match self.check_open() {
            Ok(()) => {},
            Err(e) => {
                return Err(e);
            },
        }
        if let Some(ef) = ef_search {
            if ef == 0 {
                return Err(invalid("ef_search must be >= 1"));
            }
        }
        self.config.ef_search = ef_search;
        Ok(())
    }

    /// Everything but the tuning of the graphs is as before.
    pub open(crate) spec fn same_but_tuning(&self, other: &Database) -> bool {
        &&& self.table == other.table
        &&& self.metric == other.metric
        &&& self.access == other.access
        &&& self.log == other.log
        &&& self.catalog == other.catalog
        &&& self.ann == other.ann
        &&& self.sparse == other.sparse
        &&& self.arena == other.arena
        &&& self.arena_dirty == other.arena_dirty
        &&& self.quant == other.quant
        &&& self.tokens == other.tokens
    }

    /// Everything but the payload indexes is as before.
    pub open(crate) spec fn same_but_indexes(&self, other: &Database) -> bool {
        &&& self.table.records == other.table.records
        &&& self.table.dimension == other.table.dimension
        &&& self.metric == other.metric
        &&& self.config == other.config
        &&& self.access == other.access
        &&& self.log == other.log
        &&& self.catalog == other.catalog
        &&& self.ann == other.ann
        &&& self.sparse == other.sparse
        &&& self.arena == other.arena
        &&& self.arena_dirty == other.arena_dirty
        &&& self.quant == other.quant
        &&& self.tokens == other.tokens
    }

    /// Creates an index on a metadata field, unless it has one. The answer says whether it was
    /// created.
    pub fn create_index(&mut self, field: &str, index_type: PayloadIndexType) -> (r: Result<
        bool,
        VectLiteError,
    >)
        requires
            old(self).wf(),
        ensures
            final(self).wf(),
            final(self).same_but_indexes(old(self)),
            match old(self).write_refusal() {
                Some(f) => (r matches Err(e) && e@ == f) && final(self).kinds()
                    == old(self).kinds(),
                None => {
                    &&& r matches Ok(created)
                    &&& created == !old(self).kinds().contains_key(field@)
                    &&& final(self).kinds() == if created {
                        old(self).kinds().insert(field@, index_type)
                    } else {
                        old(self).kinds()
                    }
                },
            },
    {
        match self.check_writable() {
            Ok(()) => {},
            Err(e) => {
                return Err(e);
            },
        }
        if self.table.indexes.has_field(field) {
            return Ok(false);
        }
        self.table.indexes.create(field, index_type, &self.table.records);
        Ok(true)
    }

    /// Drops the index on a metadata field. The answer says whether there was one.
    pub fn drop_index(&mut self, field: &str) -> (r: Result<bool, VectLiteError>)
        requires
            old(self).wf(),
        ensures
            final(self).wf(),
            final(self).same_but_indexes(old(self)),
            match old(self).write_refusal() {
                Some(f) => (r matches Err(e) && e@ == f) && final(self).kinds()
                    == old(self).kinds(),
                None => {
                    &&& r matches Ok(dropped)
                    &&& dropped == old(self).kinds().contains_key(field@)
                    &&& final(self).kinds() == old(self).kinds().remove(field@)
                },
            },
    {
        match self.check_writable() {
            Ok(()) => {},
            Err(e) => {
                return Err(e);
            },
        }
        if !self.table.indexes.has_field(field) {
            proof {
                assert(self.kinds().remove(field@) =~= self.kinds());
            }
            return Ok(false);
        }
        let ghost records = self@;
        self.table.indexes.delete(field, Ghost(records));
        Ok(true)
    }

    /// The index definitions, by field.
    pub open(crate) spec fn index_defs(&self) -> Seq<(Seq<char>, PayloadIndexType)> {
        self.table.indexes.defs()
    }

    /// The bytes of the file of index definitions; none where there is no index.
    pub fn index_defs_file(&self) -> (r: Result<Option<Vec<u8>>, VectLiteError>)
        ensures
            self.index_defs().len() == 0 ==> r == Ok::<Option<Vec<u8>>, VectLiteError>(None),
            self.index_defs().len() > 0 ==> if defs_fit(self.index_defs()) {
                r matches Ok(Some(b)) && b@ == enc_def_file(self.index_defs())
            } else {
                r matches Err(e) && e@ == too_long()
            },
    {
        if self.table.indexes.is_empty() {
            return Ok(None);
        }
        match self.table.indexes.encode_defs() {
            Ok(b) => Ok(Some(b)),
            Err(e) => Err(e),
        }
    }

    /// Makes sure that the main vectors are kept in one run of memory, up to date.
    pub fn prepare_for_scan(&mut self)
        requires
            old(self).wf(),
        ensures
            final(self).wf(),
            final(self).same_but_arena(old(self)),
            ({
                let (arena, dirty) = old(self).scan_state();
                let fresh = arena matches Some(a) && !dirty && a.width() == old(self).dim();
                if fresh {
                    final(self).scan_state() == old(self).scan_state()
                } else {
                    &&& final(self).scan_state().0 matches Some(b)
                    &&& b@ == arena_rows(old(self).rows(), old(self).dim())
                    &&& b.width() == old(self).dim()
                    &&& !final(self).scan_state().1
                }
            }),
    {
        let needs: bool = match &self.arena {
            Some(a) => self.arena_dirty || a.dim != self.table.dimension,
            None => true,
        };
        if needs {
            self.arena = Some(VectorArena::rebuild_from(&self.table.records, self.table.dimension));
            self.arena_dirty = false;
        }
    }

    /// Everything but the vectors in one run of memory is as before.
    pub open(crate) spec fn same_but_arena(&self, other: &Database) -> bool {
        &&& self.table == other.table
        &&& self.metric == other.metric
        &&& self.config == other.config
        &&& self.access == other.access
        &&& self.log == other.log
        &&& self.catalog == other.catalog
        &&& self.ann == other.ann
        &&& self.sparse == other.sparse
        &&& self.quant == other.quant
        &&& self.tokens == other.tokens
    }

    /// The number of vectors in one run of memory, where they are kept.
    pub fn vector_arena_len(&self) -> (r: Option<usize>)
        ensures
            match self.scan_state().0 {
                Some(a) => r == Some(a@.len() as usize) && a@.len() <= usize::MAX,
                None => r is None,
            },
    {
        match &self.arena {
            Some(a) => Some(a.len()),
            None => None,
        }
    }

    /// The numbers of live and dead entries of all graphs.
    pub fn tombstone_stats(&self) -> (r: (usize, usize))
        ensures
            r.0 == live_total(self.graph_list()),
            r.1 == dead_total(self.graph_list()),
    {
        self.catalog.totals()
    }

    /// Whether a slot has a graph. No name stands for the main vector.
    pub fn has_ann_index(&self, namespace: Option<&str>, vector_name: Option<&str>) -> (r: bool)
        ensures
            r == self.graphs().contains_key(
                (
                    crate::payload_index::opt_text(namespace),
                    match vector_name {
                        Some(n) => n@,
                        None => Seq::empty(),
                    },
                ),
            ),
    {
        self.catalog.has_ann_index(namespace, vector_name)
    }
}

} // verus!
