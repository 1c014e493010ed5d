//! Index tuning and log durability settings.
use vstd::prelude::*;
use crate::error::{invalid, Failure, VectLiteError};

verus! {

pub const ANN_MIN_POINTS: usize = 32;

pub const ANN_SEARCH_MIN_POINTS: usize = 128;

pub const ANN_OVERSAMPLE: usize = 8;

pub const ANN_MIN_CANDIDATES: usize = 64;

pub const ANN_M: usize = 16;

pub const ANN_EF_CONSTRUCTION: usize = 200;

/// From this many points on, a graph is filled in parallel.
pub const ANN_PARALLEL_INSERT_THRESHOLD: usize = 256;

/// Tuning of the neighbour graphs.
#[derive(Clone, Copy, Debug, PartialEq, Eq, Structural)]
pub struct IndexConfig {
    /// Links per node.
    pub m: usize,
    /// Search width during construction.
    pub ef_construction: usize,
    /// Search width of a query; `None` derives it from the number of wanted results.
    pub ef_search: Option<usize>,
    /// From this many points on, insertion is parallel.
    pub parallel_insert_threshold: usize,
    /// The percentage of dead nodes at which compaction rebuilds a graph.
    pub tombstone_rebuild_pct: u8,
}

impl Default for IndexConfig {
    fn default() -> (r: Self)
        ensures
            r == (IndexConfig {
                m: 16,
                ef_construction: 200,
                ef_search: None,
                parallel_insert_threshold: 256,
                tombstone_rebuild_pct: 30,
            }),
    {
        IndexConfig {
            m: ANN_M,
            ef_construction: ANN_EF_CONSTRUCTION,
            ef_search: None,
            parallel_insert_threshold: ANN_PARALLEL_INSERT_THRESHOLD,
            tombstone_rebuild_pct: 30,
        }
    }
}

impl IndexConfig {
    /// Settings for higher recall at the cost of time.
    pub fn high_recall() -> (r: Self)
        ensures
            r == (IndexConfig {
                m: 32,
                ef_construction: 400,
                ef_search: Some(200),
                parallel_insert_threshold: 256,
                tombstone_rebuild_pct: 30,
            }),
    {
        IndexConfig {
            m: 32,
            ef_construction: 400,
            ef_search: Some(200),
            parallel_insert_threshold: ANN_PARALLEL_INSERT_THRESHOLD,
            tombstone_rebuild_pct: 30,
        }
    }

    /// Settings for fast builds and low latency.
    pub fn fast() -> (r: Self)
        ensures
            r == (IndexConfig {
                m: 8,
                ef_construction: 100,
                ef_search: Some(40),
                parallel_insert_threshold: 256,
                tombstone_rebuild_pct: 30,
            }),
    {
        IndexConfig {
            m: 8,
            ef_construction: 100,
            ef_search: Some(40),
            parallel_insert_threshold: ANN_PARALLEL_INSERT_THRESHOLD,
            tombstone_rebuild_pct: 30,
        }
    }

    /// The first rule that the settings break.
    pub open spec fn defect(self) -> Option<Seq<char>> {
        if self.m == 0 {
            Some("IndexConfig.m must be >= 1"@)
        } else if self.ef_construction == 0 {
            Some("IndexConfig.ef_construction must be >= 1"@)
        } else if self.ef_search == Some(0usize) {
            Some("IndexConfig.ef_search must be >= 1 when set"@)
        } else if self.tombstone_rebuild_pct > 100 {
            Some("IndexConfig.tombstone_rebuild_pct must be in 0..=100"@)
        } else {
            None
        }
    }

    /// Checks the settings.
    pub fn validate(&self) -> (r: Result<(), VectLiteError>)
        ensures
            match self.defect() {
                None => r is Ok,
                Some(m) => r matches Err(e) && e@ == Failure::InvalidFormat(m),
            },
    {
        if self.m == 0 {
            return Err(invalid("IndexConfig.m must be >= 1"));
        }
        if self.ef_construction == 0 {
            return Err(invalid("IndexConfig.ef_construction must be >= 1"));
        }
        if let Some(ef) = self.ef_search {
            if ef == 0 {
                return Err(invalid("IndexConfig.ef_search must be >= 1 when set"));
            }
        }
        if self.tombstone_rebuild_pct > 100 {
            return Err(invalid("IndexConfig.tombstone_rebuild_pct must be in 0..=100"));
        }
        Ok(())
    }
}

/// When the log is forced to disk.
#[derive(Clone, Copy, Debug, PartialEq, Eq, Structural)]
pub enum WalSyncMode {
    /// After every append.
    PerOp,
    /// Once `n` operations have been appended since the last time.
    EveryN(usize),
    /// Only when the database is flushed, compacted or closed.
    OnFlush,
}

impl Default for WalSyncMode {
    fn default() -> (r: Self)
        ensures
            r == WalSyncMode::PerOp,
    {
        WalSyncMode::PerOp
    }
}

impl WalSyncMode {
    /// Checks the mode.
    pub fn validate(self) -> (r: Result<(), VectLiteError>)
        ensures
            self != WalSyncMode::EveryN(0) ==> r is Ok,
            self == WalSyncMode::EveryN(0) ==> (r matches Err(e) && e@ == Failure::InvalidFormat(
                "WalSyncMode::EveryN must be >= 1"@,
            )),
    {
        match self {
            WalSyncMode::EveryN(n) => {
                if n == 0 {
                    return Err(invalid("WalSyncMode::EveryN must be >= 1"));
                }
                Ok(())
            },
            _ => Ok(()),
        }
    }
}

/// The decision for an append: whether to force the log to disk, and the number of operations
/// that are then not known to be on disk.
pub open spec fn sync_decision(mode: WalSyncMode, pending: nat, appended: nat) -> (bool, nat) {
    let total = if pending + appended > usize::MAX {
        usize::MAX as nat
    } else {
        pending + appended
    };
    match mode {
        WalSyncMode::PerOp => (true, pending),
        WalSyncMode::EveryN(n) => if total >= n {
            (true, 0)
        } else {
            (false, total)
        },
        WalSyncMode::OnFlush => (false, total),
    }
}

/// Decides whether an append forces the log to disk.
pub fn decide_sync(mode: WalSyncMode, pending: usize, appended: usize) -> (r: (bool, usize))
    ensures
        r.0 == sync_decision(mode, pending as nat, appended as nat).0,
        r.1 == sync_decision(mode, pending as nat, appended as nat).1,
{
    let total: usize = if appended > usize::MAX - pending {
        usize::MAX
    } else {
        pending + appended
    };
    match mode {
        WalSyncMode::PerOp => (true, pending),
        WalSyncMode::EveryN(n) => {
            if total >= n {
                (true, 0)
            } else {
                (false, total)
            }
        },
        WalSyncMode::OnFlush => (false, total),
    }
}

/// In the mode `EveryN(n)` fewer than `n` operations are ever not forced to disk.
pub proof fn law_every_n_bound(n: usize, pending: nat, appended: nat)
    requires
        n >= 1,
    ensures
        sync_decision(WalSyncMode::EveryN(n), pending, appended).1 < n,
{
}

} // verus!
