//! Taking in many records in batches.
use vstd::prelude::*;
use crate::change::{change_of, first_of, Change};
use crate::codec::too_long;
use crate::config::IndexConfig;
use crate::database::Database;
use crate::error::{Failure, VectLiteError};
use crate::record::{Record, RecordModel};
use crate::table::ops_dimensioned;
use crate::validation::{law_valid_record, record_defect, validate_record};
use crate::wal::{batch_fits, OpModel, WalOp};

verus! {

/// The batches of the records from position `i` on, of which `pending` stand before them, and why
/// they end early, if they do. A record that is refused ends them, and so does a batch that does
/// not fit the format of the log; what is then pending is not taken in.
pub open spec fn bulk_batches(
    ms: Seq<RecordModel>,
    i: int,
    pending: Seq<OpModel>,
    dimension: nat,
    size: nat,
) -> (Seq<Seq<OpModel>>, Option<Failure>)
    decreases ms.len() - i,
{
    if i < 0 || i >= ms.len() {
        if pending.len() == 0 {
            (Seq::empty(), None)
        } else if batch_fits(pending) {
            (seq![pending], None)
        } else {
            (Seq::empty(), Some(too_long()))
        }
    } else {
        match record_defect(ms[i], dimension, false) {
            Some(f) => (Seq::empty(), Some(f)),
            None => {
                let more = pending.push(OpModel::Upsert(ms[i]));
                if more.len() < size {
                    bulk_batches(ms, i + 1, more, dimension, size)
                } else if batch_fits(more) {
                    let (rest, end) = bulk_batches(ms, i + 1, Seq::empty(), dimension, size);
                    (seq![more] + rest, end)
                } else {
                    (Seq::empty(), Some(too_long()))
                }
            },
        }
    }
}

/// The batches of checked changes.
pub open spec fn batch_ops(changes: Seq<Change>) -> Seq<Seq<OpModel>> {
    changes.map_values(|c: Change| c@.ops)
}

/// Whether checked changes are batches of records, with the bytes of their batches, and suit the
/// dimension.
pub open spec fn whole_batches(changes: Seq<Change>, dimension: nat) -> bool {
    forall|i: int|
        0 <= i < changes.len() ==> {
            let c = (#[trigger] changes[i])@;
            &&& c == change_of(c.ops, true, c.ops.len())
            &&& c.ops.len() > 0
            &&& ops_dimensioned(c.ops, dimension)
        }
}

/// The error of a failure that may be missing.
pub open spec fn opt_failure(e: Option<VectLiteError>) -> Option<Failure> {
    match e {
        Some(x) => Some(x@),
        None => None,
    }
}

impl Database {
    /// Checks whether records can be taken in, and sets the tuning of the graphs where one is
    /// given. The graphs are rebuilt afterwards.
    pub fn begin_bulk(&mut self, config: Option<IndexConfig>) -> (r: Result<(), VectLiteError>)
        ensures
            ({
                let refusal = first_of(
                    old(self).write_refusal(),
                    match config {
                        Some(c) => match c.defect() {
                            Some(m) => Some(Failure::InvalidFormat(m)),
                            None => None,
                        },
                        None => None,
                    },
                );
                match refusal {
                    Some(f) => (r matches Err(e) && e@ == f) && *final(self) == *old(self),
                    None => {
                        &&& r is Ok
                        &&& final(self).same_but_tuning(old(self))
                        &&& final(self).tuning() == match config {
                            Some(c) => c,
                            None => old(self).tuning(),
                        }
                    },
                }
            }),
    {
        match self.check_writable() {
            Ok(()) => {},
            Err(e) => {
                return Err(e);
            },
        }
        if let Some(c) = config {
            match c.validate() {
                Ok(()) => {},
                Err(e) => {
                    return Err(e);
                },
            }
            self.config = c;
        }
        Ok(())
    }

    /// The batches of records, each to be logged and applied in turn, and why they end early, if
    /// they do. A batch size of zero means one.
    pub fn bulk_ingest(&self, records: Vec<Record>, batch_size: usize) -> (r: (
        Vec<Change>,
        Option<VectLiteError>,
    ))
        ensures
            whole_batches(r.0@, self.dim()),
            (batch_ops(r.0@), opt_failure(r.1)) == bulk_batches(
                records.deep_view(),
                0,
                Seq::empty(),
                self.dim(),
                batch_size as nat,
            ),
    {
        let ghost all = records.deep_view();
        let ghost dim = self.dim();
        let ghost size = batch_size as nat;
        let ghost want = bulk_batches(all, 0, Seq::empty(), dim, size);
        let dimension: usize = self.table.dimension;
        let mut changes: Vec<Change> = Vec::new();
        let mut pending: Vec<WalOp> = Vec::new();
        proof {
            assert(pending.deep_view() =~= Seq::<OpModel>::empty());
            assert(batch_ops(changes@) + want.0 =~= want.0);
        }
        for record in it: records
            invariant
                all == records.deep_view(),
                it.seq() == records@,
                dim == dimension,
                dim == self.dim(),
                size == batch_size,
                want == bulk_batches(all, 0, Seq::empty(), dim, size),
                whole_batches(changes@, dim),
                ops_dimensioned(pending.deep_view(), dim),
                ({
                    let rest = bulk_batches(all, it.index(), pending.deep_view(), dim, size);
                    &&& batch_ops(changes@) + rest.0 == want.0
                    &&& rest.1 == want.1
                }),
        {
            let ghost before = pending.deep_view();
            let ghost done = batch_ops(changes@);
            proof {
                assert(all[it.index()] == record@);
            }
            match validate_record(&record, dimension, false) {
                Ok(()) => {},
                Err(e) => {
                    proof {
                        assert(done + Seq::<Seq<OpModel>>::empty() =~= done);
                    }
                    return (changes, Some(e));
                },
            }
            proof {
                law_valid_record(record@, dim, false);
            }
            pending.push(WalOp::Upsert(record));
            proof {
                assert(pending.deep_view() =~= before.push(OpModel::Upsert(record@)));
            }
            if pending.len() >= batch_size {
                let n: usize = pending.len();
                let mut full: Vec<WalOp> = Vec::new();
                core::mem::swap(&mut full, &mut pending);
                let ghost ops = full.deep_view();
                match crate::change::plan(full, true, n) {
                    Ok(c) => {
                        let ghost had = changes@;
                        changes.push(c);
                        proof {
                            let rest = bulk_batches(
                                all,
                                it.index() + 1,
                                Seq::empty(),
                                dim,
                                size,
                            );
                            assert(pending.deep_view() =~= Seq::<OpModel>::empty());
                            assert(batch_ops(changes@) =~= done.push(ops));
                            assert(done + (seq![ops] + rest.0) =~= batch_ops(changes@) + rest.0);
                            assert forall|i: int| 0 <= i < changes@.len() implies ({
                                let c = (#[trigger] changes@[i])@;
                                &&& c == change_of(c.ops, true, c.ops.len())
                                &&& c.ops.len() > 0
                                &&& ops_dimensioned(c.ops, dim)
                            }) by {
                                if i < had.len() {
                                    assert(changes@[i] == had[i]);
                                }
                            }
                        }
                    },
                    Err(e) => {
                        proof {
                            assert(done + Seq::<Seq<OpModel>>::empty() =~= done);
                        }
                        return (changes, Some(e));
                    },
                }
            }
        }
        let ghost done = batch_ops(changes@);
        let ghost ops = pending.deep_view();
        if pending.len() > 0 {
            let n: usize = pending.len();
            match crate::change::plan(pending, true, n) {
                Ok(c) => {
                    let ghost had = changes@;
                    changes.push(c);
                    proof {
                        assert(batch_ops(changes@) =~= done.push(ops));
                        assert(done + seq![ops] =~= batch_ops(changes@));
                        assert forall|i: int| 0 <= i < changes@.len() implies ({
                            let c = (#[trigger] changes@[i])@;
                            &&& c == change_of(c.ops, true, c.ops.len())
                            &&& c.ops.len() > 0
                            &&& ops_dimensioned(c.ops, dim)
                        }) by {
                            if i < had.len() {
                                assert(changes@[i] == had[i]);
                            }
                        }
                    }
                },
                Err(e) => {
                    proof {
                        assert(done + Seq::<Seq<OpModel>>::empty() =~= done);
                    }
                    return (changes, Some(e));
                },
            }
        } else {
            proof {
                assert(done + Seq::<Seq<OpModel>>::empty() =~= done);
            }
        }
        (changes, None)
    }
}

} // verus!
