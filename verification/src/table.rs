//! The records of a database with their indexes, and the changes applied to them.
use vstd::prelude::*;
use crate::filter::{accepts, MetadataFilter};
use crate::metadata::{Metadata, ValueModel};
use crate::order::{same_text, Duplicate, Key};
use crate::ordered_map::{
    ascending, has_key, insert_pair, lemma_ascending_unique, lemma_map_of_at, map_of, position_of,
    OrderedMap,
};
use crate::ordered_set::OrderedSet;
use crate::payload_index::{
    index_candidates, key_in, law_candidates_complete, opt_text, KeySet, PayloadIndexType,
    PayloadIndexes,
};
use crate::record::{key_before, KeyModel, Record, RecordKey, RecordModel};
use crate::record_codec::record_dimensioned;
use crate::snapshot::Records;
use crate::text::{concat3, first_index, lemma_first_index, split_once_text};
use crate::wal::{OpModel, WalOp};

verus! {

/// Metadata after setting the entries of `patch`, in their order.
pub open spec fn merged(
    pairs: Seq<(Seq<char>, ValueModel)>,
    patch: Seq<(Seq<char>, ValueModel)>,
) -> Seq<(Seq<char>, ValueModel)>
    decreases patch.len(),
{
    if patch.len() == 0 {
        pairs
    } else {
        insert_pair::<String, ValueModel>(
            merged(pairs, patch.drop_last()),
            patch.last().0,
            patch.last().1,
        )
    }
}

/// The records after a change. Changes to the metadata or the expiry time of a record that is not
/// there are ignored.
pub open spec fn apply_op(
    records: Map<KeyModel, RecordModel>,
    op: OpModel,
) -> Map<KeyModel, RecordModel> {
    match op {
        OpModel::Upsert(m) => records.insert(m.key(), m),
        OpModel::Delete(k) => records.remove(k),
        OpModel::UpdateMetadata(k, patch) => if records.contains_key(k) {
            records.insert(
                k,
                RecordModel { metadata: merged(records[k].metadata, patch), ..records[k] },
            )
        } else {
            records
        },
        OpModel::SetTtl(k, expires_at) => if records.contains_key(k) {
            records.insert(k, RecordModel { expires_at, ..records[k] })
        } else {
            records
        },
    }
}

/// The records after changes, one after the other.
pub open spec fn apply_ops(
    records: Map<KeyModel, RecordModel>,
    ops: Seq<OpModel>,
) -> Map<KeyModel, RecordModel>
    decreases ops.len(),
{
    if ops.len() == 0 {
        records
    } else {
        apply_op(apply_ops(records, ops.drop_last()), ops.last())
    }
}

/// Whether the vectors of a logged record suit the dimension.
pub open spec fn op_dimensioned(op: OpModel, dimension: nat) -> bool {
    op matches OpModel::Upsert(m) ==> record_dimensioned(m, dimension)
}

/// Whether the vectors of all logged records suit the dimension.
pub open spec fn ops_dimensioned(ops: Seq<OpModel>, dimension: nat) -> bool {
    forall|i: int| 0 <= i < ops.len() ==> op_dimensioned(#[trigger] ops[i], dimension)
}

/// Records with their indexes.
pub struct Table {
    pub(crate) dimension: usize,
    pub(crate) records: Records,
    pub(crate) indexes: PayloadIndexes,
}

/// Whether a record is at its key and suits the dimension.
pub open spec fn entry_valid(entry: (KeyModel, RecordModel), dimension: nat) -> bool {
    &&& entry.0 == entry.1.key()
    &&& record_dimensioned(entry.1, dimension)
}

/// Whether every record is at its key and suits the dimension.
pub open spec fn records_valid(records: Map<KeyModel, RecordModel>, dimension: nat) -> bool {
    forall|k: KeyModel| #[trigger]
        records.contains_key(k) ==> entry_valid((k, records[k]), dimension)
}

fn merge_into(metadata: &Metadata, patch: &Metadata) -> (r: Metadata)
    ensures
        r.pairs() == merged(metadata.pairs(), patch.pairs()),
{
    let mut out = metadata.duplicate();
    let ghost all = patch.pairs();
    let mut i: usize = 0;
    proof {
        assert(all.take(0) =~= Seq::empty());
    }
    while i < patch.len()
        invariant
            i <= all.len(),
            all == patch.pairs(),
            out.pairs() == merged(metadata.pairs(), all.take(i as int)),
        decreases all.len() - i,
    {
        let k = patch.key_at(i).clone();
        let v = patch.value_at(i).duplicate();
        out.insert(k, v);
        proof {
            assert(all.take(i + 1).drop_last() =~= all.take(i as int));
            assert(all.take(i + 1).last() == all[i as int]);
        }
        i += 1;
    }
    proof {
        assert(all.take(i as int) =~= all);
    }
    out
}

impl Table {
    /// The dimension of the main vectors.
    pub open(crate) spec fn dim(self) -> nat {
        self.dimension as nat
    }

    /// The records by key.
    pub open(crate) spec fn view(self) -> Map<KeyModel, RecordModel> {
        self.records@
    }

    /// The records in key order.
    pub open(crate) spec fn rows(self) -> Seq<(KeyModel, RecordModel)> {
        self.records.pairs()
    }

    /// The kinds of the indexes.
    pub open(crate) spec fn kinds(self) -> Map<Seq<char>, PayloadIndexType> {
        self.indexes.kinds()
    }

    pub open(crate) spec fn wf(self) -> bool {
        &&& self.indexes.consistent(self.records@)
        &&& records_valid(self.records@, self.dimension as nat)
    }

    /// An empty table.
    pub fn new(dimension: usize) -> (r: Self)
        ensures
            r.wf(),
            r.dim() == dimension,
            r@ == Map::<KeyModel, RecordModel>::empty(),
            r.rows() == Seq::<(KeyModel, RecordModel)>::empty(),
            r.kinds() == Map::<Seq<char>, PayloadIndexType>::empty(),
    {
        Table { dimension, records: OrderedMap::new(), indexes: PayloadIndexes::new() }
    }

    fn upsert_record(&mut self, record: Record)
        requires
            old(self).wf(),
            record_dimensioned(record@, old(self).dim()),
        ensures
            final(self).wf(),
            final(self).dim() == old(self).dim(),
            final(self).kinds() == old(self).kinds(),
            final(self)@ == old(self)@.insert(record@.key(), record@),
    {
        let ghost before = self@;
        let key = record.key();
        let ghost k = key.deep_view();
        if let Some(existing) = self.records.lookup(&key) {
            self.indexes.drop_record(&key, &existing.metadata, Ghost(before));
        } else {
            proof {
                assert(before.remove(k) =~= before);
            }
        }
        self.indexes.add_record(&key, &record.metadata, Ghost(before.remove(k)));
        proof {
            assert(before.remove(k).insert(k, record@) =~= before.insert(k, record@));
        }
        self.records.put(key, record);
    }

    fn delete_record(&mut self, key: &RecordKey)
        requires
            old(self).wf(),
        ensures
            final(self).wf(),
            final(self).dim() == old(self).dim(),
            final(self).kinds() == old(self).kinds(),
            final(self)@ == old(self)@.remove(key.deep_view()),
    {
        let ghost before = self@;
        if let Some(existing) = self.records.lookup(key) {
            self.indexes.drop_record(key, &existing.metadata, Ghost(before));
        } else {
            proof {
                assert(before.remove(key.deep_view()) =~= before);
            }
        }
        self.records.take(key);
    }

    fn patch_record(&mut self, key: &RecordKey, patch: &Metadata)
        requires
            old(self).wf(),
        ensures
            final(self).wf(),
            final(self).dim() == old(self).dim(),
            final(self).kinds() == old(self).kinds(),
            final(self)@ == apply_op(
                old(self)@,
                OpModel::UpdateMetadata(key.deep_view(), patch.pairs()),
            ),
    {
        let ghost before = self@;
        let ghost k = key.deep_view();
        match self.records.take(key) {
            None => {
                proof {
                    assert(before.remove(k) =~= before);
                }
            },
            Some(mut record) => {
                let ghost old_model = record@;
                self.indexes.drop_record(key, &record.metadata, Ghost(before));
                record.metadata = merge_into(&record.metadata, patch);
                self.indexes.add_record(key, &record.metadata, Ghost(before.remove(k)));
                proof {
                    assert(before.remove(k).insert(k, record@) =~= before.insert(k, record@));
                    assert(entry_valid((k, before[k]), self.dimension as nat));
                    assert(record@ == (RecordModel {
                        metadata: merged(old_model.metadata, patch.pairs()),
                        ..old_model
                    }));
                }
                self.records.put(key.duplicate(), record);
            },
        }
    }

    fn expire_record(&mut self, key: &RecordKey, expires_at: Option<u64>)
        requires
            old(self).wf(),
        ensures
            final(self).wf(),
            final(self).dim() == old(self).dim(),
            final(self).kinds() == old(self).kinds(),
            final(self)@ == apply_op(old(self)@, OpModel::SetTtl(key.deep_view(), expires_at)),
    {
        let ghost before = self@;
        let ghost k = key.deep_view();
        match self.records.take(key) {
            None => {
                proof {
                    assert(before.remove(k) =~= before);
                }
            },
            Some(mut record) => {
                let ghost old_model = record@;
                record.expires_at = expires_at;
                proof {
                    self.indexes.lemma_same_metadata(before, k, record@);
                    assert(before.remove(k).insert(k, record@) =~= before.insert(k, record@));
                    assert(entry_valid((k, before[k]), self.dimension as nat));
                    assert(record@ == (RecordModel { expires_at, ..old_model }));
                }
                self.records.put(key.duplicate(), record);
            },
        }
    }

    /// Applies changes, one after the other.
    pub fn apply_ops_in_memory(&mut self, ops: Vec<WalOp>)
        requires
            old(self).wf(),
            ops_dimensioned(ops.deep_view(), old(self).dim()),
        ensures
            final(self).wf(),
            final(self).dim() == old(self).dim(),
            final(self).kinds() == old(self).kinds(),
            final(self)@ == apply_ops(old(self)@, ops.deep_view()),
    {
        let ghost all = ops.deep_view();
        let ghost start = self@;
        proof {
            assert(all.take(0) =~= Seq::empty());
        }
        for op in it: ops
            invariant
                all == ops.deep_view(),
                it.seq() == ops@,
                self.wf(),
                self.dim() == old(self).dim(),
                self.kinds() == old(self).kinds(),
                start == old(self)@,
                ops_dimensioned(all, old(self).dim()),
                self@ == apply_ops(start, all.take(it.index())),
        {
            proof {
                let at = it.index();
                assert(all[at] == op.deep_view());
                assert(all.take(at + 1).drop_last() =~= all.take(at));
                assert(all.take(at + 1).last() == all[at]);
                assert(op_dimensioned(all[at], old(self).dim()));
            }
            self.apply_one(op);
        }
        proof {
            assert(all.take(all.len() as int) =~= all);
        }
    }

    fn apply_one(&mut self, op: WalOp)
        requires
            old(self).wf(),
            op_dimensioned(op.deep_view(), old(self).dim()),
        ensures
            final(self).wf(),
            final(self).dim() == old(self).dim(),
            final(self).kinds() == old(self).kinds(),
            final(self)@ == apply_op(old(self)@, op.deep_view()),
    {
        match op {
            WalOp::Upsert(record) => self.upsert_record(record),
            WalOp::Delete { namespace, id } => {
                let key = (namespace, id);
                self.delete_record(&key);
            },
            WalOp::UpdateMetadata { namespace, id, metadata } => {
                let key = (namespace, id);
                self.patch_record(&key, &metadata);
            },
            WalOp::SetTtl { namespace, id, expires_at } => {
                let key = (namespace, id);
                self.expire_record(&key, expires_at);
            },
        }
    }
}

/// Whether a record is shown: it is not expired, in the namespace and accepted by the filter,
/// where these are given.
pub open(crate) spec fn shown(
    namespace: Option<Seq<char>>,
    filter: Option<MetadataFilter>,
    now: u64,
    k: KeyModel,
    m: RecordModel,
) -> bool {
    &&& !m.expired(now)
    &&& key_in(namespace, k)
    &&& match filter {
        Some(f) => accepts(f, m.metadata),
        None => true,
    }
}

/// The records that are shown, in key order.
pub open(crate) spec fn selected(
    rows: Seq<(KeyModel, RecordModel)>,
    namespace: Option<Seq<char>>,
    filter: Option<MetadataFilter>,
    now: u64,
) -> Seq<(KeyModel, RecordModel)> {
    rows.filter(|p: (KeyModel, RecordModel)| shown(namespace, filter, now, p.0, p.1))
}

/// The mathematical value of an optional filter.
pub open spec fn opt_filter(filter: Option<&MetadataFilter>) -> Option<MetadataFilter> {
    match filter {
        Some(f) => Some(*f),
        None => None,
    }
}

/// Strictly ascending positions that are exactly those where `keep` holds.
pub open spec fn positions_where(
    positions: Seq<usize>,
    n: int,
    keep: spec_fn(int) -> bool,
) -> bool {
    &&& forall|i: int, j: int|
        #![trigger positions[i], positions[j]]
        0 <= i < j < positions.len() ==> positions[i] < positions[j]
    &&& forall|i: int| 0 <= i < positions.len() ==> (#[trigger] positions[i]) < n && keep(
        positions[i] as int,
    )
    &&& forall|p: int|
        0 <= p < n && #[trigger] keep(p) ==> exists|i: int|
            0 <= i < positions.len() && #[trigger] positions[i] == p
}

/// The rows at such positions are the rows that a filter keeps.
proof fn lemma_positions_filter<A>(
    rows: Seq<A>,
    positions: Seq<usize>,
    keep: spec_fn(int) -> bool,
    pred: spec_fn(A) -> bool,
)
    requires
        positions_where(positions, rows.len() as int, keep),
        forall|p: int| 0 <= p < rows.len() ==> #[trigger] keep(p) == pred(rows[p]),
    ensures
        Seq::new(positions.len(), |i: int| rows[positions[i] as int]) == rows.filter(pred),
    decreases rows.len(),
{
    reveal(Seq::filter);
    let out = Seq::new(positions.len(), |i: int| rows[positions[i] as int]);
    if rows.len() == 0 {
        if positions.len() > 0 {
            assert(positions[0] < 0);
        }
        assert(out =~= rows.filter(pred));
    } else {
        let last = rows.len() - 1;
        let shorter = rows.drop_last();
        assert(forall|p: int| 0 <= p < shorter.len() ==> shorter[p] == rows[p]);
        if pred(rows.last()) {
            assert(keep(last));
            let at = choose|i: int| 0 <= i < positions.len() && #[trigger] positions[i] == last;
            let pl = positions.len() - 1;
            assert(at == pl) by {
                if at < pl {
                    assert(positions[at] < positions[pl]);
                }
            }
            let init = positions.drop_last();
            assert(positions_where(init, last, keep)) by {
                assert forall|i: int| 0 <= i < init.len() implies (#[trigger] init[i]) < last
                    && keep(init[i] as int) by {
                    assert(positions[i] < positions[pl]);
                }
                assert forall|p: int| 0 <= p < last && #[trigger] keep(p) implies exists|i: int|
                    0 <= i < init.len() && #[trigger] init[i] == p by {
                    let i = choose|i: int| 0 <= i < positions.len() && #[trigger] positions[i] == p;
                    assert(init[i] == p);
                }
            }
            lemma_positions_filter(shorter, init, keep, pred);
            let part = Seq::new(init.len(), |i: int| shorter[init[i] as int]);
            assert(out =~= part.push(rows.last())) by {
                assert forall|i: int| 0 <= i < init.len() implies out[i] == part[i] by {
                    assert(positions[i] < positions[pl]);
                }
            }
        } else {
            assert(positions_where(positions, last, keep)) by {
                assert forall|i: int| 0 <= i < positions.len() implies (#[trigger] positions[i])
                    < last && keep(positions[i] as int) by {
                    assert(positions[i] < rows.len());
                    if positions[i] == last {
                        assert(keep(last));
                    }
                }
            }
            lemma_positions_filter(shorter, positions, keep, pred);
            let part = Seq::new(positions.len(), |i: int| shorter[positions[i] as int]);
            assert(out =~= part) by {
                assert forall|i: int| 0 <= i < positions.len() implies out[i] == part[i] by {
                    assert(positions[i] < rows.len());
                    if positions[i] == last {
                        assert(keep(last));
                    }
                }
            }
        }
    }
}

impl Table {
    fn row_shown(
        &self,
        at: usize,
        namespace: Option<&str>,
        filter: Option<&MetadataFilter>,
        now: u64,
    ) -> (r: bool)
        requires
            at < self.rows().len(),
        ensures
            r == shown(
                opt_text(namespace),
                opt_filter(filter),
                now,
                self.rows()[at as int].0,
                self.rows()[at as int].1,
            ),
    {
        let record = self.records.value_at(at);
        if record.is_expired_at(now) {
            return false;
        }
        if let Some(ns) = namespace {
            if !same_text(self.records.key_at(at).0.as_str(), ns) {
                return false;
            }
        }
        match filter {
            Some(f) => f.matches(&record.metadata),
            None => true,
        }
    }

    /// The positions of the records that are shown.
    pub(crate) fn shown_positions(
        &self,
        namespace: Option<&str>,
        filter: Option<&MetadataFilter>,
        now: u64,
    ) -> (r: Vec<usize>)
        requires
            self.wf(),
        ensures
            positions_where(
                r@,
                self.rows().len() as int,
                |p: int|
                    shown(
                        opt_text(namespace),
                        opt_filter(filter),
                        now,
                        self.rows()[p].0,
                        self.rows()[p].1,
                    ),
            ),
    {
        proof {
            use_type_invariant(&self.records);
            self.records.lemma_pairs_ascending();
        }
        let ghost rows = self.rows();
        let ghost keep = |p: int|
            shown(
                opt_text(namespace),
                opt_filter(filter),
                now,
                rows[p].0,
                rows[p].1,
            );
        let singled: Option<KeySet> = match filter {
            Some(f) => self.indexes.candidates(f, namespace, Ghost(self@)),
            None => None,
        };
        let mut out: Vec<usize> = Vec::new();
        match singled {
            Some(keys) => {
                let mut i: usize = 0;
                proof {
                    use_type_invariant(&keys.map);
                    keys.map.lemma_pairs_ascending();
                }
                while i < keys.len()
                    invariant
                        i <= keys.items().len(),
                        rows == self.rows(),
                        self.wf(),
                        filter is Some,
                        ascending::<(String, String), RecordModel>(rows),
                        ascending::<(String, String), bool>(keys.map.pairs()),
                        index_candidates(
                            self.kinds(),
                            self@,
                            *filter->Some_0,
                            opt_text(namespace),
                        ) == Some(keys@),
                        keep == (|p: int|
                            shown(
                                opt_text(namespace),
                                opt_filter(filter),
                                now,
                                rows[p].0,
                                rows[p].1,
                            )),
                        forall|a: int, b: int|
                            #![trigger out@[a], out@[b]]
                            0 <= a < b < out@.len() ==> out@[a] < out@[b],
                        forall|a: int|
                            0 <= a < out@.len() ==> (#[trigger] out@[a]) < rows.len() && keep(
                                out@[a] as int,
                            ),
                        forall|a: int|
                            0 <= a < out@.len() ==> exists|j: int|
                                0 <= j < i && #[trigger] keys.items()[j] == rows[(
                                #[trigger] out@[a]) as int].0,
                        forall|p: int, j: int|
                            0 <= p < rows.len() && keep(p) && 0 <= j < i
                                && #[trigger] keys.items()[j] == (#[trigger] rows[p]).0
                                ==> exists|a: int| 0 <= a < out@.len() && #[trigger] out@[a] == p,
                    decreases keys.items().len() - i,
                {
                    let ghost before = out@;
                    let key = keys.at(i);
                    let (found, at) = self.records.locate(key);
                    let ghost kv = key.deep_view();
                    if found {
                        let show: bool = self.row_shown(at, namespace, filter, now);
                        proof {
                            assert(rows[at as int].0 == kv);
                            assert(keys@.contains(kv));
                            assert(show == keep(at as int));
                        }
                        if show {
                            proof {
                                assert forall|a: int| 0 <= a < before.len() implies (
                                #[trigger] before[a]) < at by {
                                    let j = choose|j: int|
                                        0 <= j < i && #[trigger] keys.items()[j]
                                            == rows[before[a] as int].0;
                                    let p = before[a] as int;
                                    assert(keys.map.pairs()[j].0 == rows[p].0);
                                    assert(keys.map.pairs()[i as int].0 == kv);
                                    assert(<(String, String) as Key>::before(rows[p].0, kv));
                                    if p > at {
                                        assert(<(String, String) as Key>::before(
                                            rows[at as int].0,
                                            rows[p].0,
                                        ));
                                        <(String, String) as Key>::lemma_transitive(
                                            kv,
                                            rows[p].0,
                                            kv,
                                        );
                                    }
                                    <(String, String) as Key>::lemma_irreflexive(kv);
                                }
                            }
                            out.push(at);
                        }
                    }
                    proof {
                        assert forall|a: int| 0 <= a < out@.len() implies exists|j: int|
                            0 <= j < i + 1 && #[trigger] keys.items()[j] == rows[(
                            #[trigger] out@[a]) as int].0 by {
                            if a < before.len() {
                                let j = choose|j: int|
                                    0 <= j < i && #[trigger] keys.items()[j]
                                        == rows[before[a] as int].0;
                                assert(out@[a] == before[a]);
                                assert(0 <= j < i + 1 && keys.items()[j] == rows[out@[a] as int].0);
                            } else {
                                assert(keys.items()[i as int] == rows[out@[a] as int].0);
                            }
                        }
                        assert forall|p: int, j: int|
                            0 <= p < rows.len() && keep(p) && 0 <= j < i + 1
                                && #[trigger] keys.items()[j] == (
                            #[trigger] rows[p]).0 implies exists|a: int|
                            0 <= a < out@.len() && #[trigger] out@[a] == p by {
                            if j < i {
                                let a = choose|a: int|
                                    0 <= a < before.len() && #[trigger] before[a] == p;
                                assert(out@[a] == p);
                            } else {
                                assert(has_key(rows, kv));
                                assert(self@.contains_key(kv));
                                assert(found);
                                lemma_ascending_unique::<(String, String), RecordModel>(
                                    rows,
                                    p,
                                    at as int,
                                );
                                assert(out@[out@.len() - 1] == p);
                            }
                        }
                    }
                    i += 1;
                }
                proof {
                    assert forall|p: int|
                        0 <= p < rows.len() && #[trigger] keep(p) implies exists|a: int|
                        0 <= a < out@.len() && #[trigger] out@[a] == p by {
                        lemma_map_of_at::<(String, String), RecordModel>(rows, p);
                        law_candidates_complete(
                            self.kinds(),
                            self@,
                            *filter->Some_0,
                            opt_text(namespace),
                            rows[p].0,
                        );
                        assert(keys@.contains(rows[p].0));
                        keys.lemma_position(rows[p].0);
                        let j = choose|j: int|
                            0 <= j < keys.items().len() && keys.items()[j] == rows[p].0;
                        assert(keys.items()[j] == rows[p].0);
                    }
                }
            },
            None => {
                let mut i: usize = 0;
                while i < self.records.len()
                    invariant
                        i <= rows.len(),
                        rows == self.rows(),
                        keep == (|p: int|
                            shown(
                                opt_text(namespace),
                                opt_filter(filter),
                                now,
                                rows[p].0,
                                rows[p].1,
                            )),
                        forall|a: int, b: int|
                            #![trigger out@[a], out@[b]]
                            0 <= a < b < out@.len() ==> out@[a] < out@[b],
                        forall|a: int|
                            0 <= a < out@.len() ==> (#[trigger] out@[a]) < i && keep(
                                out@[a] as int,
                            ),
                        forall|p: int|
                            0 <= p < i && #[trigger] keep(p) ==> exists|a: int|
                                0 <= a < out@.len() && #[trigger] out@[a] == p,
                    decreases rows.len() - i,
                {
                    let ghost before = out@;
                    let show: bool = self.row_shown(i, namespace, filter, now);
                    proof {
                        assert(show == keep(i as int));
                    }
                    if show {
                        out.push(i);
                    }
                    proof {
                        assert forall|p: int| 0 <= p < i + 1 && #[trigger] keep(p) implies exists|
                            a: int,
                        |
                            0 <= a < out@.len() && #[trigger] out@[a] == p by {
                            if p < i {
                                let a = choose|a: int|
                                    0 <= a < before.len() && #[trigger] before[a] == p;
                                assert(out@[a] == p);
                            } else {
                                assert(out@[out@.len() - 1] == p);
                            }
                        }
                    }
                    i += 1;
                }
            },
        }
        out
    }
}

/// The records of rows.
pub open spec fn models(rows: Seq<(KeyModel, RecordModel)>) -> Seq<RecordModel> {
    Seq::new(rows.len(), |i: int| rows[i].1)
}

/// The part of `s` after `offset` elements, cut to `limit` elements where `limit` is not zero.
pub open spec fn page<A>(s: Seq<A>, limit: nat, offset: nat) -> Seq<A> {
    let rest = if offset >= s.len() {
        Seq::empty()
    } else {
        s.skip(offset as int)
    };
    if limit == 0 || limit >= rest.len() {
        rest
    } else {
        rest.take(limit as int)
    }
}

/// The key that a cursor stands for: the parts before and after its first NUL, or an id in the
/// default namespace.
pub open spec fn cursor_key(cursor: Seq<char>) -> KeyModel {
    if cursor.contains('\0') {
        let i = first_index(cursor, '\0') as int;
        (cursor.take(i), cursor.skip(i + 1))
    } else {
        (Seq::empty(), cursor)
    }
}

/// The cursor of a key.
pub open spec fn key_cursor(k: KeyModel) -> Seq<char> {
    k.0 + seq!['\0'] + k.1
}

/// A cursor leads back to its key; a namespace with a NUL has no such cursor.
pub proof fn law_cursor_roundtrip(k: KeyModel)
    requires
        !k.0.contains('\0'),
    ensures
        cursor_key(key_cursor(k)) == k,
{
    let c = key_cursor(k);
    let n = k.0.len() as int;
    assert(c[n] == '\0');
    lemma_first_index(c, '\0');
    let i = first_index(c, '\0') as int;
    if i < n {
        assert(c[i] == k.0[i]);
    }
    assert(i == n);
    assert(c.take(n) =~= k.0);
    assert(c.skip(n + 1) =~= k.1);
}

/// The rows after a key, where one is given.
pub open spec fn rows_after(
    rows: Seq<(KeyModel, RecordModel)>,
    after: Option<KeyModel>,
) -> Seq<(KeyModel, RecordModel)> {
    match after {
        None => rows,
        Some(k) => rows.filter(|p: (KeyModel, RecordModel)| key_before(k, p.0)),
    }
}

/// The records after a key that are shown.
pub open(crate) spec fn following(
    rows: Seq<(KeyModel, RecordModel)>,
    namespace: Option<Seq<char>>,
    filter: Option<MetadataFilter>,
    now: u64,
    after: Option<KeyModel>,
) -> Seq<(KeyModel, RecordModel)> {
    rows_after(rows, after).filter(
        |p: (KeyModel, RecordModel)| shown(namespace, filter, now, p.0, p.1),
    )
}

/// The page size that a limit stands for.
pub open spec fn page_size(limit: nat) -> nat {
    if limit == 0 {
        100
    } else {
        limit
    }
}

/// Filtering a sequence that has one more element.
pub proof fn lemma_filter_push<A>(s: Seq<A>, x: A, pred: spec_fn(A) -> bool)
    ensures
        s.push(x).filter(pred) == if pred(x) {
            s.filter(pred).push(x)
        } else {
            s.filter(pred)
        },
{
    reveal(Seq::filter);
    assert(s.push(x).drop_last() =~= s);
}

/// A filter that drops everything in front and keeps everything behind.
proof fn lemma_filter_suffix<A>(s: Seq<A>, n: int, pred: spec_fn(A) -> bool)
    requires
        0 <= n <= s.len(),
        forall|i: int| 0 <= i < n ==> !pred(#[trigger] s[i]),
        forall|i: int| n <= i < s.len() ==> pred(#[trigger] s[i]),
    ensures
        s.filter(pred) == s.skip(n),
    decreases s.len(),
{
    reveal(Seq::filter);
    if s.len() == 0 {
        assert(s.skip(n) =~= s);
    } else {
        let t = s.drop_last();
        assert(forall|i: int| 0 <= i < t.len() ==> t[i] == s[i]);
        if n == s.len() {
            lemma_filter_suffix(t, n - 1, pred);
            assert(!pred(s[s.len() - 1]));
            assert(t.skip(n - 1) =~= s.skip(n));
        } else {
            lemma_filter_suffix(t, n, pred);
            assert(pred(s[s.len() - 1]));
            assert(s.skip(n) =~= t.skip(n).push(s.last()));
        }
    }
}

impl Table {
    /// The number of records that are shown.
    pub fn count_filtered(
        &self,
        namespace: Option<&str>,
        filter: Option<&MetadataFilter>,
        now: u64,
    ) -> (r: usize)
        requires
            self.wf(),
        ensures
            r == selected(
                self.rows(),
                opt_text(namespace),
                opt_filter(filter),
                now,
            ).len(),
    {
        let positions = self.shown_positions(namespace, filter, now);
        proof {
            self.lemma_selected(positions@, opt_text(namespace), opt_filter(filter), now);
        }
        positions.len()
    }

    proof fn lemma_selected(
        self,
        positions: Seq<usize>,
        namespace: Option<Seq<char>>,
        filter: Option<MetadataFilter>,
        now: u64,
    )
        requires
            positions_where(
                positions,
                self.rows().len() as int,
                |p: int|
                    shown(
                        namespace,
                        filter,
                        now,
                        self.rows()[p].0,
                        self.rows()[p].1,
                    ),
            ),
        ensures
            Seq::new(positions.len(), |i: int| self.rows()[positions[i] as int]) == selected(
                self.rows(),
                namespace,
                filter,
                now,
            ),
    {
        let keep = |p: int|
            shown(
                namespace,
                filter,
                now,
                self.rows()[p].0,
                self.rows()[p].1,
            );
        let pred = |p: (KeyModel, RecordModel)|
            shown(namespace, filter, now, p.0, p.1);
        lemma_positions_filter(self.rows(), positions, keep, pred);
    }

    /// The records that are shown, in key order, from `offset` on and at most `limit` of them; a
    /// limit of zero means all.
    pub fn list(
        &self,
        namespace: Option<&str>,
        filter: Option<&MetadataFilter>,
        limit: usize,
        offset: usize,
        now: u64,
    ) -> (r: Vec<&Record>)
        requires
            self.wf(),
        ensures
            r.deep_view() == models(
                page(
                    selected(
                        self.rows(),
                        opt_text(namespace),
                        opt_filter(filter),
                        now,
                    ),
                    limit as nat,
                    offset as nat,
                ),
            ),
    {
        let positions = self.shown_positions(namespace, filter, now);
        let ghost all = selected(
            self.rows(),
            opt_text(namespace),
            opt_filter(filter),
            now,
        );
        proof {
            self.lemma_selected(positions@, opt_text(namespace), opt_filter(filter), now);
        }
        let mut out: Vec<&Record> = Vec::new();
        let mut i: usize = offset;
        while i < positions.len() && (limit == 0 || out.len() < limit)
            invariant
                offset <= i,
                i <= positions@.len() || i == offset,
                out@.len() == i - offset,
                limit != 0 ==> out@.len() <= limit,
                all == Seq::new(positions@.len(), |j: int| self.rows()[positions@[j] as int]),
                forall|j: int|
                    0 <= j < positions@.len() ==> (#[trigger] positions@[j]) < self.rows().len(),
                forall|j: int|
                    0 <= j < out@.len() ==> (#[trigger] out@[j]).deep_view() == all[offset + j].1,
            decreases positions@.len() - i,
        {
            let at: usize = positions[i];
            out.push(self.records.value_at(at));
            i += 1;
        }
        proof {
            assert(out.deep_view() =~= models(page(all, limit as nat, offset as nat)));
        }
        out
    }

    fn start_after(&self, after: &Option<RecordKey>) -> (r: usize)
        ensures
            r <= self.rows().len(),
            rows_after(
                self.rows(),
                match after {
                    Some(k) => Some(k.deep_view()),
                    None => None,
                },
            ) == self.rows().skip(r as int),
    {
        let ghost rows = self.rows();
        match after {
            None => {
                proof {
                    assert(rows.skip(0) =~= rows);
                }
                0
            },
            Some(key) => {
                proof {
                    use_type_invariant(&self.records);
                    self.records.lemma_pairs_ascending();
                }
                let n: usize = self.records.len();
                let (found, i) = self.records.locate(key);
                let r: usize = if found && i < n {
                    i + 1
                } else {
                    i
                };
                proof {
                    let k = key.deep_view();
                    let pred = |p: (KeyModel, RecordModel)| key_before(k, p.0);
                    assert forall|j: int| 0 <= j < r implies !pred(#[trigger] rows[j]) by {
                        if found && j == i {
                        } else {
                            if found {
                                assert(<(String, String) as Key>::before(
                                    rows[j].0,
                                    rows[i as int].0,
                                ));
                            } else {
                                assert(self.records.entries@[j].0.deep_view() == rows[j].0);
                            }
                            if key_before(k, rows[j].0) {
                                <(String, String) as Key>::lemma_transitive(k, rows[j].0, k);
                            }
                        }
                        <(String, String) as Key>::lemma_irreflexive(k);
                    }
                    assert forall|j: int| r <= j < rows.len() implies pred(#[trigger] rows[j]) by {
                        if found {
                            assert(<(String, String) as Key>::before(rows[i as int].0, rows[j].0));
                        } else {
                            assert(self.records.entries@[j].0.deep_view() == rows[j].0);
                        }
                    }
                    lemma_filter_suffix(rows, r as int, pred);
                }
                r
            },
        }
    }

    /// A page of at most `limit` records after the cursor `after`, and the cursor of the next
    /// page where there are more.
    pub fn list_cursor(
        &self,
        namespace: Option<&str>,
        filter: Option<&MetadataFilter>,
        limit: usize,
        after: Option<&str>,
        now: u64,
    ) -> (r: (Vec<&Record>, Option<String>))
        requires
            self.wf(),
        ensures
            ({
                let all = following(
                    self.rows(),
                    opt_text(namespace),
                    opt_filter(filter),
                    now,
                    match after {
                        Some(c) => Some(cursor_key(c@)),
                        None => None,
                    },
                );
                let size = page_size(limit as nat) as int;
                if all.len() > size {
                    &&& r.0.deep_view() == models(all.take(size))
                    &&& r.1 matches Some(c) && c@ == key_cursor(all[size - 1].1.key())
                } else {
                    &&& r.0.deep_view() == models(all)
                    &&& r.1 is None
                }
            }),
    {
        let limit: usize = if limit == 0 {
            100
        } else {
            limit
        };
        let after_key: Option<RecordKey> = match after {
            None => None,
            Some(cursor) => match split_once_text(cursor, '\0') {
                Some((ns, id)) => Some((ns, id)),
                None => Some((String::new(), cursor.to_owned())),
            },
        };
        let ghost ak: Option<KeyModel> = match after {
            Some(c) => Some(cursor_key(c@)),
            None => None,
        };
        let start: usize = self.start_after(&after_key);
        let ghost rows = self.rows();
        let ghost tail = rows.skip(start as int);
        let ghost pred = |p: (KeyModel, RecordModel)|
            shown(opt_text(namespace), opt_filter(filter), now, p.0, p.1);
        let ghost all = tail.filter(pred);
        let mut results: Vec<&Record> = Vec::new();
        let mut i: usize = start;
        proof {
            reveal(Seq::filter);
            assert(rows.subrange(start as int, start as int).filter(pred) =~= Seq::empty());
            assert(results.deep_view() =~= models(
                rows.subrange(start as int, start as int).filter(pred),
            ));
        }
        while i < self.records.len() && results.len() <= limit
            invariant
                start <= i <= rows.len(),
                rows == self.rows(),
                limit > 0,
                results.len() <= limit + 1,
                pred == (|p: (KeyModel, RecordModel)|
                    shown(opt_text(namespace), opt_filter(filter), now, p.0, p.1)),
                results.deep_view() == models(rows.subrange(start as int, i as int).filter(pred)),
            decreases rows.len() - i,
        {
            let ghost before = results.deep_view();
            let ghost seen = rows.subrange(start as int, i as int);
            let show: bool = self.row_shown(i, namespace, filter, now);
            proof {
                assert(rows.subrange(start as int, i + 1) =~= seen.push(rows[i as int]));
                lemma_filter_push(seen, rows[i as int], pred);
                assert(show == pred(rows[i as int]));
            }
            if show {
                results.push(self.records.value_at(i));
                proof {
                    assert(results.deep_view() =~= before.push(rows[i as int].1));
                    assert(models(seen.filter(pred).push(rows[i as int])) =~= models(
                        seen.filter(pred),
                    ).push(rows[i as int].1));
                }
            }
            i += 1;
        }
        let ghost seen = rows.subrange(start as int, i as int).filter(pred);
        let ghost rest = rows.skip(i as int).filter(pred);
        proof {
            assert(tail =~= rows.subrange(start as int, i as int) + rows.skip(i as int));
            Seq::filter_distributes_over_add(
                rows.subrange(start as int, i as int),
                rows.skip(i as int),
                pred,
            );
            assert(all == seen + rest);
            if i == rows.len() {
                assert(rows.skip(i as int) =~= Seq::empty());
                reveal(Seq::filter);
                assert(rest =~= Seq::empty());
                assert(all =~= seen);
            }
        }
        if results.len() > limit {
            let ghost full = results.deep_view();
            results.pop();
            proof {
                assert(full.len() == limit + 1);
                assert(full == models(seen));
                assert forall|j: int| 0 <= j < limit implies results.deep_view()[j] == all.take(
                    limit as int,
                )[j].1 by {
                    assert(results.deep_view()[j] == full[j]);
                    assert(all[j] == seen[j]);
                }
                assert(results.deep_view() =~= models(all.take(limit as int)));
                assert(results@[limit - 1].deep_view() == results.deep_view()[limit - 1]);
            }
            let last = results[limit - 1];
            let cursor = concat3(last.namespace.as_str(), "\0", last.id.as_str());
            proof {
                reveal_strlit("\0");
                assert("\0"@ =~= seq!['\0']);
            }
            (results, Some(cursor))
        } else {
            proof {
                assert(all =~= seen);
            }
            (results, None)
        }
    }
}

pub(crate) proof fn lemma_filter_same<A>(s: Seq<A>, f: spec_fn(A) -> bool, g: spec_fn(A) -> bool)
    requires
        forall|i: int| 0 <= i < s.len() ==> f(#[trigger] s[i]) == g(s[i]),
    ensures
        s.filter(f) == s.filter(g),
    decreases s.len(),
{
    reveal(Seq::filter);
    if s.len() > 0 {
        let t = s.drop_last();
        assert(forall|i: int| 0 <= i < t.len() ==> t[i] == s[i]);
        lemma_filter_same(t, f, g);
        assert(f(s[s.len() - 1]) == g(s[s.len() - 1]));
    }
}

/// The records that are shown and that the indexes single out, where they help, in key order.
pub open(crate) spec fn singled_out(
    kinds: Map<Seq<char>, PayloadIndexType>,
    rows: Seq<(KeyModel, RecordModel)>,
    namespace: Option<Seq<char>>,
    filter: MetadataFilter,
    now: u64,
) -> Seq<(KeyModel, RecordModel)> {
    rows.filter(
        |p: (KeyModel, RecordModel)|
            shown(namespace, Some(filter), now, p.0, p.1) && (index_candidates(
                kinds,
                map_of(rows),
                filter,
                namespace,
            ) matches Some(s) ==> s.contains(p.0)),
    )
}

/// Indexes do not change what a count or a list shows.
pub proof fn law_indexes_invisible(
    kinds: Map<Seq<char>, PayloadIndexType>,
    rows: Seq<(KeyModel, RecordModel)>,
    namespace: Option<Seq<char>>,
    filter: MetadataFilter,
    now: u64,
)
    requires
        ascending::<(String, String), RecordModel>(rows),
    ensures
        singled_out(kinds, rows, namespace, filter, now) == selected(
            rows,
            namespace,
            Some(filter),
            now,
        ),
{
    let records = map_of(rows);
    let f = |p: (KeyModel, RecordModel)|
        shown(namespace, Some(filter), now, p.0, p.1) && (index_candidates(
            kinds,
            records,
            filter,
            namespace,
        ) matches Some(s) ==> s.contains(p.0));
    let g = |p: (KeyModel, RecordModel)| shown(namespace, Some(filter), now, p.0, p.1);
    assert forall|i: int| 0 <= i < rows.len() implies f(#[trigger] rows[i]) == g(rows[i]) by {
        lemma_map_of_at::<(String, String), RecordModel>(rows, i);
        if g(rows[i]) {
            law_candidates_complete(kinds, records, filter, namespace, rows[i].0);
        }
    }
    lemma_filter_same(rows, f, g);
}

/// Following the cursors from the start visits what a list shows.
pub proof fn law_cursors_list(
    rows: Seq<(KeyModel, RecordModel)>,
    namespace: Option<Seq<char>>,
    filter: Option<MetadataFilter>,
    now: u64,
)
    ensures
        following(rows, namespace, filter, now, None) == selected(rows, namespace, filter, now),
{
}

proof fn lemma_rows_ordered(rows: Seq<(KeyModel, RecordModel)>, i: int, j: int)
    requires
        ascending::<(String, String), RecordModel>(rows),
        0 <= i < j < rows.len(),
    ensures
        key_before(rows[i].0, rows[j].0),
{
    assert(<(String, String) as Key>::before(rows[i].0, rows[j].0));
}

/// Where the element at position `n` of a filtered sequence comes from.
proof fn lemma_filter_split<A>(s: Seq<A>, pred: spec_fn(A) -> bool, n: int) -> (p: int)
    requires
        0 <= n < s.filter(pred).len(),
    ensures
        0 <= p < s.len(),
        s[p] == s.filter(pred)[n],
        s.skip(p + 1).filter(pred) == s.filter(pred).skip(n + 1),
    decreases s.len(),
{
    reveal(Seq::filter);
    let t = s.drop_last();
    if pred(s.last()) && n == s.filter(pred).len() - 1 {
        let p = s.len() - 1;
        assert(s.skip(p + 1) =~= Seq::empty());
        assert(s.skip(p + 1).filter(pred) =~= s.filter(pred).skip(n + 1));
        p
    } else {
        let p = lemma_filter_split(t, pred, n);
        assert(s.skip(p + 1).drop_last() =~= t.skip(p + 1));
        assert(s.skip(p + 1).last() == s.last());
        if pred(s.last()) {
            assert(s.filter(pred).skip(n + 1) =~= t.filter(pred).skip(n + 1).push(s.last()));
        }
        p
    }
}

/// The rows after a key are a suffix of the rows.
proof fn lemma_after_suffix(rows: Seq<(KeyModel, RecordModel)>, after: Option<KeyModel>) -> (n: int)
    requires
        ascending::<(String, String), RecordModel>(rows),
    ensures
        0 <= n <= rows.len(),
        rows_after(rows, after) == rows.skip(n),
    decreases rows.len(),
{
    match after {
        None => {
            assert(rows.skip(0) =~= rows);
            0
        },
        Some(k) => {
            let pred = |p: (KeyModel, RecordModel)| key_before(k, p.0);
            if rows.len() == 0 {
                reveal(Seq::filter);
                assert(rows.filter(pred) =~= rows.skip(0));
                0
            } else {
                let t = rows.drop_last();
                assert(ascending::<(String, String), RecordModel>(t)) by {
                    assert forall|i: int, j: int|
                        #![trigger t[i], t[j]]
                        0 <= i < j < t.len() implies <(String, String) as Key>::before(
                        t[i].0,
                        t[j].0,
                    ) by {
                        assert(<(String, String) as Key>::before(rows[i].0, rows[j].0));
                    }
                }
                let n = lemma_after_suffix(t, after);
                reveal(Seq::filter);
                let last = rows.len() - 1;
                if key_before(k, rows[last].0) {
                    assert(rows.skip(n) =~= t.skip(n).push(rows.last()));
                    n
                } else {
                    if n < t.len() {
                        let f = t.filter(pred);
                        assert(f[0] == t.skip(n)[0]);
                        t.lemma_filter_pred(pred, 0);
                        assert(key_before(k, t[n].0));
                        lemma_rows_ordered(rows, n, last);
                        <(String, String) as Key>::lemma_transitive(k, rows[n].0, rows[last].0);
                    }
                    assert(rows.skip(rows.len() as int) =~= t.skip(n));
                    rows.len() as int
                }
            }
        },
    }
}

/// Following the cursors visits every record that is shown exactly once: what follows the last
/// record of a full page is what the page left out.
pub proof fn law_pages_continue(
    rows: Seq<(KeyModel, RecordModel)>,
    namespace: Option<Seq<char>>,
    filter: Option<MetadataFilter>,
    now: u64,
    after: Option<KeyModel>,
    size: int,
)
    requires
        ascending::<(String, String), RecordModel>(rows),
        0 < size < following(rows, namespace, filter, now, after).len(),
    ensures
        ({
            let all = following(rows, namespace, filter, now, after);
            all == all.take(size) + following(rows, namespace, filter, now, Some(all[size - 1].0))
        }),
{
    let pred = |p: (KeyModel, RecordModel)| shown(namespace, filter, now, p.0, p.1);
    let all = following(rows, namespace, filter, now, after);
    let s = lemma_after_suffix(rows, after);
    let tail = rows.skip(s);
    let p = lemma_filter_split(tail, pred, size - 1);
    let last = all[size - 1].0;
    let keep = |q: (KeyModel, RecordModel)| key_before(last, q.0);
    let q = s + p;
    let n = q + 1;
    assert(rows[q] == tail[p]);
    assert forall|j: int| 0 <= j < n implies !keep(#[trigger] rows[j]) by {
        if j < q {
            lemma_rows_ordered(rows, j, q);
            if key_before(last, rows[j].0) {
                <(String, String) as Key>::lemma_transitive(last, rows[j].0, last);
            }
        }
        <(String, String) as Key>::lemma_irreflexive(last);
    }
    assert forall|j: int| n <= j < rows.len() implies keep(#[trigger] rows[j]) by {
        lemma_rows_ordered(rows, q, j);
    }
    lemma_filter_suffix(rows, n, keep);
    assert(rows.skip(n) =~= tail.skip(p + 1));
    assert(all =~= all.take(size) + all.skip(size));
}

/// Texts in strictly ascending order.
pub open spec fn texts_ascending(s: Seq<Seq<char>>) -> bool {
    forall|i: int, j: int|
        #![trigger s[i], s[j]]
        0 <= i < j < s.len() ==> <String as Key>::before(s[i], s[j])
}

impl Table {
    /// The namespaces of the records, each once and in ascending order.
    pub fn namespaces(&self) -> (r: Vec<String>)
        ensures
            texts_ascending(r.deep_view()),
            forall|n: Seq<char>|
                r.deep_view().contains(n) <==> exists|k: KeyModel| #[trigger]
                    self@.contains_key(k) && k.0 == n,
    {
        let mut names: OrderedSet<String> = OrderedSet::new();
        let mut i: usize = 0;
        while i < self.records.len()
            invariant
                i <= self.rows().len(),
                forall|n: Seq<char>| #[trigger]
                    names@.contains(n) <==> exists|p: int|
                        0 <= p < i && (#[trigger] self.rows()[p]).0.0 == n,
            decreases self.rows().len() - i,
        {
            let ghost before = names@;
            let ns = self.records.key_at(i).0.clone();
            names.add(ns);
            proof {
                let rows = self.rows();
                assert(rows[i as int].0.0 == ns@);
                assert forall|n: Seq<char>| #[trigger]
                    names@.contains(n) <==> exists|p: int|
                        0 <= p < i + 1 && (#[trigger] rows[p]).0.0 == n by {
                    if before.contains(n) {
                        let p = choose|p: int| 0 <= p < i && (#[trigger] rows[p]).0.0 == n;
                        assert(0 <= p < i + 1 && rows[p].0.0 == n);
                    }
                }
            }
            i += 1;
        }
        let out = names.to_vec();
        proof {
            use_type_invariant(&self.records);
            self.records.lemma_pairs_ascending();
            let rows = self.rows();
            assert forall|n: Seq<char>|
                out.deep_view().contains(n) <==> exists|k: KeyModel| #[trigger]
                    self@.contains_key(k) && k.0 == n by {
                if names@.contains(n) {
                    let p = choose|p: int| 0 <= p < i && (#[trigger] rows[p]).0.0 == n;
                    lemma_map_of_at::<(String, String), RecordModel>(rows, p);
                    assert(self@.contains_key(rows[p].0));
                }
                if exists|k: KeyModel| #[trigger] self@.contains_key(k) && k.0 == n {
                    let k = choose|k: KeyModel| #[trigger] self@.contains_key(k) && k.0 == n;
                    assert(has_key(rows, k));
                    let p = position_of(rows, k);
                    assert(rows[p].0 == k);
                    assert(names@.contains(n));
                }
            }
        }
        out
    }

    /// The record of a key, unless it is expired.
    pub fn get_in_namespace(&self, namespace: &str, id: &str, now: u64) -> (r: Option<&Record>)
        ensures
            ({
                let k = (namespace@, id@);
                let there = self@.contains_key(k) && !self@[k].expired(now);
                &&& r is Some == there
                &&& r matches Some(x) ==> x@ == self@[k]
            }),
    {
        let key = (namespace.to_owned(), id.to_owned());
        match self.records.lookup(&key) {
            Some(record) => {
                if record.is_expired_at(now) {
                    None
                } else {
                    Some(record)
                }
            },
            None => None,
        }
    }

    /// Whether a key has a record, expired or not.
    pub fn has_record(&self, namespace: &str, id: &str) -> (r: bool)
        ensures
            r == self@.contains_key((namespace@, id@)),
    {
        let key = (namespace.to_owned(), id.to_owned());
        self.records.has(&key)
    }
}

} // verus!
