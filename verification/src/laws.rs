//! What holds of a database across several calls.
use vstd::prelude::*;
use crate::change::{change_of, ChangeModel};
use crate::database::Database;
use crate::error::Failure;
use crate::float_bits::double_le;
use crate::lifecycle::{apply_batches, parse_log};
use crate::maintenance::unexpired;
use crate::metadata::ValueModel;
use crate::ordered_map::{ascending, insert_pair, map_of};
use crate::record::{KeyModel, RecordModel};
use crate::table::{apply_op, apply_ops, merged};
use crate::wal::{
    batch_fits, batch_storable, enc_batch, enc_batches, enc_wal, law_wal_roundtrip, OpModel,
};

verus! {

/// After a record is written, it is what its key holds, and every other key holds what it did.
pub proof fn law_write_read(
    records: Map<KeyModel, RecordModel>,
    m: RecordModel,
    other: KeyModel,
)
    ensures
        ({
            let after = apply_ops(records, seq![OpModel::Upsert(m)]);
            &&& after.contains_key(m.key())
            &&& after[m.key()] == m
            &&& other != m.key() ==> after.contains_key(other) == records.contains_key(other)
            &&& other != m.key() && records.contains_key(other) ==> after[other] == records[other]
        }),
{
    lemma_apply_one(records, OpModel::Upsert(m));
}

/// After a record is deleted, its key holds nothing, and every other key holds what it did.
pub proof fn law_delete_read(
    records: Map<KeyModel, RecordModel>,
    k: KeyModel,
    other: KeyModel,
)
    ensures
        ({
            let after = apply_ops(records, seq![OpModel::Delete(k)]);
            &&& !after.contains_key(k)
            &&& other != k ==> after.contains_key(other) == records.contains_key(other)
            &&& other != k && records.contains_key(other) ==> after[other] == records[other]
        }),
{
    lemma_apply_one(records, OpModel::Delete(k));
}

/// A record that is deleted again leaves the records as they were before it was inserted.
pub proof fn law_insert_delete(records: Map<KeyModel, RecordModel>, m: RecordModel)
    requires
        !records.contains_key(m.key()),
    ensures
        apply_ops(
            apply_ops(records, seq![OpModel::Upsert(m)]),
            seq![OpModel::Delete(m.key())],
        ) == records,
{
    let mid = apply_ops(records, seq![OpModel::Upsert(m)]);
    lemma_apply_one(records, OpModel::Upsert(m));
    lemma_apply_one(mid, OpModel::Delete(m.key()));
    assert(mid.remove(m.key()) =~= records);
}

/// A change of metadata or of an expiry time leaves vectors and keys alone.
pub proof fn law_patch_keeps_vectors(
    records: Map<KeyModel, RecordModel>,
    k: KeyModel,
    patch: Seq<(Seq<char>, ValueModel)>,
    expires_at: Option<u64>,
)
    requires
        records.contains_key(k),
    ensures
        ({
            let after = apply_ops(
                records,
                seq![OpModel::UpdateMetadata(k, patch), OpModel::SetTtl(k, expires_at)],
            );
            &&& after.contains_key(k)
            &&& after[k] == (RecordModel {
                metadata: merged(records[k].metadata, patch),
                expires_at,
                ..records[k]
            })
        }),
{
    let ops = seq![OpModel::UpdateMetadata(k, patch), OpModel::SetTtl(k, expires_at)];
    assert(ops.drop_last() =~= seq![OpModel::UpdateMetadata(k, patch)]);
    lemma_apply_one(records, OpModel::UpdateMetadata(k, patch));
}

proof fn lemma_apply_one(records: Map<KeyModel, RecordModel>, op: OpModel)
    ensures
        apply_ops(records, seq![op]) == apply_op(records, op),
{
    let ops = seq![op];
    assert(ops.drop_last() =~= Seq::empty());
    assert(apply_ops(records, ops.drop_last()) == records);
}

/// Changes can be applied in several steps.
pub proof fn law_apply_in_steps(
    records: Map<KeyModel, RecordModel>,
    a: Seq<OpModel>,
    b: Seq<OpModel>,
)
    ensures
        apply_ops(records, a + b) == apply_ops(apply_ops(records, a), b),
    decreases b.len(),
{
    if b.len() == 0 {
        assert(a + b =~= a);
    } else {
        assert((a + b).drop_last() =~= a + b.drop_last());
        law_apply_in_steps(records, a, b.drop_last());
    }
}

proof fn lemma_insert_pair_map<B>(pairs: Seq<(Seq<char>, B)>, key: Seq<char>, value: B)
    requires
        ascending::<String, B>(pairs),
    ensures
        ascending::<String, B>(insert_pair::<String, B>(pairs, key, value)),
        map_of(insert_pair::<String, B>(pairs, key, value)) == map_of(pairs).insert(key, value),
{
    crate::ordered_map::lemma_insert_pair::<String, B>(pairs, key, value);
}

/// A patch sets the entries that it has, and leaves all others as they are.
pub proof fn law_metadata_merge(
    pairs: Seq<(Seq<char>, ValueModel)>,
    patch: Seq<(Seq<char>, ValueModel)>,
)
    requires
        ascending::<String, ValueModel>(pairs),
        ascending::<String, ValueModel>(patch),
    ensures
        ascending::<String, ValueModel>(merged(pairs, patch)),
        map_of(merged(pairs, patch)) == map_of(pairs).union_prefer_right(map_of(patch)),
    decreases patch.len(),
{
    if patch.len() == 0 {
        assert(map_of(pairs).union_prefer_right(map_of(patch)) =~= map_of(pairs));
    } else {
        let before = patch.drop_last();
        let n = patch.len() - 1;
        assert(before =~= patch.take(n));
        crate::ordered_map::lemma_map_of_take::<String, ValueModel>(patch, n);
        assert(patch.take(n + 1) =~= patch);
        law_metadata_merge(pairs, before);
        lemma_insert_pair_map::<ValueModel>(merged(pairs, before), patch.last().0, patch.last().1);
        assert(map_of(pairs).union_prefer_right(map_of(patch)) =~= map_of(pairs).union_prefer_right(
            map_of(before),
        ).insert(patch.last().0, patch.last().1));
    }
}

/// A record that is expired stays expired.
pub proof fn law_expiry_is_final(m: RecordModel, now: u64, later: u64)
    requires
        m.expired(now),
        double_le(now, later),
    ensures
        m.expired(later),
{
}

/// Compaction does not change what is read, then or later: every record that is not expired is
/// still there, and what is gone was expired.
pub proof fn law_compaction_invisible(
    records: Map<KeyModel, RecordModel>,
    k: KeyModel,
    now: u64,
    later: u64,
)
    requires
        double_le(now, later),
    ensures
        ({
            let after = unexpired(records, now);
            let shown_before = records.contains_key(k) && !records[k].expired(later);
            let shown_after = after.contains_key(k) && !after[k].expired(later);
            &&& shown_before == shown_after
            &&& shown_after ==> after[k] == records[k]
        }),
{
    if records.contains_key(k) && records[k].expired(now) {
        law_expiry_is_final(records[k], now, later);
    }
}

/// A database that was opened for reading only refuses every write.
pub proof fn law_read_only_refuses(db: &Database, m: RecordModel)
    requires
        db.opened().read_only,
        !db.closed(),
    ensures
        db.write_refusal() == Some(Failure::ReadOnly),
        db.insert_refusal(m) == Some(Failure::ReadOnly),
        db.upsert_refusal(m) == Some(Failure::ReadOnly),
        db.read_refusal() is None,
{
}

/// A closed database refuses every read that can fail and every write.
pub proof fn law_closed_refuses(db: &Database, m: RecordModel)
    requires
        db.closed(),
    ensures
        db.read_refusal() == Some(Failure::InvalidFormat("database is closed"@)),
        db.write_refusal() == Some(Failure::InvalidFormat("database is closed"@)),
        db.insert_refusal(m) == db.write_refusal(),
        db.upsert_refusal(m) == db.write_refusal(),
{
}

proof fn lemma_batches_append(batches: Seq<Seq<OpModel>>, ops: Seq<OpModel>)
    ensures
        enc_batches(batches.push(ops)) == enc_batches(batches) + enc_batch(ops),
    decreases batches.len(),
{
    let all = batches.push(ops);
    if batches.len() == 0 {
        assert(all.drop_first() =~= Seq::empty());
        assert(all[0] == ops);
        assert(enc_batches(all.drop_first()) =~= Seq::empty());
        assert(enc_batches(batches) =~= Seq::empty());
        assert(enc_batches(all) =~= enc_batches(batches) + enc_batch(ops));
    } else {
        assert(all.drop_first() =~= batches.drop_first().push(ops));
        lemma_batches_append(batches.drop_first(), ops);
        assert(all[0] == batches[0]);
        assert(enc_batches(all) == enc_batch(batches[0]) + (enc_batches(batches.drop_first())
            + enc_batch(ops)));
        assert(enc_batches(all) =~= enc_batches(batches) + enc_batch(ops));
    }
}

/// What was logged is there after reopening: a log to which the bytes of a change are appended
/// gives its batches and then that change, so that replaying it is applying the change.
pub proof fn law_logged_is_replayed(
    records: Map<KeyModel, RecordModel>,
    batches: Seq<Seq<OpModel>>,
    change: ChangeModel,
    dimension: nat,
)
    requires
        change.ops.len() > 0,
        change == change_of(change.ops, change.whole, change.count),
        forall|i: int|
            0 <= i < batches.len() ==> batch_fits(#[trigger] batches[i]) && batch_storable(
                batches[i],
                dimension,
            ),
        batch_fits(change.ops),
        batch_storable(change.ops, dimension),
    ensures
        parse_log(dimension, Some(enc_wal(batches) + change.bytes)) == Ok::<
            Seq<Seq<OpModel>>,
            Failure,
        >(batches.push(change.ops)),
        apply_batches(records, batches.push(change.ops)) == apply_ops(
            apply_batches(records, batches),
            change.ops,
        ),
{
    let all = batches.push(change.ops);
    lemma_batches_append(batches, change.ops);
    assert(enc_wal(batches) + change.bytes =~= enc_wal(all));
    assert(all.drop_last() =~= batches);
    assert forall|i: int| 0 <= i < all.len() implies batch_fits(#[trigger] all[i])
        && batch_storable(all[i], dimension) by {
        if i < batches.len() {
            assert(all[i] == batches[i]);
        }
    }
    crate::codec::lemma_le_bytes_len(crate::wal::enc_batch_body(change.ops).len(), 4);
    law_wal_roundtrip(all, change.ops, 0, dimension);
    assert(enc_wal(all) + enc_batch(change.ops).take(0) =~= enc_wal(all));
}

} // verus!
