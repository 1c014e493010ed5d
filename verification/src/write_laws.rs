//! What writes do.
use vstd::prelude::*;
use crate::bulk::bulk_batches;
use crate::change::{
    logged_ops, matching_deletes, operation_refusal, operations_refusal, present_ids, Change,
    WriteModel,
};
use crate::codec::too_long;
use crate::database::Database;
use crate::error::{Failure, VectLiteError};
use crate::filter::{accepts, MetadataFilter};
use crate::metadata::ValueModel;
use crate::ordered_map::{ascending, has_key, lemma_map_of_at, map_of, position_of};
use crate::record::{KeyModel, RecordModel};
use crate::record_codec::token_dim;
use crate::table::{apply_op, apply_ops};
use crate::validation::{named_defect, record_defect, spaces_defect, tokens_defect};
use crate::wal::OpModel;

verus! {

/// Whether a record is sound: its vector has the dimension, its named vectors have names and the
/// dimension, its spaces have names, and the token vectors of a space are of one length, which is
/// not zero.
pub open spec fn sound(m: RecordModel, dimension: nat) -> bool {
    &&& m.vector.len() == dimension
    &&& forall|i: int|
        0 <= i < m.vectors.len() ==> (#[trigger] m.vectors[i]).0.len() > 0 && m.vectors[i].1.len()
            == dimension
    &&& forall|i: int|
        0 <= i < m.multi_vectors.len() ==> (#[trigger] m.multi_vectors[i]).0.len() > 0
    &&& forall|i: int, j: int|
        #![trigger m.multi_vectors[i].1[j]]
        0 <= i < m.multi_vectors.len() && 0 <= j < m.multi_vectors[i].1.len() ==> {
            let tokens = m.multi_vectors[i].1;
            tokens[j].len() > 0 && tokens[j].len() == tokens[0].len()
        }
}

proof fn lemma_named_sound(vectors: Seq<(Seq<char>, Seq<u32>)>, dimension: nat, i: int)
    requires
        0 <= i,
    ensures
        named_defect(vectors, dimension, i) is None <==> forall|k: int|
            i <= k < vectors.len() ==> (#[trigger] vectors[k]).0.len() > 0 && vectors[k].1.len()
                == dimension,
    decreases vectors.len() - i,
{
    if i < vectors.len() {
        lemma_named_sound(vectors, dimension, i + 1);
    }
}

proof fn lemma_tokens_sound(space: Seq<char>, tokens: Seq<Seq<u32>>, every: bool, j: int)
    requires
        0 <= j,
        j > 0 ==> token_dim(tokens) > 0,
    ensures
        tokens_defect(space, tokens, every, j) is None <==> forall|k: int|
            j <= k < tokens.len() ==> (#[trigger] tokens[k]).len() > 0 && tokens[k].len()
                == tokens[0].len(),
    decreases tokens.len() - j,
{
    if j < tokens.len() {
        if tokens[0].len() > 0 {
            lemma_tokens_sound(space, tokens, every, j + 1);
        }
        if tokens_defect(space, tokens, every, j) is None {
            assert(tokens[j].len() == token_dim(tokens));
        }
    }
}

proof fn lemma_spaces_sound(spaces: Seq<(Seq<char>, Seq<Seq<u32>>)>, every: bool, i: int)
    requires
        0 <= i,
    ensures
        spaces_defect(spaces, every, i) is None <==> ((forall|k: int|
            i <= k < spaces.len() ==> (#[trigger] spaces[k]).0.len() > 0) && (forall|k: int, j: int|
            #![trigger spaces[k].1[j]]
            i <= k < spaces.len() && 0 <= j < spaces[k].1.len() ==> spaces[k].1[j].len() > 0
                && spaces[k].1[j].len() == spaces[k].1[0].len())),
    decreases spaces.len() - i,
{
    if i < spaces.len() {
        lemma_tokens_sound(spaces[i].0, spaces[i].1, every, 0);
        lemma_spaces_sound(spaces, every, i + 1);
        if spaces_defect(spaces, every, i) is None {
            assert forall|k: int, j: int|
                #![trigger spaces[k].1[j]]
                i <= k < spaces.len() && 0 <= j < spaces[k].1.len() implies spaces[k].1[j].len() > 0
                && spaces[k].1[j].len() == spaces[k].1[0].len() by {
                if k == i {
                    assert(spaces[i].1[j].len() > 0);
                }
            }
        }
        if (forall|k: int| i <= k < spaces.len() ==> (#[trigger] spaces[k]).0.len() > 0) && (forall|
            k: int,
            j: int,
        |
            #![trigger spaces[k].1[j]]
            i <= k < spaces.len() && 0 <= j < spaces[k].1.len() ==> spaces[k].1[j].len() > 0
                && spaces[k].1[j].len() == spaces[k].1[0].len()) {
            assert(spaces[i].0.len() > 0);
            assert forall|j: int| 0 <= j < spaces[i].1.len() implies (
            #[trigger] spaces[i].1[j]).len() > 0 && spaces[i].1[j].len()
                == spaces[i].1[0].len() by {}
            assert(tokens_defect(spaces[i].0, spaces[i].1, every, 0) is None);
        }
    }
}

/// A record has no defect exactly where it is sound, and a vector of another length than the
/// dimension is reported with both lengths.
pub proof fn law_record_defect(m: RecordModel, dimension: nat, every: bool)
    ensures
        record_defect(m, dimension, every) is None == sound(m, dimension),
        m.vector.len() != dimension ==> record_defect(m, dimension, every) == Some(
            Failure::DimensionMismatch {
                expected: dimension as usize,
                found: m.vector.len() as usize,
            },
        ),
{
    lemma_named_sound(m.vectors, dimension, 0);
    lemma_spaces_sound(m.multi_vectors, every, 0);
}

proof fn lemma_one(records: Map<KeyModel, RecordModel>, op: OpModel)
    ensures
        apply_ops(records, seq![op]) == apply_op(records, op),
{
    let ops = seq![op];
    assert(ops.drop_last() =~= Seq::empty());
    assert(apply_ops(records, ops.drop_last()) == records);
}

/// An insertion: it succeeds only for a sound record with a new key, in a database that takes
/// writes, and then that record is added and nothing else changes. A key that is taken is refused by
/// name. A sound record with a new key is only refused where its bytes do not fit the log.
pub proof fn law_insert(db: &Database, r: Result<Change, VectLiteError>, m: RecordModel)
    requires
        db.inserts(r, m),
    ensures
        r matches Ok(c) ==> {
            &&& !db.closed() && !db.opened().read_only
            &&& sound(m, db.dim())
            &&& !db@.contains_key((m.namespace, m.id))
            &&& apply_ops(db@, c@.ops) == db@.insert((m.namespace, m.id), m)
            &&& c@.count == 1
        },
        r matches Err(e) ==> db.closed() || db.opened().read_only || !sound(m, db.dim())
            || db@.contains_key((m.namespace, m.id)) || e@ == too_long(),
        !db.closed() && !db.opened().read_only && sound(m, db.dim()) && db@.contains_key(
            (m.namespace, m.id),
        ) ==> (r matches Err(e) && e@ == (Failure::DuplicateId {
            namespace: m.namespace,
            id: m.id,
        })),
        !db.closed() && db.opened().read_only ==> (r matches Err(e) && e@ == Failure::ReadOnly),
{
    law_record_defect(m, db.dim(), true);
    lemma_one(db@, OpModel::Upsert(m));
}

/// An upsert: it succeeds for every sound record whose bytes fit the log, in a database that takes
/// writes, and then the record is what its key holds and nothing else changes.
pub proof fn law_upsert(db: &Database, r: Result<Change, VectLiteError>, m: RecordModel)
    requires
        db.upserts(r, m),
    ensures
        r matches Ok(c) ==> {
            &&& !db.closed() && !db.opened().read_only
            &&& sound(m, db.dim())
            &&& apply_ops(db@, c@.ops) == db@.insert((m.namespace, m.id), m)
            &&& c@.count == 1
        },
        r matches Err(e) ==> db.closed() || db.opened().read_only || !sound(m, db.dim()) || e@
            == too_long(),
{
    law_record_defect(m, db.dim(), true);
    lemma_one(db@, OpModel::Upsert(m));
}

/// A change to one record: where the record is not there nothing changes and nothing is counted;
/// where it is there, one change is made.
pub proof fn law_touch(
    db: &Database,
    r: Result<Change, VectLiteError>,
    k: KeyModel,
    patch: Seq<(Seq<char>, ValueModel)>,
    expires_at: Option<u64>,
    op: OpModel,
)
    requires
        db.touches(r, None, k, op),
        op == OpModel::Delete(k) || op == OpModel::UpdateMetadata(k, patch) || op
            == OpModel::SetTtl(k, expires_at),
    ensures
        r matches Ok(c) ==> {
            let after = apply_ops(db@, c@.ops);
            &&& !db.closed() && !db.opened().read_only
            &&& c@.count == (if db@.contains_key(k) {
                1nat
            } else {
                0nat
            })
            &&& !db@.contains_key(k) ==> after == db@
            &&& forall|other: KeyModel|
                other != k ==> #[trigger] after.contains_key(other) == db@.contains_key(other) && (
                db@.contains_key(other) ==> after[other] == db@[other])
            &&& after.contains_key(k) == (db@.contains_key(k) && !(op is Delete))
            &&& op is SetTtl && db@.contains_key(k) ==> after[k].expires_at == expires_at
                && after[k].metadata == db@[k].metadata && after[k].vector == db@[k].vector
                && after[k].key() == db@[k].key()
            &&& op is UpdateMetadata && db@.contains_key(k) ==> after[k].expires_at
                == db@[k].expires_at && after[k].vector == db@[k].vector && after[k].key()
                == db@[k].key()
        },
        r is Err ==> db.closed() || db.opened().read_only || r->Err_0@ == too_long(),
{
    lemma_one(db@, op);
}

proof fn lemma_operations_refusal(
    records: Map<KeyModel, RecordModel>,
    dimension: nat,
    ws: Seq<WriteModel>,
    i: int,
)
    requires
        0 <= i,
    ensures
        operations_refusal(records, dimension, ws, i) is None <==> forall|k: int|
            i <= k < ws.len() ==> operation_refusal(records, dimension, #[trigger] ws[k]) is None,
    decreases ws.len() - i,
{
    if i < ws.len() {
        lemma_operations_refusal(records, dimension, ws, i + 1);
    }
}

/// Whether a change that is asked for can be made on its own.
pub open spec fn allowed(
    records: Map<KeyModel, RecordModel>,
    dimension: nat,
    w: WriteModel,
) -> bool {
    match w {
        WriteModel::Insert(m) => sound(m, dimension) && !records.contains_key((m.namespace, m.id)),
        WriteModel::Upsert(m) => sound(m, dimension),
        WriteModel::Delete(_) => true,
    }
}

/// A batch is made as a whole or not at all: it succeeds only where every change in it can be made,
/// in a database that takes writes, and counts all of them; and where they can all be made it is
/// only refused where its bytes do not fit the log.
pub proof fn law_batch(db: &Database, r: Result<Change, VectLiteError>, ws: Seq<WriteModel>)
    requires
        db.batches(r, ws),
    ensures
        r matches Ok(c) ==> {
            &&& !db.closed() && !db.opened().read_only
            &&& forall|i: int| 0 <= i < ws.len() ==> allowed(db@, db.dim(), #[trigger] ws[i])
            &&& c@.ops.len() == ws.len() == c@.count
        },
        r matches Err(e) ==> db.closed() || db.opened().read_only || e@ == too_long() || exists|
            i: int,
        |
            0 <= i < ws.len() && !allowed(db@, db.dim(), #[trigger] ws[i]),
{
    lemma_operations_refusal(db@, db.dim(), ws, 0);
    assert forall|i: int| 0 <= i < ws.len() implies operation_refusal(
        db@,
        db.dim(),
        #[trigger] ws[i],
    ) is None == allowed(db@, db.dim(), ws[i]) by {
        match ws[i] {
            WriteModel::Insert(m) => law_record_defect(m, db.dim(), false),
            WriteModel::Upsert(m) => law_record_defect(m, db.dim(), false),
            _ => {},
        }
    }
}

/// The key that a change is about.
pub open spec fn about(w: WriteModel) -> KeyModel {
    match w {
        WriteModel::Insert(m) => (m.namespace, m.id),
        WriteModel::Upsert(m) => (m.namespace, m.id),
        WriteModel::Delete(k) => k,
    }
}

/// Of the changes in a batch the last one about a key decides: it holds the record that was written,
/// or nothing where it was deleted; a key that no change is about holds what it did.
pub proof fn law_last_write(records: Map<KeyModel, RecordModel>, ws: Seq<WriteModel>, k: KeyModel)
    ensures
        ({
            let after = apply_ops(records, logged_ops(ws));
            &&& forall|i: int|
                0 <= i < ws.len() && about(#[trigger] ws[i]) == k && (forall|j: int|
                    i < j < ws.len() ==> about(#[trigger] ws[j]) != k) ==> match ws[i] {
                    WriteModel::Insert(m) => after.contains_key(k) && after[k] == m,
                    WriteModel::Upsert(m) => after.contains_key(k) && after[k] == m,
                    WriteModel::Delete(_) => !after.contains_key(k),
                }
            &&& (forall|i: int| 0 <= i < ws.len() ==> about(#[trigger] ws[i]) != k) ==> (
            after.contains_key(k) == records.contains_key(k) && (records.contains_key(k)
                ==> after[k] == records[k]))
        }),
    decreases ws.len(),
{
    if ws.len() > 0 {
        let front = ws.drop_last();
        let last = ws.len() - 1;
        law_last_write(records, front, k);
        assert(logged_ops(ws).drop_last() =~= logged_ops(front));
        let after = apply_ops(records, logged_ops(ws));
        assert forall|i: int|
            0 <= i < ws.len() && about(#[trigger] ws[i]) == k && (forall|j: int|
                i < j < ws.len() ==> about(#[trigger] ws[j]) != k) implies match ws[i] {
            WriteModel::Insert(m) => after.contains_key(k) && after[k] == m,
            WriteModel::Upsert(m) => after.contains_key(k) && after[k] == m,
            WriteModel::Delete(_) => !after.contains_key(k),
        } by {
            if i < last {
                assert(front[i] == ws[i]);
                assert(about(ws[last]) != k);
                assert forall|j: int| i < j < front.len() implies about(#[trigger] front[j])
                    != k by {
                    assert(front[j] == ws[j]);
                }
            }
        }
        if forall|i: int| 0 <= i < ws.len() ==> about(#[trigger] ws[i]) != k {
            assert(about(ws[last]) != k);
            assert forall|i: int| 0 <= i < front.len() implies about(#[trigger] front[i]) != k by {
                assert(front[i] == ws[i]);
            }
        }
    }
}

/// Deleting by ids takes away exactly the records of the namespace with these ids, and counts each
/// id that is there as often as it is given.
pub proof fn law_delete_ids(
    records: Map<KeyModel, RecordModel>,
    namespace: Seq<char>,
    ids: Seq<Seq<char>>,
)
    ensures
        ({
            let ops = present_ids(records, namespace, ids);
            let after = apply_ops(records, ops);
            &&& forall|k: KeyModel| #[trigger]
                after.contains_key(k) <==> records.contains_key(k) && !(k.0 == namespace
                    && ids.contains(k.1))
            &&& forall|k: KeyModel| #[trigger]
                after.contains_key(k) ==> after[k] == records[k]
            &&& ops.len() == ids.filter(|id: Seq<char>| records.contains_key((namespace, id))).len()
        }),
    decreases ids.len(),
{
    reveal(Seq::filter);
    if ids.len() > 0 {
        let front = ids.drop_last();
        law_delete_ids(records, namespace, front);
        let ops = present_ids(records, namespace, ids);
        let last = (namespace, ids.last());
        assert forall|id: Seq<char>| #[trigger]
            ids.contains(id) <==> front.contains(id) || id == ids.last() by {
            if ids.contains(id) {
                let i = choose|i: int| 0 <= i < ids.len() && ids[i] == id;
                if i < front.len() {
                    assert(front[i] == id);
                }
            }
            if front.contains(id) {
                let i = choose|i: int| 0 <= i < front.len() && front[i] == id;
                assert(ids[i] == id);
            }
            if id == ids.last() {
                assert(ids[ids.len() - 1] == id);
            }
        }
        if records.contains_key(last) {
            assert(ops.drop_last() =~= present_ids(records, namespace, front));
            assert(ops.last() == OpModel::Delete(last));
        }
        let before = apply_ops(records, present_ids(records, namespace, front));
        let after = apply_ops(records, ops);
        assert forall|k: KeyModel| #[trigger]
            after.contains_key(k) <==> records.contains_key(k) && !(k.0 == namespace
                && ids.contains(k.1)) by {
            assert(k == (k.0, k.1));
            if records.contains_key(last) {
                assert(after == before.remove(last));
                assert(after.contains_key(k) == (before.contains_key(k) && k != last));
            } else {
                assert(after == before);
            }
            assert(before.contains_key(k) <==> records.contains_key(k) && !(k.0 == namespace
                && front.contains(k.1)));
            assert(ids.contains(k.1) <==> front.contains(k.1) || k.1 == ids.last());
        }
        assert forall|k: KeyModel| #[trigger] after.contains_key(k) implies after[k]
            == records[k] by {
            assert(before.contains_key(k));
        }
    }
}

proof fn lemma_matching_deletes(
    records: Map<KeyModel, RecordModel>,
    rows: Seq<(KeyModel, RecordModel)>,
    namespace: Option<Seq<char>>,
    filter: MetadataFilter,
)
    ensures
        ({
            let ops = matching_deletes(rows, namespace, filter);
            let after = apply_ops(records, ops);
            &&& forall|k: KeyModel| #[trigger]
                after.contains_key(k) <==> records.contains_key(k) && !(exists|i: int|
                    0 <= i < rows.len() && (#[trigger] rows[i]).0 == k && (namespace matches Some(n)
                        ==> k.0 == n) && accepts(filter, rows[i].1.metadata))
            &&& forall|k: KeyModel| #[trigger]
                after.contains_key(k) ==> after[k] == records[k]
            &&& ops.len() == rows.filter(
                |p: (KeyModel, RecordModel)|
                    (namespace matches Some(n) ==> p.0.0 == n) && accepts(filter, p.1.metadata),
            ).len()
        }),
    decreases rows.len(),
{
    reveal(Seq::filter);
    let ops = matching_deletes(rows, namespace, filter);
    let after = apply_ops(records, ops);
    if rows.len() > 0 {
        let front = rows.drop_last();
        let n = rows.len() - 1;
        lemma_matching_deletes(records, front, namespace, filter);
        let (last, m) = rows.last();
        let hit = (namespace matches Some(n) ==> last.0 == n) && accepts(filter, m.metadata);
        if hit {
            assert(ops.drop_last() =~= matching_deletes(front, namespace, filter));
        }
        let before = apply_ops(records, matching_deletes(front, namespace, filter));
        assert forall|k: KeyModel| #[trigger]
            after.contains_key(k) <==> records.contains_key(k) && !(exists|i: int|
                0 <= i < rows.len() && (#[trigger] rows[i]).0 == k && (namespace matches Some(n)
                    ==> k.0 == n) && accepts(filter, rows[i].1.metadata)) by {
            assert(after.contains_key(k) == (before.contains_key(k) && !(hit && k == last)));
            if exists|i: int|
                0 <= i < front.len() && (#[trigger] front[i]).0 == k && (namespace matches Some(n)
                    ==> k.0 == n) && accepts(filter, front[i].1.metadata) {
                let i = choose|i: int|
                    0 <= i < front.len() && (#[trigger] front[i]).0 == k && (namespace matches Some(
                        n,
                    ) ==> k.0 == n) && accepts(filter, front[i].1.metadata);
                assert(rows[i] == front[i]);
            }
            if exists|i: int|
                0 <= i < rows.len() && (#[trigger] rows[i]).0 == k && (namespace matches Some(n)
                    ==> k.0 == n) && accepts(filter, rows[i].1.metadata) {
                let i = choose|i: int|
                    0 <= i < rows.len() && (#[trigger] rows[i]).0 == k && (namespace matches Some(n)
                        ==> k.0 == n) && accepts(filter, rows[i].1.metadata);
                if i < n {
                    assert(front[i] == rows[i]);
                }
            }
            if hit && k == last {
                assert(rows[n].0 == k);
            }
        }
    }
}

/// Deleting by a filter takes away exactly the records of the namespace, or of all, whose metadata
/// the filter accepts, and counts them.
pub proof fn law_delete_by_filter(
    rows: Seq<(KeyModel, RecordModel)>,
    namespace: Option<Seq<char>>,
    filter: MetadataFilter,
    k: KeyModel,
)
    requires
        ascending::<(String, String), RecordModel>(rows),
    ensures
        ({
            let records = map_of(rows);
            let ops = matching_deletes(rows, namespace, filter);
            let after = apply_ops(records, ops);
            &&& after.contains_key(k) <==> records.contains_key(k) && !((namespace matches Some(n)
                ==> k.0 == n) && accepts(filter, records[k].metadata))
            &&& after.contains_key(k) ==> after[k] == records[k]
            &&& ops.len() == rows.filter(
                |p: (KeyModel, RecordModel)|
                    (namespace matches Some(n) ==> p.0.0 == n) && accepts(filter, p.1.metadata),
            ).len()
        }),
{
    let records = map_of(rows);
    lemma_matching_deletes(records, rows, namespace, filter);
    if records.contains_key(k) {
        let p = position_of(rows, k);
        assert(has_key(rows, k));
        lemma_map_of_at::<(String, String), RecordModel>(rows, p);
        assert(rows[p].0 == k && rows[p].1 == records[k]);
        assert forall|i: int| 0 <= i < rows.len() && (#[trigger] rows[i]).0 == k implies rows[i].1
            == records[k] by {
            lemma_map_of_at::<(String, String), RecordModel>(rows, i);
        }
    }
}

/// Batches one after the other.
pub open spec fn joined_batches(batches: Seq<Seq<OpModel>>) -> Seq<OpModel>
    decreases batches.len(),
{
    if batches.len() == 0 {
        Seq::empty()
    } else {
        batches[0] + joined_batches(batches.drop_first())
    }
}

proof fn lemma_bulk(
    ms: Seq<RecordModel>,
    i: int,
    pending: Seq<OpModel>,
    dimension: nat,
    size: nat,
)
    requires
        0 <= i <= ms.len(),
        pending.len() == 0 || pending.len() < size,
    ensures
        ({
            let (batches, end) = bulk_batches(ms, i, pending, dimension, size);
            let all = pending + ms.skip(i).map_values(|m: RecordModel| OpModel::Upsert(m));
            &&& joined_batches(batches).len() <= all.len()
            &&& joined_batches(batches) == all.take(joined_batches(batches).len() as int)
            &&& end is None ==> joined_batches(batches) == all
            &&& end is None ==> forall|j: int|
                i <= j < ms.len() ==> sound(#[trigger] ms[j], dimension)
            &&& end is Some ==> end == Some(too_long()) || exists|j: int|
                i <= j < ms.len() && !sound(#[trigger] ms[j], dimension)
            &&& forall|b: int|
                0 <= b < batches.len() ==> 0 < (#[trigger] batches[b]).len() && (batches[b].len()
                    <= size || batches[b].len() == 1)
        }),
    decreases ms.len() - i,
{
    let (batches, end) = bulk_batches(ms, i, pending, dimension, size);
    let up = |m: RecordModel| OpModel::Upsert(m);
    let all = pending + ms.skip(i).map_values(up);
    if i >= ms.len() {
        assert(ms.skip(i).map_values(up) =~= Seq::<OpModel>::empty());
        assert(all =~= pending);
        if pending.len() == 0 {
            assert(joined_batches(batches) =~= all);
            assert(all.take(0) =~= Seq::<OpModel>::empty());
        } else if end is None {
            assert(batches.drop_first() =~= Seq::empty());
            assert(joined_batches(batches.drop_first()) =~= Seq::<OpModel>::empty());
            assert(joined_batches(batches) =~= all);
            assert(all.take(all.len() as int) =~= all);
        } else {
            assert(joined_batches(batches) =~= Seq::<OpModel>::empty());
            assert(all.take(0) =~= Seq::<OpModel>::empty());
        }
    } else {
        law_record_defect(ms[i], dimension, false);
        let more = pending.push(OpModel::Upsert(ms[i]));
        let rest = ms.skip(i + 1).map_values(up);
        assert(all =~= more + rest);
        if record_defect(ms[i], dimension, false) is Some {
            assert(!sound(ms[i], dimension));
            assert(joined_batches(batches) =~= Seq::<OpModel>::empty());
            assert(all.take(0) =~= Seq::<OpModel>::empty());
        } else if more.len() < size {
            lemma_bulk(ms, i + 1, more, dimension, size);
        } else if crate::wal::batch_fits(more) {
            lemma_bulk(ms, i + 1, Seq::empty(), dimension, size);
            let (tail, _) = bulk_batches(ms, i + 1, Seq::empty(), dimension, size);
            assert(Seq::<OpModel>::empty() + rest =~= rest);
            assert(batches.drop_first() =~= tail);
            assert(batches[0] == more);
            let n = joined_batches(tail).len() as int;
            assert(joined_batches(batches) =~= all.take(more.len() + n)) by {
                assert(joined_batches(tail) == rest.take(n));
            }
            assert forall|b: int| 0 <= b < batches.len() implies 0 < (
            #[trigger] batches[b]).len() && (batches[b].len() <= size || batches[b].len()
                == 1) by {
                if b > 0 {
                    assert(batches[b] == tail[b - 1]);
                }
            }
            if end is None {
                assert(joined_batches(batches) =~= all);
            }
        } else {
            assert(joined_batches(batches) =~= Seq::<OpModel>::empty());
            assert(all.take(0) =~= Seq::<OpModel>::empty());
        }
    }
}

/// Bulk ingestion writes the records in their order and in batches of at most the given size: all
/// of them, unless one is not sound or a batch does not fit the log; the first ones then.
pub proof fn law_bulk(ms: Seq<RecordModel>, dimension: nat, size: nat)
    ensures
        ({
            let (batches, end) = bulk_batches(ms, 0, Seq::empty(), dimension, size);
            let all = ms.map_values(|m: RecordModel| OpModel::Upsert(m));
            let written = joined_batches(batches);
            &&& written.len() <= ms.len()
            &&& written == all.take(written.len() as int)
            &&& end is None ==> written == all && forall|j: int|
                0 <= j < ms.len() ==> sound(#[trigger] ms[j], dimension)
            &&& end is Some ==> end == Some(too_long()) || exists|j: int|
                0 <= j < ms.len() && !sound(#[trigger] ms[j], dimension)
            &&& forall|b: int|
                0 <= b < batches.len() ==> 0 < (#[trigger] batches[b]).len() && (batches[b].len()
                    <= size || batches[b].len() == 1)
        }),
{
    lemma_bulk(ms, 0, Seq::empty(), dimension, size);
    assert(ms.skip(0) =~= ms);
    let all = ms.map_values(|m: RecordModel| OpModel::Upsert(m));
    assert(Seq::<OpModel>::empty() + all =~= all);
}

} // verus!
