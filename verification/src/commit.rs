//! Applying accepted changes to the records and to every index.
use vstd::prelude::*;
use crate::ann::{
    actions_wanted, catalog_valid, covers, in_slot, incremented, law_incremental_covers,
    law_rebuild_covers, law_tombstones_cover, names_valid, new_items, rebuilt, rows_named,
    tombstoned, ActionModel, Catalog, GraphAction, SlotId, SlotModel,
};
use crate::arena::VectorArena;
use crate::change::Change;
use crate::database::{Database, GraphFlags, QuantState, TokenIndex, TokenState};
use crate::order::Duplicate;
use crate::ordered_map::{ascending, lemma_map_of_at, map_of, OrderedMap};
use crate::plan_laws::law_postings_kept;
use crate::record::{KeyModel, RecordKey, RecordModel};
use crate::record_codec::named_valid;
use crate::snapshot::Records;
use crate::sparse_index::{postings_of, SparseIndex};
use crate::table::{apply_ops, entry_valid, ops_dimensioned, records_valid};
use crate::wal::{OpModel, WalOp};

verus! {

/// How the graphs take in changes.
#[derive(Clone, Copy, Debug, PartialEq, Eq, Structural)]
pub enum Route {
    /// No vector changes.
    Keep,
    /// Only new records: they are appended.
    Append,
    /// Only deletions: the deleted entries are declared dead.
    Bury,
    /// Anything else: the graphs are rebuilt.
    Rebuild,
}

/// Whether a change leaves all vectors as they are.
pub open spec fn keeps_vectors(op: OpModel) -> bool {
    op is UpdateMetadata || op is SetTtl
}

/// Whether a change adds a record with a new key, or deletes one that is not there.
pub open spec fn adds_only(records: Map<KeyModel, RecordModel>, op: OpModel) -> bool {
    match op {
        OpModel::Upsert(m) => !records.contains_key(m.key()),
        OpModel::Delete(k) => !records.contains_key(k),
        _ => false,
    }
}

/// Whether every change leaves all vectors as they are.
pub open spec fn all_keep(ops: Seq<OpModel>) -> bool {
    forall|i: int| 0 <= i < ops.len() ==> keeps_vectors(#[trigger] ops[i])
}

/// Whether every change only adds.
pub open spec fn all_add(records: Map<KeyModel, RecordModel>, ops: Seq<OpModel>) -> bool {
    forall|i: int| 0 <= i < ops.len() ==> adds_only(records, #[trigger] ops[i])
}

/// Whether every change is a deletion.
pub open spec fn all_delete(ops: Seq<OpModel>) -> bool {
    forall|i: int| 0 <= i < ops.len() ==> (#[trigger] ops[i]) is Delete
}

/// How the graphs take in changes to the given records.
pub open spec fn route_of(records: Map<KeyModel, RecordModel>, ops: Seq<OpModel>) -> Route {
    if all_keep(ops) {
        Route::Keep
    } else if all_add(records, ops) {
        Route::Append
    } else if all_delete(ops) {
        Route::Bury
    } else {
        Route::Rebuild
    }
}

/// Whether a change brings or takes away sparse terms.
pub open spec fn op_touches_terms(records: Map<KeyModel, RecordModel>, op: OpModel) -> bool {
    match op {
        OpModel::Upsert(m) => m.sparse.len() > 0 || (records.contains_key(m.key())
            && records[m.key()].sparse.len() > 0),
        OpModel::Delete(k) => records.contains_key(k) && records[k].sparse.len() > 0,
        _ => false,
    }
}

/// Whether some change brings or takes away sparse terms.
pub open spec fn touches_terms(records: Map<KeyModel, RecordModel>, ops: Seq<OpModel>) -> bool {
    exists|i: int| 0 <= i < ops.len() && op_touches_terms(records, #[trigger] ops[i])
}

/// The keys of the records that changes write, in their order.
pub open spec fn written_keys(ops: Seq<OpModel>) -> Seq<KeyModel>
    decreases ops.len(),
{
    if ops.len() == 0 {
        Seq::empty()
    } else {
        let before = written_keys(ops.drop_last());
        match ops.last() {
            OpModel::Upsert(m) => before.push(m.key()),
            _ => before,
        }
    }
}

/// The keys that changes delete, in their order.
pub open spec fn deleted_keys(ops: Seq<OpModel>) -> Seq<KeyModel>
    decreases ops.len(),
{
    if ops.len() == 0 {
        Seq::empty()
    } else {
        let before = deleted_keys(ops.drop_last());
        match ops.last() {
            OpModel::Delete(k) => before.push(k),
            _ => before,
        }
    }
}

/// What the graphs hold after changes; `rows` are the records after them.
pub open spec fn graphs_after(
    catalog: Catalog,
    records: Map<KeyModel, RecordModel>,
    rows: Seq<(KeyModel, RecordModel)>,
    ops: Seq<OpModel>,
) -> Catalog {
    match route_of(records, ops) {
        Route::Keep => catalog,
        Route::Append => incremented(catalog, rows, written_keys(ops)),
        Route::Bury => tombstoned(catalog, deleted_keys(ops)),
        Route::Rebuild => rebuilt(rows),
    }
}

/// Whether the records and the keys of a change are related as the routes assume.
proof fn lemma_ops_at(records: Map<KeyModel, RecordModel>, ops: Seq<OpModel>, k: KeyModel)
    ensures
        all_keep(ops) ==> {
            let after = apply_ops(records, ops);
            &&& after.contains_key(k) == records.contains_key(k)
            &&& records.contains_key(k) ==> after[k].vectors == records[k].vectors
        },
        (forall|i: int|
            0 <= i < ops.len() ==> (#[trigger] ops[i]) is Upsert || ops[i] is Delete) ==> {
            let after = apply_ops(records, ops);
            after.contains_key(k) ==> written_keys(ops).contains(k) || (records.contains_key(k)
                && records[k] == after[k])
        },
        all_delete(ops) ==> {
            let after = apply_ops(records, ops);
            after.contains_key(k) ==> records.contains_key(k) && records[k] == after[k]
                && !deleted_keys(ops).contains(k)
        },
    decreases ops.len(),
{
    if ops.len() > 0 {
        let t = ops.drop_last();
        let op = ops.last();
        let mid = apply_ops(records, t);
        lemma_ops_at(records, t, k);
        if all_keep(ops) {
            assert(all_keep(t)) by {
                assert forall|i: int| 0 <= i < t.len() implies keeps_vectors(#[trigger] t[i]) by {
                    assert(t[i] == ops[i]);
                }
            }
            assert(keeps_vectors(ops[ops.len() - 1]));
        }
        if forall|i: int| 0 <= i < ops.len() ==> (#[trigger] ops[i]) is Upsert || ops[i] is Delete {
            assert forall|i: int| 0 <= i < t.len() implies (#[trigger] t[i]) is Upsert
                || t[i] is Delete by {
                assert(t[i] == ops[i]);
            }
            assert(ops[ops.len() - 1] is Upsert || ops[ops.len() - 1] is Delete);
            if written_keys(t).contains(k) {
                let i = choose|i: int| 0 <= i < written_keys(t).len() && written_keys(t)[i] == k;
                assert(written_keys(ops)[i] == k);
            }
            if let OpModel::Upsert(m) = op {
                let w = written_keys(ops);
                assert(w[w.len() - 1] == m.key());
            }
        }
        if all_delete(ops) {
            assert(all_delete(t)) by {
                assert forall|i: int| 0 <= i < t.len() implies (#[trigger] t[i]) is Delete by {
                    assert(t[i] == ops[i]);
                }
            }
            assert(ops[ops.len() - 1] is Delete);
            let d = deleted_keys(ops);
            if d.contains(k) {
                let i = choose|i: int| 0 <= i < d.len() && d[i] == k;
                if i < deleted_keys(t).len() {
                    assert(deleted_keys(t)[i] == k);
                }
            }
        }
    }
}

/// Taking in changes keeps the graphs complete: every graph still holds every record of its slot.
pub proof fn law_graphs_stay_complete(
    catalog: Catalog,
    records: Map<KeyModel, RecordModel>,
    rows: Seq<(KeyModel, RecordModel)>,
    ops: Seq<OpModel>,
)
    requires
        covers(catalog, records),
        catalog_valid(catalog),
        ascending::<(String, String), RecordModel>(rows),
        rows.len() <= usize::MAX,
        map_of(rows) == apply_ops(records, ops),
        forall|s: SlotId| #[trigger]
            graphs_after(catalog, records, rows, ops).contains_key(s) ==> graphs_after(
                catalog,
                records,
                rows,
                ops,
            )[s].keys.len() <= usize::MAX,
    ensures
        covers(graphs_after(catalog, records, rows, ops), map_of(rows)),
        catalog_valid(graphs_after(catalog, records, rows, ops)),
{
    let after = map_of(rows);
    let out = graphs_after(catalog, records, rows, ops);
    match route_of(records, ops) {
        Route::Keep => {
            assert forall|s: SlotId, k: KeyModel|
                #![trigger catalog.contains_key(s), after.contains_key(k)]
                catalog.contains_key(s) && after.contains_key(k) && in_slot(
                    k,
                    after[k],
                    s,
                ) implies crate::ann::alive(catalog[s], k) by {
                lemma_ops_at(records, ops, k);
                assert(records.contains_key(k));
                assert(in_slot(k, records[k], s));
            }
        },
        Route::Append => {
            let keys = written_keys(ops);
            assert forall|i: int| 0 <= i < ops.len() implies (#[trigger] ops[i]) is Upsert
                || ops[i] is Delete by {
                assert(adds_only(records, ops[i]));
            }
            assert forall|k: KeyModel| #[trigger] after.contains_key(k) implies keys.contains(k)
                || (records.contains_key(k) && records[k].vectors == after[k].vectors) by {
                lemma_ops_at(records, ops, k);
            }
            assert forall|s: SlotId| #[trigger] catalog.contains_key(s) implies catalog[s].keys.len()
                + new_items(after, keys, s).len() <= usize::MAX by {
                assert(out.contains_key(s));
                assert(out[s].keys == catalog[s].keys + new_items(after, keys, s));
            }
            law_incremental_covers(catalog, records, rows, keys);
        },
        Route::Bury => {
            let dead = deleted_keys(ops);
            assert forall|k: KeyModel| #[trigger] after.contains_key(k) implies records.contains_key(
                k,
            ) && records[k] == after[k] && !dead.contains(k) by {
                lemma_ops_at(records, ops, k);
            }
            law_tombstones_cover(catalog, records, after, dead);
        },
        Route::Rebuild => {
            law_rebuild_covers(rows);
        },
    }
}

fn op_kind(op: &WalOp, records: &Records) -> (r: (bool, bool, bool, bool))
    ensures
        r.0 == keeps_vectors(op.deep_view()),
        r.1 == adds_only(records@, op.deep_view()),
        r.2 == (op.deep_view() is Delete),
        r.3 == op_touches_terms(records@, op.deep_view()),
{
    match op {
        WalOp::Upsert(record) => {
            let key = record.key();
            let has_terms: bool = record.sparse.len() > 0;
            match records.lookup(&key) {
                Some(existing) => (
                    false,
                    false,
                    false,
                    has_terms || existing.sparse.len() > 0,
                ),
                None => (false, true, false, has_terms),
            }
        },
        WalOp::Delete { namespace, id } => {
            let key = (namespace.duplicate(), id.duplicate());
            match records.lookup(&key) {
                Some(existing) => (false, false, true, existing.sparse.len() > 0),
                None => (false, true, true, false),
            }
        },
        WalOp::UpdateMetadata { .. } => (true, false, false, false),
        WalOp::SetTtl { .. } => (true, false, false, false),
    }
}

/// How the graphs take in changes, and whether the changes touch sparse terms.
pub fn classify(ops: &Vec<WalOp>, records: &Records) -> (r: (Route, bool))
    ensures
        r.0 == route_of(records@, ops.deep_view()),
        r.1 == touches_terms(records@, ops.deep_view()),
{
    let ghost all = ops.deep_view();
    let mut keep: bool = true;
    let mut add: bool = true;
    let mut delete: bool = true;
    let mut terms: bool = false;
    let mut i: usize = 0;
    while i < ops.len()
        invariant
            i <= ops@.len(),
            all == ops.deep_view(),
            keep == all_keep(all.take(i as int)),
            add == all_add(records@, all.take(i as int)),
            delete == all_delete(all.take(i as int)),
            terms == touches_terms(records@, all.take(i as int)),
        decreases ops@.len() - i,
    {
        let (k, a, d, t) = op_kind(&ops[i], records);
        proof {
            let b = all.take(i as int);
            let c = all.take(i + 1);
            let op = all[i as int];
            assert(op == ops@[i as int].deep_view());
            assert(c =~= b.push(op));
            assert(c[i as int] == op);
            assert forall|j: int| 0 <= j < b.len() implies #[trigger] b[j] == c[j] by {}
            assert(all_keep(c) == (all_keep(b) && keeps_vectors(op))) by {
                if all_keep(c) {
                    assert forall|j: int| 0 <= j < b.len() implies keeps_vectors(
                        #[trigger] b[j],
                    ) by {
                        assert(c[j] == b[j]);
                    }
                }
                if all_keep(b) && keeps_vectors(op) {
                    assert forall|j: int| 0 <= j < c.len() implies keeps_vectors(
                        #[trigger] c[j],
                    ) by {
                        if j < b.len() {
                            assert(c[j] == b[j]);
                        }
                    }
                }
            }
            assert(all_add(records@, c) == (all_add(records@, b) && adds_only(records@, op))) by {
                if all_add(records@, c) {
                    assert forall|j: int| 0 <= j < b.len() implies adds_only(
                        records@,
                        #[trigger] b[j],
                    ) by {
                        assert(c[j] == b[j]);
                    }
                }
                if all_add(records@, b) && adds_only(records@, op) {
                    assert forall|j: int| 0 <= j < c.len() implies adds_only(
                        records@,
                        #[trigger] c[j],
                    ) by {
                        if j < b.len() {
                            assert(c[j] == b[j]);
                        }
                    }
                }
            }
            assert(all_delete(c) == (all_delete(b) && op is Delete)) by {
                if all_delete(c) {
                    assert forall|j: int| 0 <= j < b.len() implies (#[trigger] b[j]) is Delete by {
                        assert(c[j] == b[j]);
                    }
                }
                if all_delete(b) && op is Delete {
                    assert forall|j: int| 0 <= j < c.len() implies (#[trigger] c[j]) is Delete by {
                        if j < b.len() {
                            assert(c[j] == b[j]);
                        }
                    }
                }
            }
            assert(touches_terms(records@, c) == (touches_terms(records@, b) || op_touches_terms(
                records@,
                op,
            ))) by {
                if touches_terms(records@, c) {
                    let j = choose|j: int|
                        0 <= j < c.len() && op_touches_terms(records@, #[trigger] c[j]);
                    if j < b.len() {
                        assert(op_touches_terms(records@, b[j]));
                    }
                }
                if touches_terms(records@, b) {
                    let j = choose|j: int|
                        0 <= j < b.len() && op_touches_terms(records@, #[trigger] b[j]);
                    assert(op_touches_terms(records@, c[j]));
                }
            }
        }
        keep = keep && k;
        add = add && a;
        delete = delete && d;
        terms = terms || t;
        i += 1;
    }
    proof {
        assert(all.take(i as int) =~= all);
    }
    let route = if keep {
        Route::Keep
    } else if add {
        Route::Append
    } else if delete {
        Route::Bury
    } else {
        Route::Rebuild
    };
    (route, terms)
}

fn keys_written(ops: &Vec<WalOp>) -> (r: Vec<RecordKey>)
    ensures
        r.deep_view() == written_keys(ops.deep_view()),
{
    let ghost all = ops.deep_view();
    let mut out: Vec<RecordKey> = Vec::new();
    let mut i: usize = 0;
    proof {
        assert(all.take(0) =~= Seq::empty());
        assert(out.deep_view() =~= Seq::<KeyModel>::empty());
    }
    while i < ops.len()
        invariant
            i <= ops@.len(),
            all == ops.deep_view(),
            out.deep_view() == written_keys(all.take(i as int)),
        decreases ops@.len() - i,
    {
        let ghost before = out.deep_view();
        proof {
            assert(all.take(i + 1).drop_last() =~= all.take(i as int));
            assert(all.take(i + 1).last() == ops@[i as int].deep_view());
        }
        match &ops[i] {
            WalOp::Upsert(record) => {
                let key = record.key();
                out.push(key);
                proof {
                    assert(out.deep_view() =~= before.push(key.deep_view()));
                }
            },
            _ => {},
        }
        i += 1;
    }
    proof {
        assert(all.take(i as int) =~= all);
    }
    out
}

fn keys_deleted(ops: &Vec<WalOp>) -> (r: Vec<RecordKey>)
    ensures
        r.deep_view() == deleted_keys(ops.deep_view()),
{
    let ghost all = ops.deep_view();
    let mut out: Vec<RecordKey> = Vec::new();
    let mut i: usize = 0;
    proof {
        assert(all.take(0) =~= Seq::empty());
        assert(out.deep_view() =~= Seq::<KeyModel>::empty());
    }
    while i < ops.len()
        invariant
            i <= ops@.len(),
            all == ops.deep_view(),
            out.deep_view() == deleted_keys(all.take(i as int)),
        decreases ops@.len() - i,
    {
        let ghost before = out.deep_view();
        proof {
            assert(all.take(i + 1).drop_last() =~= all.take(i as int));
            assert(all.take(i + 1).last() == ops@[i as int].deep_view());
        }
        match &ops[i] {
            WalOp::Delete { namespace, id } => {
                let key = (namespace.duplicate(), id.duplicate());
                out.push(key);
                proof {
                    assert(out.deep_view() =~= before.push(key.deep_view()));
                }
            },
            _ => {},
        }
        i += 1;
    }
    proof {
        assert(all.take(i as int) =~= all);
    }
    out
}

/// What is left to do, outside the database, after changes.
pub struct Effects {
    /// What has to be done to the graphs, in this order.
    pub actions: Vec<GraphAction>,
    /// Whether the index over sparse terms was rebuilt.
    pub terms_rebuilt: bool,
    /// Whether the quantized index is to be rebuilt from the records.
    pub retrain: bool,
    /// The spaces whose quantized indexes are to be rebuilt from the records.
    pub spaces: Vec<String>,
    /// Whether the graphs are to be saved.
    pub save_graphs: bool,
}

impl Effects {
    /// Whether only graph actions and the index over sparse terms are concerned.
    pub open spec fn only_graphs(&self) -> bool {
        !self.retrain && self.spaces@.len() == 0 && !self.save_graphs
    }

    /// Whether there is nothing to do.
    pub open spec fn nothing(&self) -> bool {
        self.only_graphs() && self.actions@.len() == 0 && !self.terms_rebuilt
    }

    fn none() -> (r: Self)
        ensures
            r.nothing(),
    {
        Effects {
            actions: Vec::new(),
            terms_rebuilt: false,
            retrain: false,
            spaces: Vec::new(),
            save_graphs: false,
        }
    }
}

/// Whether actions clear all graphs and then build those of `graphs`, in slot order.
pub open spec fn builds_all(
    actions: Seq<GraphAction>,
    graphs: Seq<(SlotId, SlotModel)>,
    threshold: nat,
) -> bool {
    &&& actions.len() == graphs.len() + 1
    &&& actions[0].deep_view() == ActionModel::Clear
    &&& forall|i: int|
        0 <= i < graphs.len() ==> (#[trigger] actions[i + 1]).deep_view() == (ActionModel::Build {
            slot: graphs[i].0,
            keys: graphs[i].1.keys,
            parallel: graphs[i].1.keys.len() >= threshold,
        })
}

/// The arena entries after appending records.
pub open spec fn arena_after(
    entries: Seq<(KeyModel, Seq<u32>)>,
    records: Map<KeyModel, RecordModel>,
    keys: Seq<KeyModel>,
    width: nat,
) -> Seq<(KeyModel, Seq<u32>)>
    decreases keys.len(),
{
    if keys.len() == 0 {
        entries
    } else {
        let before = arena_after(entries, records, keys.drop_last(), width);
        let k = keys.last();
        if records.contains_key(k) && records[k].vector.len() == width {
            before.push((k, records[k].vector))
        } else {
            before
        }
    }
}

/// Whether the quantized index was dropped, to be rebuilt later, where there are settings for one.
pub open spec fn quant_dropped(before: QuantState, after: QuantState) -> bool {
    if before.config is Some {
        &&& after.config == before.config
        &&& after.index is None
        &&& after.keys@.len() == 0
        &&& after.dirty
    } else {
        after == before
    }
}

/// Whether the quantized indexes over token vectors were dropped, to be rebuilt later, where there
/// are settings for any.
pub open spec fn tokens_dropped(before: TokenState, after: TokenState) -> bool {
    if before.configs.pairs().len() > 0 {
        &&& after.configs == before.configs
        &&& after.indexes@ == Map::<Seq<char>, TokenIndex>::empty()
        &&& after.dirty
    } else {
        after == before
    }
}

/// Records at their keys that suit the dimension have no empty vector names.
pub proof fn lemma_rows_named(rows: Seq<(KeyModel, RecordModel)>, dimension: nat)
    requires
        ascending::<(String, String), RecordModel>(rows),
        records_valid(map_of(rows), dimension),
    ensures
        rows_named(rows),
{
    assert forall|i: int| 0 <= i < rows.len() implies names_valid((#[trigger] rows[i]).1) by {
        lemma_map_of_at::<(String, String), RecordModel>(rows, i);
        assert(map_of(rows).contains_key(rows[i].0));
        assert(entry_valid((rows[i].0, map_of(rows)[rows[i].0]), dimension));
        assert(named_valid(rows[i].1.vectors, dimension));
    }
}

impl Database {
    /// The graphs in slot order.
    pub open(crate) spec fn graph_list(&self) -> Seq<(SlotId, SlotModel)> {
        self.catalog.entries()
    }

    /// Everything but the records is as before.
    pub open(crate) spec fn same_but_records(&self, other: &Database) -> bool {
        &&& self.dim() == other.dim()
        &&& self.kinds() == other.kinds()
        &&& self.metric == other.metric
        &&& self.config == other.config
        &&& self.access == other.access
        &&& self.log == other.log
        &&& self.catalog == other.catalog
        &&& self.ann == other.ann
        &&& self.sparse == other.sparse
        &&& self.arena == other.arena
        &&& self.arena_dirty == other.arena_dirty
        &&& self.quant == other.quant
        &&& self.tokens == other.tokens
    }

    fn apply(&mut self, ops: Vec<WalOp>)
        requires
            old(self).wf(),
            ops_dimensioned(ops.deep_view(), old(self).dim()),
        ensures
            final(self).wf(),
            final(self).same_but_records(old(self)),
            final(self)@ == apply_ops(old(self)@, ops.deep_view()),
    {
        self.table.apply_ops_in_memory(ops);
    }

    fn drop_quantized(&mut self)
        requires
            old(self).wf(),
        ensures
            final(self).wf(),
            final(self).table == old(self).table,
            final(self).metric == old(self).metric,
            final(self).config == old(self).config,
            final(self).access == old(self).access,
            final(self).log == old(self).log,
            final(self).catalog == old(self).catalog,
            final(self).ann == old(self).ann,
            final(self).sparse == old(self).sparse,
            final(self).arena == old(self).arena,
            final(self).arena_dirty == old(self).arena_dirty,
            quant_dropped(old(self).quant, final(self).quant),
            tokens_dropped(old(self).tokens, final(self).tokens),
    {
        if self.quant.config.is_some() {
            self.quant.index = None;
            self.quant.keys = Vec::new();
            self.quant.dirty = true;
        }
        if self.tokens.configs.len() > 0 {
            self.tokens.indexes = OrderedMap::new();
            self.tokens.dirty = true;
        }
    }

    fn append_to_arena(&mut self, keys: &Vec<RecordKey>)
        requires
            old(self).wf(),
        ensures
            final(self).wf(),
            final(self).table == old(self).table,
            final(self).metric == old(self).metric,
            final(self).config == old(self).config,
            final(self).access == old(self).access,
            final(self).log == old(self).log,
            final(self).catalog == old(self).catalog,
            final(self).ann == old(self).ann,
            final(self).sparse == old(self).sparse,
            final(self).quant == old(self).quant,
            final(self).tokens == old(self).tokens,
            final(self).arena_dirty == old(self).arena_dirty,
            match old(self).arena {
                Some(a) => final(self).arena matches Some(b) && b.width() == a.width() && b@
                    == arena_after(a@, old(self)@, keys.deep_view(), a.width()),
                None => final(self).arena is None,
            },
    {
        let ghost records = self@;
        let ghost all = keys.deep_view();
        let mut taken: Option<VectorArena> = None;
        core::mem::swap(&mut taken, &mut self.arena);
        match taken {
            Some(a) => {
                let mut arena = a;
                let ghost start = arena@;
                let ghost width = arena.width();
                let mut i: usize = 0;
                proof {
                    assert(all.take(0) =~= Seq::empty());
                }
                while i < keys.len()
                    invariant
                        i <= keys@.len(),
                        all == keys.deep_view(),
                        self.table == old(self).table,
                        self.metric == old(self).metric,
                        self.config == old(self).config,
                        self.access == old(self).access,
                        self.log == old(self).log,
                        self.catalog == old(self).catalog,
                        self.ann == old(self).ann,
                        self.sparse == old(self).sparse,
                        self.quant == old(self).quant,
                        self.tokens == old(self).tokens,
                        self.arena_dirty == old(self).arena_dirty,
                        records == self@,
                        arena.wf(),
                        arena.width() == width,
                        arena@ == arena_after(start, records, all.take(i as int), width),
                    decreases keys@.len() - i,
                {
                    let key = &keys[i];
                    proof {
                        assert(all.take(i + 1).drop_last() =~= all.take(i as int));
                        assert(all.take(i + 1).last() == key.deep_view());
                    }
                    match self.table.records.lookup(key) {
                        Some(record) => {
                            proof {
                                assert(record@.vector =~= record.vector@);
                            }
                            arena.append(key.duplicate(), &record.vector);
                        },
                        None => {},
                    }
                    i += 1;
                }
                proof {
                    assert(all.take(i as int) =~= all);
                }
                self.arena = Some(arena);
            },
            None => {},
        }
    }
}

/// The names of the spaces that have settings for an index.
pub open spec fn space_names(t: TokenState) -> Seq<Seq<char>> {
    Seq::new(t.configs.pairs().len(), |i: int| t.configs.pairs()[i].0)
}

impl Database {
    pub(crate) fn space_list(&self) -> (r: Vec<String>)
        ensures
            r.deep_view() == space_names(self.tokens),
    {
        let mut out: Vec<String> = Vec::new();
        let mut i: usize = 0;
        while i < self.tokens.configs.len()
            invariant
                i <= self.tokens.configs.pairs().len(),
                out@.len() == i,
                forall|k: int|
                    0 <= k < i ==> (#[trigger] out@[k])@ == self.tokens.configs.pairs()[k].0,
            decreases self.tokens.configs.pairs().len() - i,
        {
            out.push(self.tokens.configs.key_at(i).duplicate());
            i += 1;
        }
        proof {
            assert(out.deep_view() =~= space_names(self.tokens));
        }
        out
    }

    /// Whether the index over sparse terms has, for every term, the records that weigh it.
    pub open(crate) spec fn terms_current(&self) -> bool {
        forall|term: Seq<char>| #[trigger]
            self.terms().of_term(term) == postings_of(self.rows(), term)
    }

    /// Whether every index was rebuilt from the records, or is to be.
    pub open spec fn reindexed(&self, before: &Database, fx: &Effects) -> bool {
        &&& self.graphs() == rebuilt(self.rows())
        &&& builds_all(
            fx.actions@,
            self.graph_list(),
            self.tuning().parallel_insert_threshold as nat,
        )
        &&& self.flags() == (GraphFlags { loaded: false, dirty: false })
        &&& self.terms().describes(self.rows())
        &&& fx.terms_rebuilt
        &&& fx.save_graphs
        &&& self.scan_state() == (before.scan_state().0, true)
        &&& self.quantizer().config == before.quantizer().config
        &&& self.quantizer().index is None
        &&& self.quantizer().keys@.len() == 0
        &&& !self.quantizer().dirty
        &&& fx.retrain == (self.quantizer().config is Some && self.rows().len() > 0)
        &&& self.token_indexes().configs == before.token_indexes().configs
        &&& self.token_indexes().indexes@ == Map::<Seq<char>, TokenIndex>::empty()
        &&& !self.token_indexes().dirty
        &&& fx.spaces.deep_view() == space_names(self.token_indexes())
    }

    /// Rebuilds every index after records were written without touching the indexes.
    pub fn reindex(&mut self) -> (fx: Effects)
        requires
            old(self).wf(),
        ensures
            final(self).wf(),
            final(self).same_settings(old(self)),
            final(self).rows() == old(self).rows(),
            final(self)@ == old(self)@,
            final(self).reindexed(old(self), &fx),
            final(self).complete(),
    {
        let ghost rows = self.rows();
        proof {
            use_type_invariant(&self.table.records);
            self.table.records.lemma_pairs_ascending();
            lemma_rows_named(rows, self.dim());
            self.table.records.lemma_len();
        }
        self.sparse = SparseIndex::build(&self.table.records);
        let actions = self.catalog.rebuild_ann(&self.table.records, &self.config);
        proof {
            law_rebuild_covers(rows);
        }
        self.ann = GraphFlags { loaded: false, dirty: false };
        self.arena_dirty = true;
        self.quant.index = None;
        self.quant.keys = Vec::new();
        self.quant.dirty = false;
        self.tokens.indexes = OrderedMap::new();
        self.tokens.dirty = false;
        let spaces = self.space_list();
        let retrain: bool = self.quant.config.is_some() && self.table.records.len() > 0;
        Effects { actions, terms_rebuilt: true, retrain, spaces, save_graphs: true }
    }

    /// Applies changes to the records only. The indexes are rebuilt by `reindex`.
    pub fn apply_chunk(&mut self, change: Change)
        requires
            old(self).wf(),
            ops_dimensioned(change@.ops, old(self).dim()),
        ensures
            final(self).wf(),
            final(self).same_but_records(old(self)),
            final(self)@ == apply_ops(old(self)@, change@.ops),
    {
        self.apply(change.ops);
    }

    /// Whether the indexes have taken in changes one by one.
    pub open spec fn routed(&self, before: &Database, ops: Seq<OpModel>, fx: &Effects) -> bool {
        let route = route_of(before@, ops);
        let keys = written_keys(ops);
        &&& fx.only_graphs()
        &&& self.graphs() == graphs_after(before.graphs(), before@, self.rows(), ops)
        &&& match route {
            Route::Keep => fx.actions@.len() == 0,
            Route::Append => actions_wanted(
                fx.actions.deep_view(),
                before.graphs(),
                self.rows(),
                keys,
                self.tuning().parallel_insert_threshold as nat,
            ),
            Route::Bury => fx.actions@.len() == 0,
            Route::Rebuild => builds_all(
                fx.actions@,
                self.graph_list(),
                self.tuning().parallel_insert_threshold as nat,
            ),
        }
        &&& if route == Route::Keep {
            &&& self.flags() == before.flags()
            &&& self.terms() == before.terms()
            &&& !fx.terms_rebuilt
            &&& self.scan_state() == before.scan_state()
            &&& self.quantizer() == before.quantizer()
            &&& self.token_indexes() == before.token_indexes()
        } else {
            &&& self.flags() == (GraphFlags { loaded: false, dirty: true })
            &&& fx.terms_rebuilt == touches_terms(before@, ops)
            &&& if fx.terms_rebuilt {
                self.terms().describes(self.rows())
            } else {
                self.terms() == before.terms()
            }
            &&& quant_dropped(before.quantizer(), self.quantizer())
            &&& tokens_dropped(before.token_indexes(), self.token_indexes())
            &&& if route == Route::Append {
                &&& self.scan_state().1 == before.scan_state().1
                &&& match before.scan_state().0 {
                    Some(a) if !before.scan_state().1 => self.scan_state().0 matches Some(b)
                        && b.width() == a.width() && b@ == arena_after(
                        a@,
                        self@,
                        keys,
                        a.width(),
                    ),
                    _ => self.scan_state().0 == before.scan_state().0,
                }
            } else {
                self.scan_state() == (before.scan_state().0, true)
            }
        }
    }

    /// Applies accepted changes to the records and to every index.
    pub fn commit(&mut self, change: Change) -> (fx: Effects)
        requires
            old(self).wf(),
            ops_dimensioned(change@.ops, old(self).dim()),
        ensures
            final(self).wf(),
            final(self).same_settings(old(self)),
            final(self)@ == apply_ops(old(self)@, change@.ops),
            old(self).complete() ==> final(self).complete(),
            old(self).terms_current() ==> final(self).terms_current(),
            change@.ops.len() == 0 ==> *final(self) == *old(self) && fx.nothing(),
            change@.ops.len() > 0 && change@.whole ==> final(self).reindexed(old(self), &fx),
            change@.ops.len() > 0 && !change@.whole ==> final(self).routed(
                old(self),
                change@.ops,
                &fx,
            ),
    {
        if change.ops.len() == 0 {
            return Effects::none();
        }
        if change.whole {
            self.apply(change.ops);
            return self.reindex();
        }
        self.commit_routed(change.ops)
    }

    fn commit_routed(&mut self, ops: Vec<WalOp>) -> (fx: Effects)
        requires
            old(self).wf(),
            ops_dimensioned(ops.deep_view(), old(self).dim()),
        ensures
            final(self).wf(),
            final(self).same_settings(old(self)),
            final(self)@ == apply_ops(old(self)@, ops.deep_view()),
            old(self).complete() ==> final(self).complete(),
            old(self).terms_current() ==> final(self).terms_current(),
            final(self).routed(old(self), ops.deep_view(), &fx),
    {
        let ghost all = ops.deep_view();
        let ghost before = self@;
        let ghost graphs = self.graphs();
        let ghost old_rows = self.rows();
        proof {
            use_type_invariant(&self.table.records);
            self.table.records.lemma_pairs_ascending();
        }
        let (route, terms) = classify(&ops, &self.table.records);
        let written = keys_written(&ops);
        let deleted = keys_deleted(&ops);
        self.apply(ops);
        proof {
            use_type_invariant(&self.table.records);
            self.table.records.lemma_pairs_ascending();
            lemma_rows_named(self.rows(), self.dim());
            self.table.records.lemma_len();
        }
        let mut fx = Effects::none();
        match route {
            Route::Keep => {},
            Route::Append => {
                if self.arena.is_some() && !self.arena_dirty {
                    self.append_to_arena(&written);
                }
                let actions = self.catalog.ann_apply_incremental(
                    &written,
                    &self.table.records,
                    &self.config,
                );
                fx.actions = actions;
            },
            Route::Bury => {
                self.catalog.ann_apply_tombstones(&deleted);
                self.arena_dirty = true;
            },
            Route::Rebuild => {
                let actions = self.catalog.rebuild_ann(&self.table.records, &self.config);
                fx.actions = actions;
                self.arena_dirty = true;
            },
        }
        proof {
            self.catalog.lemma_lengths();
            if covers(graphs, before) {
                law_graphs_stay_complete(graphs, before, self.rows(), all);
            }
            lemma_valid_after(graphs, before, self.rows(), all);
        }
        match route {
            Route::Keep => {},
            _ => {
                if terms {
                    self.sparse = SparseIndex::build(&self.table.records);
                    fx.terms_rebuilt = true;
                }
                self.ann = GraphFlags { loaded: false, dirty: true };
                self.drop_quantized();
            },
        }
        proof {
            if old(self).terms_current() && !fx.terms_rebuilt {
                if route == Route::Keep {
                    assert forall|i: int| 0 <= i < all.len() implies !op_touches_terms(
                        before,
                        #[trigger] all[i],
                    ) by {
                        assert(keeps_vectors(all[i]));
                    }
                }
                assert forall|k: KeyModel| #[trigger]
                    map_of(old_rows).contains_key(k) implies map_of(old_rows)[k].key() == k by {
                    assert(before.contains_key(k));
                    assert(entry_valid((k, before[k]), old(self).dim()));
                }
                assert forall|term: Seq<char>| #[trigger]
                    self.terms().of_term(term) == postings_of(self.rows(), term) by {
                    law_postings_kept(old_rows, self.rows(), all, term);
                    assert(old(self).terms().of_term(term) == postings_of(old_rows, term));
                }
            }
        }
        fx
    }
}

/// Taking in changes keeps dead ids among the ids of their graphs.
proof fn lemma_valid_after(
    catalog: Catalog,
    records: Map<KeyModel, RecordModel>,
    rows: Seq<(KeyModel, RecordModel)>,
    ops: Seq<OpModel>,
)
    requires
        catalog_valid(catalog),
        ascending::<(String, String), RecordModel>(rows),
        rows.len() <= usize::MAX,
        forall|s: SlotId| #[trigger]
            graphs_after(catalog, records, rows, ops).contains_key(s) ==> graphs_after(
                catalog,
                records,
                rows,
                ops,
            )[s].keys.len() <= usize::MAX,
    ensures
        catalog_valid(graphs_after(catalog, records, rows, ops)),
{
    let out = graphs_after(catalog, records, rows, ops);
    match route_of(records, ops) {
        Route::Keep => {},
        Route::Append => {
            law_rebuild_covers(rows);
            assert forall|s: SlotId| #[trigger] out.contains_key(s) implies crate::ann::slot_valid(
                out[s],
            ) by {
                if catalog.contains_key(s) {
                    assert(crate::ann::slot_valid(catalog[s]));
                } else {
                    assert(rebuilt(rows).contains_key(s));
                }
            }
        },
        Route::Bury => {
            let none = Map::<KeyModel, RecordModel>::empty();
            law_tombstones_cover(catalog, none, none, deleted_keys(ops));
        },
        Route::Rebuild => {
            law_rebuild_covers(rows);
        },
    }
}

} // verus!
