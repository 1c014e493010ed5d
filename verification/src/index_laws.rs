//! What the indexes hold, and when a stored one is taken up again.
use vstd::prelude::*;
use crate::ann::{rebuilt, SlotId};
use crate::arena::arena_rows;
use crate::commit::{arena_after, deleted_keys, written_keys, Effects};
use crate::database::Database;
use crate::json_search::{quantization_of, QuantizationOptions};
use crate::json_values::Dialect;
use crate::manifest::{group_entries, slots_to_load, stored_keys, EntryModel};
use crate::ordered_map::{ascending, has_key, lemma_map_of_at, map_of, position_of};
use crate::plan_laws::law_route;
use crate::quantization::QuantizationConfig;
use crate::quantized::space_docs;
use crate::record::{KeyModel, RecordModel};
use crate::wal::OpModel;

verus! {

/// The vectors in one run of memory are the main vectors of the records that have the dimension,
/// each under its key.
pub proof fn law_arena(rows: Seq<(KeyModel, RecordModel)>, dim: nat, k: KeyModel, v: Seq<u32>)
    ensures
        arena_rows(rows, dim).contains((k, v)) <==> v.len() == dim && exists|i: int|
            0 <= i < rows.len() && (#[trigger] rows[i]).0 == k && rows[i].1.vector == v,
    decreases rows.len(),
{
    if rows.len() > 0 {
        let less = rows.drop_last();
        law_arena(less, dim, k, v);
        let before = arena_rows(less, dim);
        let all = arena_rows(rows, dim);
        let last = rows.len() - 1;
        assert forall|i: int| 0 <= i < last implies #[trigger] less[i] == rows[i] by {}
        if all.contains((k, v)) {
            let p = choose|p: int| 0 <= p < all.len() && all[p] == (k, v);
            if p < before.len() {
                assert(before[p] == (k, v));
                let i = choose|i: int|
                    0 <= i < less.len() && (#[trigger] less[i]).0 == k && less[i].1.vector == v;
                assert(rows[i].0 == k);
            } else {
                assert(rows[last].0 == k);
            }
        }
        if v.len() == dim && exists|i: int|
            0 <= i < rows.len() && (#[trigger] rows[i]).0 == k && rows[i].1.vector == v {
            let i = choose|i: int|
                0 <= i < rows.len() && (#[trigger] rows[i]).0 == k && rows[i].1.vector == v;
            if i < last {
                assert(less[i].0 == k && less[i].1.vector == v);
                let p = choose|p: int| 0 <= p < before.len() && before[p] == (k, v);
                assert(all[p] == (k, v));
            } else {
                assert(all[before.len() as int] == (k, v));
            }
        }
    }
}

/// The documents of a space are the records that have token vectors in it.
pub proof fn law_space_docs(
    rows: Seq<(KeyModel, RecordModel)>,
    space: Seq<char>,
    k: KeyModel,
    tokens: Seq<Seq<u32>>,
)
    requires
        forall|i: int|
            0 <= i < rows.len() ==> ascending::<String, Seq<Seq<u32>>>(
                (#[trigger] rows[i]).1.multi_vectors,
            ),
    ensures
        space_docs(rows, space).contains((k, tokens)) <==> tokens.len() > 0 && exists|i: int|
            0 <= i < rows.len() && (#[trigger] rows[i]).0 == k && rows[i].1.multi_vectors.contains(
                (space, tokens),
            ),
    decreases rows.len(),
{
    if rows.len() > 0 {
        let less = rows.drop_last();
        let last = rows.len() - 1;
        assert forall|i: int| 0 <= i < last implies #[trigger] less[i] == rows[i] by {}
        assert forall|i: int| 0 <= i < less.len() implies ascending::<String, Seq<Seq<u32>>>(
            (#[trigger] less[i]).1.multi_vectors,
        ) by {
            assert(less[i] == rows[i]);
        }
        law_space_docs(less, space, k, tokens);
        let before = space_docs(less, space);
        let all = space_docs(rows, space);
        let spaces = rows[last].1.multi_vectors;
        lemma_space(spaces, space, tokens);
        if all.contains((k, tokens)) {
            let p = choose|p: int| 0 <= p < all.len() && all[p] == (k, tokens);
            if p < before.len() {
                assert(before[p] == (k, tokens));
                let i = choose|i: int|
                    0 <= i < less.len() && (#[trigger] less[i]).0 == k
                        && less[i].1.multi_vectors.contains((space, tokens));
                assert(rows[i].0 == k);
            } else {
                assert(rows[last].0 == k);
            }
        }
        if tokens.len() > 0 && exists|i: int|
            0 <= i < rows.len() && (#[trigger] rows[i]).0 == k && rows[i].1.multi_vectors.contains(
                (space, tokens),
            ) {
            let i = choose|i: int|
                0 <= i < rows.len() && (#[trigger] rows[i]).0 == k
                    && rows[i].1.multi_vectors.contains((space, tokens));
            if i < last {
                assert(less[i].0 == k && less[i].1.multi_vectors.contains((space, tokens)));
                let p = choose|p: int| 0 <= p < before.len() && before[p] == (k, tokens);
                assert(all[p] == (k, tokens));
            } else {
                assert(all[before.len() as int] == (k, tokens));
            }
        }
    }
}

proof fn lemma_space(
    spaces: Seq<(Seq<char>, Seq<Seq<u32>>)>,
    space: Seq<char>,
    tokens: Seq<Seq<u32>>,
)
    requires
        ascending::<String, Seq<Seq<u32>>>(spaces),
    ensures
        spaces.contains((space, tokens)) <==> has_key(spaces, space) && map_of(spaces)[space]
            == tokens,
{
    if has_key(spaces, space) {
        let p = position_of(spaces, space);
        lemma_map_of_at::<String, Seq<Seq<u32>>>(spaces, p);
        assert(spaces[p] == (space, map_of(spaces)[space]));
    }
    if spaces.contains((space, tokens)) {
        let p = choose|p: int| 0 <= p < spaces.len() && spaces[p] == (space, tokens);
        lemma_map_of_at::<String, Seq<Seq<u32>>>(spaces, p);
    }
}

/// A stored graph is taken up again only where one is stored for the very slot, over as many keys of
/// the same signature; its keys are as many, or it names none and has those that are expected.
pub proof fn law_stored_graph(expected: EntryModel, stored: Seq<EntryModel>)
    requires
        expected.keys.len() == expected.record_count,
    ensures
        stored_keys(expected, stored) matches Some(keys) ==> keys.len() == expected.record_count
            && exists|i: int|
            0 <= i < stored.len() && (#[trigger] stored[i]).slot == expected.slot
                && stored[i].record_count == expected.record_count && stored[i].key_signature
                == expected.key_signature && (stored[i].keys == keys || (stored[i].keys.len() == 0
                && keys == expected.keys)),
        stored.len() > 0 && stored[0] == expected ==> stored_keys(expected, stored) == Some(
            expected.keys,
        ),
    decreases stored.len(),
{
    if stored.len() > 0 && stored[0].slot != expected.slot {
        let rest = stored.drop_first();
        law_stored_graph(expected, rest);
        if let Some(keys) = stored_keys(expected, stored) {
            let i = choose|i: int|
                0 <= i < rest.len() && (#[trigger] rest[i]).slot == expected.slot
                    && rest[i].record_count == expected.record_count && rest[i].key_signature
                    == expected.key_signature && (rest[i].keys == keys || (rest[i].keys.len() == 0
                    && keys == expected.keys));
            assert(stored[i + 1] == rest[i]);
        }
    } else if stored.len() > 0 {
        assert(stored[0].slot == expected.slot);
    }
}

/// Stored graphs are taken up all together or not at all.
pub proof fn law_stored_graphs(expected: Seq<EntryModel>, stored: Seq<EntryModel>)
    ensures
        slots_to_load(expected, stored) is Some <==> forall|i: int|
            0 <= i < expected.len() ==> stored_keys(#[trigger] expected[i], stored) is Some,
        slots_to_load(expected, stored) matches Some(slots) ==> slots.len() == expected.len()
            && forall|i: int|
            0 <= i < slots.len() ==> (#[trigger] slots[i]).0 == expected[i].slot && Some(slots[i].1)
                == stored_keys(expected[i], stored),
    decreases expected.len(),
{
    if expected.len() > 0 {
        let less = expected.drop_last();
        law_stored_graphs(less, stored);
        assert forall|i: int| 0 <= i < less.len() implies #[trigger] less[i] == expected[i] by {}
        if slots_to_load(less, stored) is None {
            let i = choose|i: int|
                0 <= i < less.len() && stored_keys(#[trigger] less[i], stored) is None;
            assert(stored_keys(expected[i], stored) is None);
        }
        if let Some(slots) = slots_to_load(expected, stored) {
            let before = slots_to_load(less, stored)->Some_0;
            assert forall|i: int| 0 <= i < slots.len() implies (#[trigger] slots[i]).0
                == expected[i].slot && Some(slots[i].1) == stored_keys(expected[i], stored) by {
                if i < less.len() {
                    assert(slots[i] == before[i]);
                    assert(less[i] == expected[i]);
                }
            }
            assert forall|i: int| 0 <= i < expected.len() implies stored_keys(
                #[trigger] expected[i],
                stored,
            ) is Some by {
                assert(slots[i].0 == expected[i].slot);
            }
        }
    }
}

/// A graph is stored for each group of at least thirty-two keys, and for no other.
pub proof fn law_group_entries(gs: Seq<(SlotId, Seq<KeyModel>)>, slot: SlotId, keys: Seq<KeyModel>)
    ensures
        (exists|e: EntryModel| #[trigger]
            group_entries(gs).contains(e) && e.slot == slot && e.keys == keys) <==> keys.len() >= 32
            && gs.contains((slot, keys)),
        forall|e: EntryModel| #[trigger]
            group_entries(gs).contains(e) ==> e.record_count == e.keys.len(),
    decreases gs.len(),
{
    if gs.len() > 0 {
        let less = gs.drop_last();
        law_group_entries(less, slot, keys);
        let before = group_entries(less);
        let all = group_entries(gs);
        let last = gs.len() - 1;
        let entry = crate::manifest::entry_for(gs[last].0, gs[last].1);
        assert forall|e: EntryModel| #[trigger] all.contains(e) implies before.contains(e) || (e
            == entry && gs[last].1.len() >= 32) by {
            let p = choose|p: int| 0 <= p < all.len() && all[p] == e;
            if p < before.len() {
                assert(before[p] == e);
            }
        }
        assert forall|e: EntryModel| #[trigger] before.contains(e) implies all.contains(e) by {
            let p = choose|p: int| 0 <= p < before.len() && before[p] == e;
            assert(all[p] == e);
        }
        if gs[last].1.len() >= 32 {
            assert(all[before.len() as int] == entry);
            assert(all.contains(entry));
        }
        if less.contains((slot, keys)) {
            let p = choose|p: int| 0 <= p < less.len() && less[p] == (slot, keys);
            assert(gs[p] == (slot, keys));
        }
        if gs.contains((slot, keys)) {
            let p = choose|p: int| 0 <= p < gs.len() && gs[p] == (slot, keys);
            if p < last {
                assert(less[p] == (slot, keys));
                assert(less.contains((slot, keys)));
            }
        }
        if exists|e: EntryModel| #[trigger]
            all.contains(e) && e.slot == slot && e.keys == keys {
            let e = choose|e: EntryModel| #[trigger]
                all.contains(e) && e.slot == slot && e.keys == keys;
            if !before.contains(e) {
                assert(gs[last] == (slot, keys));
            }
        }
    }
}

/// Vectors are quantized where the database may be written to and has records, and, by parts, where
/// the parts divide the dimension and have between one and two hundred and fifty-six centroids.
pub proof fn law_quantization_refusal(db: &Database, config: QuantizationConfig)
    ensures
        db.quantization_refusal(config) is None <==> db.write_refusal() is None && db.rows().len() > 0
            && (config matches QuantizationConfig::Product(p) ==> p.num_sub_vectors > 0 && db.dim()
            % (p.num_sub_vectors as nat) == 0 && 1 <= p.num_centroids <= 256),
{
}

/// The settings of a quantization are those that are given, in either dialect and by every method.
pub proof fn law_quantization_given(
    d: Dialect,
    method: Seq<char>,
    o: QuantizationOptions,
    dimension: nat,
)
    ensures
        quantization_of(d, method, o, dimension) matches Ok(QuantizationConfig::Scalar(c)) ==> (
        o.rescore_multiplier matches Some(n) ==> c.rescore_multiplier == n),
        quantization_of(d, method, o, dimension) matches Ok(QuantizationConfig::Binary(c)) ==> (
        o.rescore_multiplier matches Some(n) ==> c.rescore_multiplier == n) && (
        o.rescore_multiplier is None ==> c.rescore_multiplier == 10),
        quantization_of(d, method, o, dimension) matches Ok(QuantizationConfig::Product(c)) ==> {
            &&& o.rescore_multiplier matches Some(n) ==> c.rescore_multiplier == n
            &&& o.num_sub_vectors matches Some(n) ==> c.num_sub_vectors == n
            &&& o.num_centroids matches Some(n) ==> c.num_centroids == n
            &&& o.num_centroids is None ==> c.num_centroids == 256
            &&& o.training_iterations matches Some(n) ==> c.training_iterations == n
            &&& o.training_iterations is None ==> c.training_iterations == 20
        },
        quantization_of(d, "scalar"@, o, dimension) matches Ok(QuantizationConfig::Scalar(_)),
        quantization_of(d, "binary"@, o, dimension) matches Ok(QuantizationConfig::Binary(_)),
        quantization_of(d, "product"@, o, dimension) matches Ok(QuantizationConfig::Product(_)),
        quantization_of(d, "pq"@, o, dimension) == quantization_of(d, "product"@, o, dimension),
{
    reveal_strlit("scalar");
    reveal_strlit("binary");
    reveal_strlit("product");
    reveal_strlit("pq");
    reveal_strlit("int8");
    assert(crate::text::lower_text("scalar"@) =~= "scalar"@);
    assert(crate::text::lower_text("binary"@) =~= "binary"@);
    assert(crate::text::lower_text("product"@) =~= "product"@);
    assert(crate::text::lower_text("pq"@) =~= "pq"@);
    assert("scalar"@[0] == 's' && "binary"@[0] == 'b' && "product"@[0] == 'p' && "int8"@[0] == 'i');
    assert("pq"@.len() == 2 && "product"@.len() == 7);
}

/// The keys that changes write are those of the records among them, and the keys that they delete
/// those of the deletions.
pub proof fn law_changed_keys(ops: Seq<OpModel>, k: KeyModel)
    ensures
        written_keys(ops).contains(k) <==> exists|i: int|
            0 <= i < ops.len() && (#[trigger] ops[i] matches OpModel::Upsert(m) && (m.namespace, m.id)
                == k),
        deleted_keys(ops).contains(k) <==> exists|i: int|
            0 <= i < ops.len() && #[trigger] ops[i] == OpModel::Delete(k),
    decreases ops.len(),
{
    if ops.len() > 0 {
        let less = ops.drop_last();
        let last = ops.len() - 1;
        law_changed_keys(less, k);
        assert forall|i: int| 0 <= i < last implies #[trigger] less[i] == ops[i] by {}
        let written = written_keys(less);
        let deleted = deleted_keys(less);
        if exists|i: int|
            0 <= i < less.len() && (#[trigger] less[i] matches OpModel::Upsert(m) && (
                m.namespace,
                m.id,
            ) == k) {
            let i = choose|i: int|
                0 <= i < less.len() && (#[trigger] less[i] matches OpModel::Upsert(m) && (
                    m.namespace,
                    m.id,
                ) == k);
            assert(ops[i] == less[i]);
        }
        if exists|i: int| 0 <= i < less.len() && #[trigger] less[i] == OpModel::Delete(k) {
            let i = choose|i: int| 0 <= i < less.len() && #[trigger] less[i] == OpModel::Delete(k);
            assert(ops[i] == less[i]);
        }
        if exists|i: int|
            0 <= i < ops.len() && (#[trigger] ops[i] matches OpModel::Upsert(m) && (m.namespace, m.id)
                == k) {
            let i = choose|i: int|
                0 <= i < ops.len() && (#[trigger] ops[i] matches OpModel::Upsert(m) && (
                    m.namespace,
                    m.id,
                ) == k);
            if i < last {
                assert(less[i] == ops[i]);
            }
        }
        if exists|i: int| 0 <= i < ops.len() && #[trigger] ops[i] == OpModel::Delete(k) {
            let i = choose|i: int| 0 <= i < ops.len() && #[trigger] ops[i] == OpModel::Delete(k);
            if i < last {
                assert(less[i] == ops[i]);
            }
        }
        match ops[last] {
            OpModel::Upsert(m) => {
                lemma_pushed(written, m.key(), k);
            },
            OpModel::Delete(d) => {
                lemma_pushed(deleted, d, k);
            },
            _ => {},
        }
    }
}

proof fn lemma_pushed<A>(s: Seq<A>, x: A, k: A)
    ensures
        s.push(x).contains(k) <==> s.contains(k) || x == k,
{
    let all = s.push(x);
    if s.contains(k) {
        let p = choose|p: int| 0 <= p < s.len() && s[p] == k;
        assert(all[p] == k);
    }
    if x == k {
        assert(all[s.len() as int] == k);
    }
    if all.contains(k) {
        let p = choose|p: int| 0 <= p < all.len() && all[p] == k;
        if p < s.len() {
            assert(s[p] == k);
        }
    }
}

/// Records that are appended to the vectors in one run of memory stand behind those that are there:
/// the main vectors, of the width, of the keys that are written.
pub proof fn law_arena_after(
    entries: Seq<(KeyModel, Seq<u32>)>,
    records: Map<KeyModel, RecordModel>,
    keys: Seq<KeyModel>,
    width: nat,
    k: KeyModel,
    v: Seq<u32>,
)
    ensures
        arena_after(entries, records, keys, width).contains((k, v)) <==> entries.contains((k, v)) || (
        keys.contains(k) && records.contains_key(k) && records[k].vector == v && v.len() == width),
        arena_after(entries, records, keys, width).len() >= entries.len(),
        arena_after(entries, records, keys, width).take(entries.len() as int) == entries,
    decreases keys.len(),
{
    if keys.len() > 0 {
        let less = keys.drop_last();
        law_arena_after(entries, records, less, width, k, v);
        let before = arena_after(entries, records, less, width);
        let last = keys.last();
        assert(keys =~= less.push(last));
        lemma_pushed(less, last, k);
        if records.contains_key(last) && records[last].vector.len() == width {
            lemma_pushed(before, (last, records[last].vector), (k, v));
            assert(before.push((last, records[last].vector)).take(entries.len() as int) =~= before.take(
                entries.len() as int,
            ));
        }
    } else {
        assert(entries.take(entries.len() as int) =~= entries);
    }
}

/// After records were written or deleted no quantized index that was built before is used any more:
/// where there are settings for one it is gone, and is to be built anew with these settings. Changes
/// of metadata and of expiry times leave every index as it is.
pub proof fn law_stale_indexes(after: &Database, before: &Database, ops: Seq<OpModel>, fx: &Effects)
    requires
        after.routed(before, ops, fx),
    ensures
        (exists|i: int|
            0 <= i < ops.len() && (#[trigger] ops[i] is Upsert || ops[i] is Delete)) ==> {
            &&& after.quantizer().config == before.quantizer().config
            &&& before.quantizer().config is Some ==> after.quantizer().index is None
                && after.quantizer().dirty
            &&& after.token_indexes().configs == before.token_indexes().configs
            &&& before.token_indexes().configs.pairs().len() > 0 ==> after.token_indexes().dirty
                && forall|space: Seq<char>|
                !#[trigger] after.token_indexes().indexes@.contains_key(space)
            &&& after.flags().dirty
        },
        (forall|i: int|
            0 <= i < ops.len() ==> (#[trigger] ops[i] is UpdateMetadata || ops[i] is SetTtl)) ==> {
            &&& after.quantizer() == before.quantizer()
            &&& after.token_indexes() == before.token_indexes()
            &&& after.graphs() == before.graphs()
            &&& after.terms() == before.terms()
            &&& after.scan_state() == before.scan_state()
        },
{
    law_route(before@, ops);
    if exists|i: int| 0 <= i < ops.len() && (#[trigger] ops[i] is Upsert || ops[i] is Delete) {
        let i = choose|i: int|
            0 <= i < ops.len() && (#[trigger] ops[i] is Upsert || ops[i] is Delete);
        assert(!(ops[i] is UpdateMetadata || ops[i] is SetTtl));
    }
}

/// After a batch every index is that of the records, or is gone and to be built anew.
pub proof fn law_reindexed(after: &Database, before: &Database, fx: &Effects)
    requires
        after.reindexed(before, fx),
    ensures
        after.quantizer().index is None,
        after.quantizer().config == before.quantizer().config,
        after.token_indexes().configs == before.token_indexes().configs,
        forall|space: Seq<char>| !#[trigger] after.token_indexes().indexes@.contains_key(space),
        after.graphs() == rebuilt(after.rows()),
        after.scan_state().1,
        fx.terms_rebuilt && fx.save_graphs,
        fx.retrain <==> after.quantizer().config is Some && after.rows().len() > 0,
{
}

} // verus!
