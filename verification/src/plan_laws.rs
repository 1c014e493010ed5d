//! How searches are planned and what graphs hold.
use vstd::prelude::*;
use crate::ann::{
    alive, buried_all, buried_slot, candidates_for, graph_search, in_slot, incremented,
    last_position, lemma_buried, lemma_buried_keys, lemma_last_position, members, new_items,
    rebuilt, resolved, slot_valid, tombstoned, Catalog, SlotId, SlotModel,
};
use crate::commit::{
    adds_only, keeps_vectors, op_touches_terms, route_of, touches_terms, Route,
};
use crate::database::Database;
use crate::error::Failure;
use crate::metric::DistanceMetric;
use crate::order::Key;
use crate::ordered_map::{
    ascending, has_key, lemma_ascending_determined, lemma_map_of_at, map_of, position_of,
};
use crate::record::{KeyModel, RecordModel};
use crate::search::{search_dimension, DenseSource};
use crate::search_options::HybridSearchOptions;
use crate::sparse_index::{postings_of, term_weight};
use crate::table::{apply_op, apply_ops};
use crate::wal::OpModel;

verus! {

/// How many components a search compares: all of the dimension, unless fewer are asked for, and
/// never more than the query has. It is refused where the query is empty, too long, or shorter than
/// what is compared.
pub proof fn law_search_dimension(dimension: nat, n: nat, truncate: Option<usize>)
    ensures
        search_dimension(dimension, None, truncate) == Ok::<Option<nat>, Failure>(None),
        match search_dimension(dimension, Some(n), truncate) {
            Ok(x) => {
                &&& x is Some
                &&& 0 < x->Some_0 <= n <= dimension
                &&& truncate is None ==> x->Some_0 == n == dimension
                &&& truncate is Some ==> x->Some_0 == truncate->Some_0
            },
            Err(_) => {
                ||| n == 0
                ||| n > dimension
                ||| truncate is None && n != dimension
                ||| truncate is Some && (truncate->Some_0 == 0 || truncate->Some_0 > n)
            },
        },
{
}

/// When a search is refused: where the database is closed, where it has nothing to look for, where
/// its query does not suit the dimension, or has no length though the metric divides by it, where
/// the balance for diversity is not between zero and one, and where the vector name is empty.
pub proof fn law_search_refusal(
    db: &Database,
    dense: Option<nat>,
    zero_norm: bool,
    has_terms: bool,
    options: &HybridSearchOptions,
)
    ensures
        db.search_refusal(dense, zero_norm, has_terms, options) is None <==> {
            &&& !db.closed()
            &&& dense is Some || has_terms
            &&& dense matches Some(n) ==> 0 < n <= db.dim() && (match options.truncate_dim {
                Some(t) => 0 < t <= n,
                None => n == db.dim(),
            })
            &&& dense is Some && zero_norm ==> db.measure() == DistanceMetric::Euclidean
                || db.measure() == DistanceMetric::Manhattan
            &&& options.mmr_lambda matches Some(l) ==> l <= 0x3f80_0000 || l == 0x8000_0000
            &&& options.vector_name matches Some(name) ==> name@.len() > 0
        },
{
    if let Some(name) = options.vector_name {
        if name@.len() == 0 {
            assert(name@ =~= Seq::<char>::empty());
        }
    }
}

/// Where candidates come from: a search without a query vector, or one that compares fewer
/// components, looks at all records; else the quantized index serves the main vector where it has
/// entries; else the graph of the very namespace and vector, where enough of its entries are live.
pub proof fn law_dense_source(
    db: &Database,
    has_query: bool,
    truncated: bool,
    namespace: Option<Seq<char>>,
    vector_name: Option<Seq<char>>,
    fetch_k: nat,
)
    requires
        fetch_k > 0,
        forall|s: SlotId| #[trigger]
            db.graphs().contains_key(s) ==> db.graphs()[s].dead.len() <= db.graphs()[s].keys.len(),
    ensures
        ({
            let source = db.dense_source(has_query, truncated, namespace, vector_name, fetch_k);
            let slot = (
                namespace,
                match vector_name {
                    Some(n) => n,
                    None => Seq::<char>::empty(),
                },
            );
            let graphed = db.graphs().contains_key(slot) && db.graphs()[slot].keys.len()
                - db.graphs()[slot].dead.len() >= 128;
            let coded = vector_name is None && db.quantizer().index is Some
                && db.quantizer().index->Some_0.size() > 0;
            &&& source == DenseSource::Scan <==> !has_query || truncated || (!coded && !graphed)
            &&& source == DenseSource::Quantized <==> has_query && !truncated && coded
            &&& source is Graph <==> has_query && !truncated && !coded && graphed
        }),
{
}

/// How many candidates a search looks at: all of a small number; else at least eight for each
/// wanted result and at least sixty-four, or all; and no more than that.
pub proof fn law_candidate_count(top_k: nat, total: nat)
    ensures
        ({
            let r = candidates_for(top_k, total);
            &&& r <= total
            &&& total <= 256 ==> r == total
            &&& r == total || (r >= 8 * top_k && r >= 64)
            &&& r == total || r == 64 || r == 8 * top_k
        }),
{
}

/// How a graph is searched: only where at least 128 entries are live, for as many candidates as a
/// search of the live entries looks at; at least as widely as there are candidates, and as widely as
/// was set; and more is fetched than is kept, to make up for dead entries, but no more than there is.
pub proof fn law_graph_search(
    total: nat,
    dead: nat,
    top_k: nat,
    ef_setting: Option<usize>,
    ef_construction: nat,
)
    requires
        dead <= total,
    ensures
        graph_search(total, dead, top_k, ef_setting, ef_construction) is Some <==> total - dead
            >= 128,
        graph_search(total, dead, top_k, ef_setting, ef_construction) matches Some((
            count,
            fetch,
            ef,
        )) ==> {
            &&& count == candidates_for(top_k, (total - dead) as nat)
            &&& count <= fetch <= total
            &&& fetch >= count + dead || fetch == 2 * count || fetch == total
            &&& dead == 0 ==> fetch == count
            &&& count <= ef
            &&& dead == 0 ==> (ef_setting matches Some(e) ==> ef == e || ef == count)
            &&& dead == 0 && ef_setting is None ==> ef >= ef_construction && (ef == ef_construction
                || ef == count)
            &&& dead == 0 ==> (ef_setting matches Some(e) ==> ef >= e)
        },
{
}

/// What graph neighbours stand for: one more neighbour gives one more key at the end where it is in
/// the graph, not dead, and fewer keys than are wanted were there, and else nothing.
pub proof fn law_neighbours(slot: SlotModel, neighbours: Seq<usize>, limit: nat, next: usize)
    ensures
        ({
            let r = resolved(slot, neighbours, limit);
            let more = resolved(slot, neighbours.push(next), limit);
            let live = next < slot.keys.len() && !slot.dead.contains(next);
            &&& r.len() <= limit
            &&& resolved(slot, Seq::empty(), limit).len() == 0
            &&& more == if live && r.len() < limit {
                r.push(slot.keys[next as int])
            } else {
                r
            }
        }),
{
    let keep = |d: usize| d < slot.keys.len() && !slot.dead.contains(d);
    reveal(Seq::filter);
    assert(Seq::<usize>::empty().filter(keep) =~= Seq::empty());
    crate::table::lemma_filter_push(neighbours, next, keep);
    let r = resolved(slot, neighbours, limit);
    let more = resolved(slot, neighbours.push(next), limit);
    if keep(next) && r.len() < limit {
        assert(more =~= r.push(slot.keys[next as int]));
    } else {
        assert(more =~= r);
    }
}

/// The members of a slot are the records of its namespace, or of all, that have its vector.
pub proof fn law_members(rows: Seq<(KeyModel, RecordModel)>, s: SlotId, k: KeyModel)
    ensures
        members(rows, s).contains(k) <==> exists|i: int|
            {
                let m = (#[trigger] rows[i]).1;
                &&& 0 <= i < rows.len()
                &&& rows[i].0 == k
                &&& s.0 matches Some(n) ==> k.0 == n
                &&& s.1.len() > 0 ==> exists|j: int|
                    0 <= j < m.vectors.len() && (#[trigger] m.vectors[j]).0 == s.1
            },
{
    let keep = |p: (KeyModel, RecordModel)| in_slot(p.0, p.1, s);
    let kept = rows.filter(keep);
    if members(rows, s).contains(k) {
        let j = choose|j: int| 0 <= j < kept.len() && members(rows, s)[j] == k;
        rows.lemma_filter_pred(keep, j);
        rows.lemma_filter_contains_rev(keep, kept[j]);
        let i = choose|i: int| 0 <= i < rows.len() && rows[i] == kept[j];
        assert(rows[i].0 == k && in_slot(k, rows[i].1, s));
    }
    if exists|i: int|
        {
            let m = (#[trigger] rows[i]).1;
            &&& 0 <= i < rows.len()
            &&& rows[i].0 == k
            &&& s.0 matches Some(n) ==> k.0 == n
            &&& s.1.len() > 0 ==> exists|j: int|
                0 <= j < m.vectors.len() && (#[trigger] m.vectors[j]).0 == s.1
        } {
        let i = choose|i: int|
            {
                let m = (#[trigger] rows[i]).1;
                &&& 0 <= i < rows.len()
                &&& rows[i].0 == k
                &&& s.0 matches Some(n) ==> k.0 == n
                &&& s.1.len() > 0 ==> exists|j: int|
                    0 <= j < m.vectors.len() && (#[trigger] m.vectors[j]).0 == s.1
            };
        assert(in_slot(k, rows[i].1, s));
        rows.lemma_filter_contains(keep, i);
        let j = choose|j: int| 0 <= j < kept.len() && kept[j] == rows[i];
        assert(members(rows, s)[j] == k);
    }
}

/// A rebuild makes a graph for exactly the slots with at least 32 members, and it holds these and
/// nothing dead.
pub proof fn law_rebuilt(rows: Seq<(KeyModel, RecordModel)>, s: SlotId)
    ensures
        rebuilt(rows).contains_key(s) <==> members(rows, s).len() >= 32,
        rebuilt(rows).contains_key(s) ==> rebuilt(rows)[s].keys == members(rows, s)
            && rebuilt(rows)[s].dead == Set::<usize>::empty(),
{
}

/// New records: a graph keeps what it has and gets the new members of its slot behind it, and a slot
/// without a graph gets one once it has a new member and at least 32 in all.
pub proof fn law_incremented(
    catalog: Catalog,
    rows: Seq<(KeyModel, RecordModel)>,
    new_keys: Seq<KeyModel>,
    s: SlotId,
)
    ensures
        ({
            let after = incremented(catalog, rows, new_keys);
            let items = new_keys.filter(
                |k: KeyModel| map_of(rows).contains_key(k) && in_slot(k, map_of(rows)[k], s),
            );
            &&& catalog.contains_key(s) ==> after.contains_key(s) && after[s].keys
                == catalog[s].keys + items && after[s].dead == catalog[s].dead
            &&& !catalog.contains_key(s) ==> (after.contains_key(s) <==> items.len() > 0 && members(
                rows,
                s,
            ).len() >= 32)
            &&& !catalog.contains_key(s) && after.contains_key(s) ==> after[s].keys == members(
                rows,
                s,
            ) && after[s].dead == Set::<usize>::empty()
        }),
{
    let items = new_keys.filter(
        |k: KeyModel| map_of(rows).contains_key(k) && in_slot(k, map_of(rows)[k], s),
    );
    assert(items == new_items(map_of(rows), new_keys, s));
}

/// Deleted keys are dead in every graph, and no entry of another key is.
pub proof fn law_buried(catalog: Catalog, dead: Seq<KeyModel>, s: SlotId, k: KeyModel)
    requires
        catalog.contains_key(s),
        slot_valid(catalog[s]),
    ensures
        ({
            let after = tombstoned(catalog, dead);
            &&& after.contains_key(s)
            &&& after[s].keys == catalog[s].keys
            &&& dead.contains(k) ==> !alive(after[s], k)
            &&& !dead.contains(k) && alive(catalog[s], k) ==> alive(after[s], k)
        }),
{
    lemma_buried_keys(catalog[s], dead);
    lemma_buried(catalog[s], dead, k);
    if dead.contains(k) {
        lemma_buried_dead(catalog[s], dead, k);
    }
}

proof fn lemma_buried_dead(s: SlotModel, dead: Seq<KeyModel>, k: KeyModel)
    requires
        dead.contains(k),
    ensures
        !alive(buried_all(s, dead), k),
    decreases dead.len(),
{
    let front = dead.drop_last();
    lemma_buried_keys(s, front);
    lemma_buried_keys(s, dead);
    if dead.last() != k {
        let i = choose|i: int| 0 <= i < dead.len() && dead[i] == k;
        assert(front[i] == k);
        lemma_buried_dead(s, front, k);
    }
}

/// Which way changes go: where every one leaves the vectors alone the graphs stay; else, where every
/// one adds a new key, or deletes one that is not there, they grow; else, where all are deletions,
/// entries are declared dead; and anything else rebuilds them.
pub proof fn law_route(records: Map<KeyModel, RecordModel>, ops: Seq<OpModel>)
    ensures
        ({
            let keep = forall|i: int|
                0 <= i < ops.len() ==> (#[trigger] ops[i]) is UpdateMetadata || ops[i] is SetTtl;
            let add = forall|i: int|
                0 <= i < ops.len() ==> match #[trigger] ops[i] {
                    OpModel::Upsert(m) => !records.contains_key((m.namespace, m.id)),
                    OpModel::Delete(k) => !records.contains_key(k),
                    _ => false,
                };
            let delete = forall|i: int| 0 <= i < ops.len() ==> (#[trigger] ops[i]) is Delete;
            &&& route_of(records, ops) == Route::Keep <==> keep
            &&& route_of(records, ops) == Route::Append <==> !keep && add
            &&& route_of(records, ops) == Route::Bury <==> !keep && !add && delete
            &&& route_of(records, ops) == Route::Rebuild <==> !keep && !add && !delete
        }),
{
    if forall|i: int|
        0 <= i < ops.len() ==> match #[trigger] ops[i] {
            OpModel::Upsert(m) => !records.contains_key((m.namespace, m.id)),
            OpModel::Delete(k) => !records.contains_key(k),
            _ => false,
        } {
        assert forall|i: int| 0 <= i < ops.len() implies adds_only(records, #[trigger] ops[i]) by {}
    }
    if forall|i: int| 0 <= i < ops.len() ==> adds_only(records, #[trigger] ops[i]) {
        assert forall|i: int| 0 <= i < ops.len() implies match #[trigger] ops[i] {
            OpModel::Upsert(m) => !records.contains_key((m.namespace, m.id)),
            OpModel::Delete(k) => !records.contains_key(k),
            _ => false,
        } by {
            assert(adds_only(records, ops[i]));
        }
    }
    if forall|i: int|
        0 <= i < ops.len() ==> (#[trigger] ops[i]) is UpdateMetadata || ops[i] is SetTtl {
        assert forall|i: int| 0 <= i < ops.len() implies keeps_vectors(#[trigger] ops[i]) by {}
    }
    if forall|i: int| 0 <= i < ops.len() ==> keeps_vectors(#[trigger] ops[i]) {
        assert forall|i: int| 0 <= i < ops.len() implies (#[trigger] ops[i]) is UpdateMetadata
            || ops[i] is SetTtl by {
            assert(keeps_vectors(ops[i]));
        }
    }
}

proof fn lemma_postings_ascend(rows: Seq<(KeyModel, RecordModel)>, term: Seq<char>)
    requires
        ascending::<(String, String), RecordModel>(rows),
    ensures
        ascending::<(String, String), u32>(postings_of(rows, term)),
        forall|j: int|
            0 <= j < postings_of(rows, term).len() ==> has_key(
                rows,
                (#[trigger] postings_of(rows, term)[j]).0,
            ),
        forall|k: KeyModel| #[trigger]
            has_key(postings_of(rows, term), k) <==> has_key(rows, k) && term_weight(
                map_of(rows)[k],
                term,
            ) is Some,
        forall|j: int|
            0 <= j < postings_of(rows, term).len() ==> term_weight(
                map_of(rows)[(#[trigger] postings_of(rows, term)[j]).0],
                term,
            ) == Some(postings_of(rows, term)[j].1),
    decreases rows.len(),
{
    let list = postings_of(rows, term);
    if rows.len() > 0 {
        let front = rows.drop_last();
        let n = rows.len() - 1;
        let last = rows[n];
        let before = postings_of(front, term);
        assert(ascending::<(String, String), RecordModel>(front)) by {
            assert forall|i: int, j: int|
                #![trigger front[i], front[j]]
                0 <= i < j < front.len() implies <(String, String) as Key>::before(
                front[i].0,
                front[j].0,
            ) by {
                assert(<(String, String) as Key>::before(rows[i].0, rows[j].0));
            }
        }
        lemma_postings_ascend(front, term);
        lemma_map_of_at::<(String, String), RecordModel>(rows, n);
        assert forall|k: KeyModel| #[trigger] has_key(rows, k) <==> has_key(front, k) || k
            == last.0 by {
            if has_key(rows, k) {
                let i = position_of(rows, k);
                assert(rows[i].0 == k);
                if i < n {
                    assert(front[i].0 == k);
                }
            }
            if has_key(front, k) {
                let i = position_of(front, k);
                assert(rows[i].0 == k);
            }
            if k == last.0 {
                assert(rows[n].0 == k);
            }
        }
        assert forall|k: KeyModel| has_key(front, k) implies #[trigger] map_of(rows)[k] == map_of(
            front,
        )[k] && <(String, String) as Key>::before(k, last.0) by {
            let i = position_of(front, k);
            lemma_map_of_at::<(String, String), RecordModel>(front, i);
            lemma_map_of_at::<(String, String), RecordModel>(rows, i);
            assert(rows[i] == front[i]);
            assert(<(String, String) as Key>::before(rows[i].0, rows[n].0));
        }
        <(String, String) as Key>::lemma_irreflexive(last.0);
        assert(!has_key(front, last.0)) by {
            if has_key(front, last.0) {
                assert(map_of(rows)[last.0] == map_of(front)[last.0]);
            }
        }
        assert forall|i: int, j: int|
            #![trigger list[i], list[j]]
            0 <= i < j < list.len() implies <(String, String) as Key>::before(
            list[i].0,
            list[j].0,
        ) by {
            assert(list[i] == before[i]);
            if j < before.len() {
                assert(list[j] == before[j]);
            } else {
                assert(has_key(front, before[i].0));
                assert(map_of(rows)[before[i].0] == map_of(front)[before[i].0]);
            }
        }
        assert forall|j: int| 0 <= j < list.len() implies has_key(rows, (#[trigger] list[j]).0)
            && term_weight(map_of(rows)[list[j].0], term) == Some(list[j].1) by {
            if j < before.len() {
                assert(list[j] == before[j]);
                assert(has_key(front, before[j].0));
                assert(map_of(rows)[before[j].0] == map_of(front)[before[j].0]);
            }
        }
        assert forall|k: KeyModel| #[trigger]
            has_key(list, k) <==> has_key(rows, k) && term_weight(map_of(rows)[k], term) is Some by {
            if has_key(list, k) {
                let j = position_of(list, k);
                assert(list[j].0 == k);
            }
            if has_key(rows, k) && term_weight(map_of(rows)[k], term) is Some {
                if has_key(front, k) {
                    assert(map_of(rows)[k] == map_of(front)[k]);
                    assert(has_key(before, k));
                    let j = position_of(before, k);
                    assert(list[j].0 == k);
                } else {
                    assert(list[list.len() - 1].0 == k);
                }
            }
        }
    }
}

proof fn lemma_terms_kept(records: Map<KeyModel, RecordModel>, ops: Seq<OpModel>)
    requires
        !touches_terms(records, ops),
        forall|k: KeyModel| #[trigger] records.contains_key(k) ==> records[k].key() == k,
    ensures
        ({
            let after = apply_ops(records, ops);
            forall|k: KeyModel|
                #![trigger after.contains_key(k)]
                #![trigger records.contains_key(k)]
                {
                    let old = if records.contains_key(k) {
                        records[k].sparse
                    } else {
                        Seq::empty()
                    };
                    let new = if after.contains_key(k) {
                        after[k].sparse
                    } else {
                        Seq::empty()
                    };
                    old == new
                }
        }),
    decreases ops.len(),
{
    if ops.len() > 0 {
        let front = ops.drop_last();
        assert forall|i: int| 0 <= i < front.len() implies !op_touches_terms(
            records,
            #[trigger] front[i],
        ) by {
            assert(front[i] == ops[i]);
        }
        lemma_terms_kept(records, front);
        let mid = apply_ops(records, front);
        let after = apply_ops(records, ops);
        assert(!op_touches_terms(records, ops[ops.len() - 1]));
        assert forall|k: KeyModel|
            #![trigger after.contains_key(k)]
            #![trigger records.contains_key(k)]
            {
                let old = if records.contains_key(k) {
                    records[k].sparse
                } else {
                    Seq::empty()
                };
                let new = if after.contains_key(k) {
                    after[k].sparse
                } else {
                    Seq::empty()
                };
                old == new
            } by {
            let old = if records.contains_key(k) {
                records[k].sparse
            } else {
                Seq::empty()
            };
            assert(mid.contains_key(k) ==> mid[k].sparse == old);
            assert(!mid.contains_key(k) ==> old.len() == 0);
            match ops.last() {
                OpModel::Upsert(m) => {
                    if k == m.key() {
                        assert(m.sparse.len() == 0);
                        assert(m.sparse =~= old);
                    }
                },
                OpModel::Delete(d) => {
                    if k == d {
                        assert(old =~= Seq::empty());
                    }
                },
                _ => {},
            }
        }
    }
}

/// Where changes bring or take away no sparse terms, every term keeps its postings, so that an index
/// that is not rebuilt still finds what the records hold.
pub proof fn law_postings_kept(
    before: Seq<(KeyModel, RecordModel)>,
    after: Seq<(KeyModel, RecordModel)>,
    ops: Seq<OpModel>,
    term: Seq<char>,
)
    requires
        ascending::<(String, String), RecordModel>(before),
        ascending::<(String, String), RecordModel>(after),
        forall|k: KeyModel| #[trigger]
            map_of(before).contains_key(k) ==> map_of(before)[k].key() == k,
        map_of(after) == apply_ops(map_of(before), ops),
        !touches_terms(map_of(before), ops),
    ensures
        postings_of(after, term) == postings_of(before, term),
{
    let x = map_of(before);
    let y = map_of(after);
    lemma_terms_kept(x, ops);
    lemma_postings_ascend(before, term);
    lemma_postings_ascend(after, term);
    let a = postings_of(before, term);
    let b = postings_of(after, term);
    assert forall|k: KeyModel| map_of(a).contains_key(k) == map_of(b).contains_key(k) && (map_of(
        a,
    ).contains_key(k) ==> #[trigger] map_of(a)[k] == map_of(b)[k]) by {
        assert(x.contains_key(k) == has_key(before, k));
        assert(y.contains_key(k) == has_key(after, k));
        assert(has_key(a, k) == (has_key(before, k) && term_weight(x[k], term) is Some));
        assert(has_key(b, k) == (has_key(after, k) && term_weight(y[k], term) is Some));
        if has_key(a, k) {
            assert(x[k].sparse == y[k].sparse);
            let p = position_of(a, k);
            lemma_map_of_at::<(String, String), u32>(a, p);
            assert(term_weight(x[a[p].0], term) == Some(a[p].1));
        }
        if has_key(b, k) {
            assert(x[k].sparse == y[k].sparse);
            let q = position_of(b, k);
            lemma_map_of_at::<(String, String), u32>(b, q);
            assert(term_weight(y[b[q].0], term) == Some(b[q].1));
        }
    }
    assert(map_of(a) =~= map_of(b));
    lemma_ascending_determined::<(String, String), u32>(a, b);
}

} // verus!
