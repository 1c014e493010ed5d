//! What the index over sparse terms finds.
use vstd::prelude::*;
use crate::ordered_map::{
    ascending, has_key, lemma_ascending_unique, lemma_map_of_at, map_of, position_of,
};
use crate::record::{KeyModel, RecordModel};
use crate::sparse_index::{positive_weights, postings_of, term_weight, SparseIndex};

verus! {

/// Whether a record gives a term a weight greater than zero, or one that is no number.
pub open spec fn weighs(m: RecordModel, term: Seq<char>) -> bool {
    exists|q: int|
        {
            &&& 0 <= q < m.sparse.len()
            &&& (#[trigger] m.sparse[q]).0 == term
            &&& 0 < m.sparse[q].1 < 0x8000_0000 || m.sparse[q].1 > 0xff80_0000
        }
}

/// The weight that a record gives a term.
pub proof fn law_term_weight(m: RecordModel, term: Seq<char>, q: int)
    requires
        ascending::<String, u32>(m.sparse),
        0 <= q < m.sparse.len(),
        m.sparse[q].0 == term,
    ensures
        0 < m.sparse[q].1 <= 0x7f80_0000 ==> term_weight(m, term) == Some(m.sparse[q].1),
        m.sparse[q].1 == 0 || 0x8000_0000 <= m.sparse[q].1 <= 0xff80_0000 ==> term_weight(
            m,
            term,
        ) is None,
{
    assert(has_key(m.sparse, term));
    lemma_map_of_at::<String, u32>(m.sparse, q);
}

proof fn lemma_weighs(m: RecordModel, term: Seq<char>)
    requires
        ascending::<String, u32>(m.sparse),
    ensures
        term_weight(m, term) is Some == weighs(m, term),
        term_weight(m, term) matches Some(w) ==> m.sparse.contains((term, w)),
{
    if has_key(m.sparse, term) {
        let p = position_of(m.sparse, term);
        lemma_map_of_at::<String, u32>(m.sparse, p);
        assert(m.sparse[p] == (term, map_of(m.sparse)[term]));
        assert forall|q: int| 0 <= q < m.sparse.len() && (#[trigger] m.sparse[q]).0
            == term implies q == p by {
            lemma_ascending_unique::<String, u32>(m.sparse, q, p);
        }
    }
}

proof fn lemma_postings(rows: Seq<(KeyModel, RecordModel)>, term: Seq<char>)
    requires
        forall|i: int| 0 <= i < rows.len() ==> ascending::<String, u32>((#[trigger] rows[i]).1.sparse),
    ensures
        ({
            let with = rows.filter(|p: (KeyModel, RecordModel)| weighs(p.1, term));
            let postings = postings_of(rows, term);
            &&& postings.len() == with.len()
            &&& forall|j: int|
                0 <= j < postings.len() ==> (#[trigger] postings[j]).0 == with[j].0
                    && with[j].1.sparse.contains((term, postings[j].1))
        }),
    decreases rows.len(),
{
    reveal(Seq::filter);
    if rows.len() > 0 {
        let front = rows.drop_last();
        assert forall|i: int| 0 <= i < front.len() implies ascending::<String, u32>(
            (#[trigger] front[i]).1.sparse,
        ) by {
            assert(front[i] == rows[i]);
        }
        lemma_postings(front, term);
        assert(rows[rows.len() - 1] == rows.last());
        lemma_weighs(rows.last().1, term);
    }
}

/// The postings of a term are the records that give it a weight greater than zero, in key order and
/// each with that weight, so that its document frequency is their number.
pub proof fn law_postings(index: &SparseIndex, rows: Seq<(KeyModel, RecordModel)>, term: Seq<char>)
    requires
        index.describes(rows),
        forall|i: int| 0 <= i < rows.len() ==> ascending::<String, u32>((#[trigger] rows[i]).1.sparse),
    ensures
        ({
            let with = rows.filter(|p: (KeyModel, RecordModel)| weighs(p.1, term));
            &&& index.of_term(term).len() == with.len()
            &&& forall|j: int|
                0 <= j < with.len() ==> (#[trigger] index.of_term(term)[j]).0 == with[j].0
                    && with[j].1.sparse.contains((term, index.of_term(term)[j].1))
        }),
{
    lemma_postings(rows, term);
}

/// A record is found by a query exactly where it is in the namespace and gives some term of the
/// query a weight greater than zero.
pub proof fn law_sparse_matches(
    index: &SparseIndex,
    rows: Seq<(KeyModel, RecordModel)>,
    namespace: Option<Seq<char>>,
    query: Seq<(Seq<char>, u32)>,
    k: KeyModel,
)
    requires
        index.describes(rows),
        forall|i: int| 0 <= i < rows.len() ==> ascending::<String, u32>((#[trigger] rows[i]).1.sparse),
    ensures
        index.matching(namespace, query).contains(k) <==> ((namespace matches Some(n) ==> k.0 == n)
            && exists|i: int, t: int|
            0 <= i < rows.len() && (#[trigger] rows[i]).0 == k && 0 <= t < query.len() && weighs(
                rows[i].1,
                (#[trigger] query[t]).0,
            )),
{
    broadcast use vstd::seq_lib::group_filter_ensures;

    if index.matching(namespace, query).contains(k) {
        let t = choose|t: int|
            0 <= t < query.len() && index.has_posting(#[trigger] query[t].0, k);
        let term = query[t].0;
        let keep = |p: (KeyModel, RecordModel)| weighs(p.1, term);
        let with = rows.filter(keep);
        law_postings(index, rows, term);
        let j = choose|j: int|
            0 <= j < index.of_term(term).len() && (#[trigger] index.of_term(term)[j]).0 == k;
        rows.lemma_filter_pred(keep, j);
        rows.lemma_filter_contains_rev(keep, with[j]);
        let i = choose|i: int| 0 <= i < rows.len() && rows[i] == with[j];
        assert(rows[i].0 == k && weighs(rows[i].1, query[t].0));
    }
    if exists|i: int, t: int|
        0 <= i < rows.len() && (#[trigger] rows[i]).0 == k && 0 <= t < query.len() && weighs(
            rows[i].1,
            (#[trigger] query[t]).0,
        ) {
        let (i, t) = choose|i: int, t: int|
            0 <= i < rows.len() && (#[trigger] rows[i]).0 == k && 0 <= t < query.len() && weighs(
                rows[i].1,
                (#[trigger] query[t]).0,
            );
        let term = query[t].0;
        let keep = |p: (KeyModel, RecordModel)| weighs(p.1, term);
        let with = rows.filter(keep);
        law_postings(index, rows, term);
        rows.lemma_filter_contains(keep, i);
        let j = choose|j: int| 0 <= j < with.len() && with[j] == rows[i];
        assert(index.of_term(term)[j].0 == k);
        assert(index.has_posting(query[t].0, k));
    }
}

proof fn lemma_positive_weights(sparse: Seq<(Seq<char>, u32)>)
    ensures
        positive_weights(sparse) == sparse.filter(
            |p: (Seq<char>, u32)| 0 < p.1 <= 0x7f80_0000,
        ).map_values(|p: (Seq<char>, u32)| p.1),
    decreases sparse.len(),
{
    reveal(Seq::filter);
    let keep = |p: (Seq<char>, u32)| 0 < p.1 <= 0x7f80_0000;
    let weight = |p: (Seq<char>, u32)| p.1;
    if sparse.len() > 0 {
        lemma_positive_weights(sparse.drop_last());
        let before = sparse.drop_last().filter(keep);
        if keep(sparse.last()) {
            assert(sparse.filter(keep).map_values(weight) =~= before.map_values(weight).push(
                sparse.last().1,
            ));
        } else {
            assert(sparse.filter(keep).map_values(weight) =~= before.map_values(weight));
        }
    } else {
        assert(sparse.filter(keep).map_values(weight) =~= Seq::<u32>::empty());
    }
}

/// Every record is a document, in key order, with exactly its weights greater than zero, in term
/// order.
pub proof fn law_documents(index: &SparseIndex, rows: Seq<(KeyModel, RecordModel)>, i: int)
    requires
        index.describes(rows),
        0 <= i < rows.len(),
    ensures
        index.docs().len() == rows.len(),
        index.docs()[i].0 == rows[i].0,
        index.docs()[i].1 == rows[i].1.sparse.filter(
            |p: (Seq<char>, u32)| 0 < p.1 <= 0x7f80_0000,
        ).map_values(|p: (Seq<char>, u32)| p.1),
{
    lemma_positive_weights(rows[i].1.sparse);
}

} // verus!
