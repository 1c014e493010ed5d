//! The inverted index over sparse terms.
use vstd::prelude::*;
use crate::float_bits::{single_le, single_less, single_less_or_equal, single_lt};
use crate::order::Duplicate;
use crate::ordered_map::{
    ascending, has_key, lemma_ascending_unique, lemma_map_of_at, map_of, position_of, OrderedMap,
};
use crate::ordered_set::{lists, OrderedSet};
use crate::payload_index::{key_in, opt_text};
use crate::quantizers::{falling_keys, rank_scores, with_scores};
use crate::ranking::{law_least_positions, least_positions};
use crate::record::{KeyModel, Record, RecordKey, RecordModel, SparseVector};
use crate::snapshot::Records;

verus! {

/// The weight that a record gives a term, unless it is zero or less.
pub open spec fn term_weight(m: RecordModel, term: Seq<char>) -> Option<u32> {
    if has_key(m.sparse, term) && !single_le(map_of(m.sparse)[term], 0u32) {
        Some(map_of(m.sparse)[term])
    } else {
        None
    }
}

/// The records with a term and the weights they give it, in record order.
pub open spec fn postings_of(rows: Seq<(KeyModel, RecordModel)>, term: Seq<char>) -> Seq<
    (KeyModel, u32),
>
    decreases rows.len(),
{
    if rows.len() == 0 {
        Seq::empty()
    } else {
        let before = postings_of(rows.drop_last(), term);
        match term_weight(rows.last().1, term) {
            Some(w) => before.push((rows.last().0, w)),
            None => before,
        }
    }
}

/// The weights greater than zero, in term order.
pub open spec fn positive_weights(sparse: Seq<(Seq<char>, u32)>) -> Seq<u32>
    decreases sparse.len(),
{
    if sparse.len() == 0 {
        Seq::empty()
    } else {
        let before = positive_weights(sparse.drop_last());
        if single_lt(0u32, sparse.last().1) {
            before.push(sparse.last().1)
        } else {
            before
        }
    }
}

/// Each record with its weights greater than zero.
pub open spec fn documents_of(rows: Seq<(KeyModel, RecordModel)>) -> Seq<(KeyModel, Seq<u32>)> {
    Seq::new(rows.len(), |i: int| (rows[i].0, positive_weights(rows[i].1.sparse)))
}

/// The postings by term.
pub type Postings = OrderedMap<String, Vec<((String, String), u32)>>;

/// The postings of a term, none where the term is unknown.
pub open spec fn found(postings: Map<Seq<char>, Seq<(KeyModel, u32)>>, term: Seq<char>) -> Seq<
    (KeyModel, u32),
> {
    if postings.contains_key(term) {
        postings[term]
    } else {
        Seq::empty()
    }
}

/// An inverted index over sparse terms, as the records were when it was built.
pub struct SparseIndex {
    pub(crate) postings: Postings,
    pub(crate) documents: Vec<((String, String), Vec<u32>)>,
}

/// What the first `j` sparse terms of a record add to the postings of a term.
spec fn partial(m: RecordModel, key: KeyModel, term: Seq<char>, j: int) -> Seq<(KeyModel, u32)> {
    if has_key(m.sparse, term) && position_of(m.sparse, term) < j {
        match term_weight(m, term) {
            Some(w) => seq![(key, w)],
            None => Seq::empty(),
        }
    } else {
        Seq::empty()
    }
}

fn add_postings(postings: &mut Postings, key: &RecordKey, record: &Record)
    ensures
        forall|term: Seq<char>| #[trigger]
            found(final(postings)@, term) == found(old(postings)@, term) + partial(
                record@,
                key.deep_view(),
                term,
                record@.sparse.len() as int,
            ),
{
    let ghost start = postings@;
    let ghost m = record@;
    let ghost k = key.deep_view();
    let ghost pairs = m.sparse;
    let mut j: usize = 0;
    proof {
        use_type_invariant(&record.sparse);
        record.sparse.lemma_pairs_ascending();
        assert forall|term: Seq<char>| #[trigger]
            found(postings@, term) == found(start, term) + partial(m, k, term, 0) by {
            assert(found(start, term) + partial(m, k, term, 0) =~= found(start, term));
        }
    }
    while j < record.sparse.len()
        invariant
            m == record@,
            pairs == m.sparse,
            pairs == record.sparse.pairs(),
            k == key.deep_view(),
            j <= pairs.len(),
            ascending::<String, u32>(pairs),
            forall|term: Seq<char>| #[trigger]
                found(postings@, term) == found(start, term) + partial(m, k, term, j as int),
        decreases pairs.len() - j,
    {
        let ghost before = postings@;
        let term = record.sparse.key_at(j);
        let weight: u32 = *record.sparse.value_at(j);
        let ghost t = term@;
        proof {
            assert(pairs[j as int].0 == t && pairs[j as int].1 == weight);
            assert(has_key(pairs, t));
            lemma_map_of_at::<String, u32>(pairs, j as int);
            lemma_ascending_unique::<String, u32>(pairs, j as int, position_of(pairs, t));
            assert(partial(m, k, t, j as int) =~= Seq::empty());
            assert(found(before, t) == found(start, t) + partial(m, k, t, j as int));
            assert forall|u: Seq<char>| u != t implies #[trigger] partial(m, k, u, j + 1)
                == partial(m, k, u, j as int) by {
                if has_key(pairs, u) && position_of(pairs, u) == j {
                    assert(pairs[j as int].0 == u);
                }
            }
        }
        if !single_less_or_equal(weight, 0) {
            let item = (key.duplicate(), weight);
            match postings.take(term) {
                Some(list) => {
                    let mut list = list;
                    let ghost had = list.deep_view();
                    list.push(item);
                    proof {
                        assert(list.deep_view() =~= had.push((k, weight)));
                    }
                    postings.put(term.clone(), list);
                },
                None => {
                    let mut list: Vec<((String, String), u32)> = Vec::new();
                    list.push(item);
                    proof {
                        assert(list.deep_view() =~= seq![(k, weight)]);
                    }
                    postings.put(term.clone(), list);
                },
            }
            proof {
                assert(found(postings@, t) =~= found(before, t).push((k, weight)));
                assert(partial(m, k, t, j + 1) =~= seq![(k, weight)]);
            }
        } else {
            proof {
                assert(partial(m, k, t, j + 1) =~= Seq::empty());
            }
        }
        proof {
            assert forall|u: Seq<char>| #[trigger]
                found(postings@, u) == found(start, u) + partial(m, k, u, j + 1) by {
                if u != t {
                    assert(found(postings@, u) == found(before, u));
                    assert(found(before, u) == found(start, u) + partial(m, k, u, j as int));
                } else {
                    assert(found(postings@, t) =~= found(start, t) + partial(m, k, t, j + 1));
                }
            }
        }
        j += 1;
    }
}

/// The weights of a sparse vector that are greater than zero.
pub fn weights_above_zero(sparse: &SparseVector) -> (r: Vec<u32>)
    ensures
        r@ == positive_weights(sparse.pairs()),
{
    let ghost all = sparse.pairs();
    let mut out: Vec<u32> = Vec::new();
    let mut i: usize = 0;
    proof {
        assert(all.take(0) =~= Seq::empty());
    }
    while i < sparse.len()
        invariant
            i <= all.len(),
            all == sparse.pairs(),
            out@ == positive_weights(all.take(i as int)),
        decreases all.len() - i,
    {
        let w: u32 = *sparse.value_at(i);
        proof {
            assert(all.take(i + 1).drop_last() =~= all.take(i as int));
            assert(all.take(i + 1).last() == all[i as int]);
        }
        if single_less(0, w) {
            out.push(w);
        }
        i += 1;
    }
    proof {
        assert(all.take(i as int) =~= all);
    }
    out
}

impl SparseIndex {
    /// The postings of a term.
    pub open(crate) spec fn of_term(&self, term: Seq<char>) -> Seq<(KeyModel, u32)> {
        found(self.postings@, term)
    }

    /// The records that were indexed, with their weights greater than zero.
    pub open(crate) spec fn docs(&self) -> Seq<(KeyModel, Seq<u32>)> {
        self.documents.deep_view()
    }

    /// Whether the index describes `rows`.
    pub open spec fn describes(&self, rows: Seq<(KeyModel, RecordModel)>) -> bool {
        &&& forall|term: Seq<char>| #[trigger] self.of_term(term) == postings_of(rows, term)
        &&& self.docs() == documents_of(rows)
    }

    /// An index of nothing.
    pub fn new() -> (r: Self)
        ensures
            r.describes(Seq::empty()),
    {
        let r = SparseIndex { postings: OrderedMap::new(), documents: Vec::new() };
        proof {
            assert(r.docs() =~= documents_of(Seq::empty()));
        }
        r
    }

    /// The index of records.
    pub fn build(records: &Records) -> (r: Self)
        ensures
            r.describes(records.pairs()),
    {
        let ghost rows = records.pairs();
        let mut postings: Postings = OrderedMap::new();
        let mut documents: Vec<((String, String), Vec<u32>)> = Vec::new();
        let mut i: usize = 0;
        proof {
            assert(rows.take(0) =~= Seq::empty());
            assert(documents.deep_view() =~= documents_of(rows.take(0)));
        }
        while i < records.len()
            invariant
                i <= rows.len(),
                rows == records.pairs(),
                documents.deep_view() == documents_of(rows.take(i as int)),
                forall|term: Seq<char>| #[trigger]
                    found(postings@, term) == postings_of(rows.take(i as int), term),
            decreases rows.len() - i,
        {
            let key = records.key_at(i);
            let record = records.value_at(i);
            let ghost before = postings@;
            let ghost docs = documents.deep_view();
            add_postings(&mut postings, key, record);
            let weights = weights_above_zero(&record.sparse);
            let doc = (key.duplicate(), weights);
            documents.push(doc);
            proof {
                let row = rows[i as int];
                assert(row == (key.deep_view(), record@));
                assert(rows.take(i + 1).drop_last() =~= rows.take(i as int));
                assert(rows.take(i + 1).last() == row);
                assert(weights.deep_view() =~= weights@);
                assert(documents.deep_view() =~= docs.push(doc.deep_view()));
                assert(documents.deep_view() =~= documents_of(rows.take(i + 1)));
                assert forall|term: Seq<char>| #[trigger]
                    found(postings@, term) == postings_of(rows.take(i + 1), term) by {
                    assert(found(before, term) == postings_of(rows.take(i as int), term));
                    let add = partial(row.1, row.0, term, row.1.sparse.len() as int);
                    if has_key(row.1.sparse, term) {
                        assert(position_of(row.1.sparse, term) < row.1.sparse.len());
                    }
                    assert(found(postings@, term) == found(before, term) + add);
                    assert(found(before, term) + add =~= postings_of(rows.take(i + 1), term));
                }
            }
            i += 1;
        }
        proof {
            assert(rows.take(i as int) =~= rows);
        }
        SparseIndex { postings, documents }
    }

    /// The number of records that were indexed.
    pub fn doc_count(&self) -> (r: usize)
        ensures
            r == self.docs().len(),
    {
        self.documents.len()
    }

    /// The indexed record at a position.
    pub fn document(&self, i: usize) -> (r: (&RecordKey, &Vec<u32>))
        requires
            i < self.docs().len(),
        ensures
            (r.0.deep_view(), r.1.deep_view()) == self.docs()[i as int],
    {
        let d = &self.documents[i];
        proof {
            assert(self.docs()[i as int] == self.documents@[i as int].deep_view());
        }
        (&d.0, &d.1)
    }

    /// The number of records with a term.
    pub fn document_frequency(&self, term: &str) -> (r: usize)
        ensures
            r == self.of_term(term@).len(),
    {
        match self.postings.get(term) {
            Some(list) => list.len(),
            None => 0,
        }
    }

    /// The postings of a term.
    pub fn postings(&self, term: &str) -> (r: Option<&Vec<((String, String), u32)>>)
        ensures
            match r {
                Some(list) => list.deep_view() == self.of_term(term@),
                None => self.of_term(term@).len() == 0,
            },
    {
        self.postings.get(term)
    }

    /// The keys of a namespace, or of all, that have a term of a query.
    pub open spec fn matching(
        &self,
        namespace: Option<Seq<char>>,
        query: Seq<(Seq<char>, u32)>,
    ) -> Set<KeyModel> {
        Set::new(
            |k: KeyModel|
                key_in(namespace, k) && exists|i: int|
                    0 <= i < query.len() && self.has_posting(#[trigger] query[i].0, k),
        )
    }

    /// Whether a key is among the postings of a term.
    pub open spec fn has_posting(&self, term: Seq<char>, k: KeyModel) -> bool {
        exists|j: int|
            0 <= j < self.of_term(term).len() && (#[trigger] self.of_term(term)[j]).0 == k
    }

    fn add_matching(&self, set: &mut OrderedSet<(String, String)>, namespace: Option<&str>, term: &str)
        ensures
            final(set)@ == old(set)@.union(
                Set::new(
                    |k: KeyModel| key_in(opt_text(namespace), k) && self.has_posting(term@, k),
                ),
            ),
    {
        let ghost start = set@;
        let ghost ns = opt_text(namespace);
        match self.postings.get(term) {
            Some(list) => {
                let ghost all = list.deep_view();
                let mut j: usize = 0;
                proof {
                    assert(set@ =~= start.union(
                        Set::new(|k: KeyModel| key_in(ns, k) && among(all, k, 0)),
                    ));
                }
                while j < list.len()
                    invariant
                        j <= list@.len(),
                        all == list.deep_view(),
                        ns == opt_text(namespace),
                        set@ == start.union(
                            Set::new(|k: KeyModel| key_in(ns, k) && among(all, k, j as int)),
                        ),
                    decreases list@.len() - j,
                {
                    let key = &list[j].0;
                    let inside: bool = match namespace {
                        Some(n) => crate::order::same_text(key.0.as_str(), n),
                        None => true,
                    };
                    let ghost before = set@;
                    let ghost q = key.deep_view();
                    proof {
                        assert(all[j as int].0 == q);
                    }
                    if inside {
                        set.add(key.duplicate());
                    }
                    proof {
                        let want = start.union(
                            Set::new(|k: KeyModel| key_in(ns, k) && among(all, k, j + 1)),
                        );
                        assert forall|k: KeyModel| #[trigger]
                            among(all, k, j + 1) == (among(all, k, j as int) || k == q) by {
                            if among(all, k, j + 1) {
                                let a = choose|a: int| 0 <= a < j + 1 && (#[trigger] all[a]).0 == k;
                                if a < j {
                                    assert(all[a].0 == k);
                                }
                            }
                            if k == q {
                                assert(all[j as int].0 == k);
                            }
                            if among(all, k, j as int) {
                                let a = choose|a: int| 0 <= a < j && (#[trigger] all[a]).0 == k;
                                assert(all[a].0 == k);
                            }
                        }
                        assert(set@ =~= want);
                    }
                    j += 1;
                }
                proof {
                    assert forall|k: KeyModel| #[trigger]
                        self.has_posting(term@, k) == among(all, k, j as int) by {
                        assert(self.of_term(term@) == all);
                    }
                    assert(set@ =~= start.union(
                        Set::new(|k: KeyModel| key_in(ns, k) && self.has_posting(term@, k)),
                    ));
                }
            },
            None => {
                proof {
                    assert(self.of_term(term@).len() == 0);
                    assert(set@ =~= start.union(
                        Set::new(|k: KeyModel| key_in(ns, k) && self.has_posting(term@, k)),
                    ));
                }
            },
        }
    }

    /// The keys of a namespace, or of all, that have a term of a query, in key order.
    pub fn matching_keys(&self, namespace: Option<&str>, query: &SparseVector) -> (r: Vec<
        (String, String),
    >)
        ensures
            lists::<(String, String)>(
                r.deep_view(),
                self.matching(opt_text(namespace), query.pairs()),
            ),
    {
        let ghost all = query.pairs();
        let ghost ns = opt_text(namespace);
        let mut set: OrderedSet<(String, String)> = OrderedSet::new();
        let mut i: usize = 0;
        proof {
            assert(set@ =~= self.matching(ns, all.take(0)));
        }
        while i < query.len()
            invariant
                i <= all.len(),
                all == query.pairs(),
                ns == opt_text(namespace),
                set@ == self.matching(ns, all.take(i as int)),
            decreases all.len() - i,
        {
            let ghost before = set@;
            self.add_matching(&mut set, namespace, query.key_at(i).as_str());
            proof {
                let t = all[i as int].0;
                let a = all.take(i as int);
                let b = all.take(i + 1);
                assert forall|k: KeyModel| #[trigger]
                    set@.contains(k) == self.matching(ns, b).contains(k) by {
                    if self.matching(ns, b).contains(k) {
                        let p = choose|p: int|
                            0 <= p < b.len() && self.has_posting(#[trigger] b[p].0, k);
                        if p < i {
                            assert(a[p] == b[p]);
                            assert(self.matching(ns, a).contains(k));
                        }
                    }
                    if self.matching(ns, a).contains(k) {
                        let p = choose|p: int|
                            0 <= p < a.len() && self.has_posting(#[trigger] a[p].0, k);
                        assert(b[p] == a[p]);
                    }
                    if key_in(ns, k) && self.has_posting(t, k) {
                        assert(b[i as int].0 == t);
                    }
                }
                assert(set@ =~= self.matching(ns, b));
            }
            i += 1;
        }
        proof {
            assert(all.take(i as int) =~= all);
        }
        set.to_vec()
    }
}

spec fn among(list: Seq<(KeyModel, u32)>, k: KeyModel, n: int) -> bool {
    exists|a: int| 0 <= a < n && (#[trigger] list[a]).0 == k
}

/// Keys picked by their positions.
pub open spec fn picked(keys: Seq<KeyModel>, order: Seq<usize>) -> Seq<KeyModel> {
    order.map_values(|i: usize| keys[i as int])
}

/// The candidates with the greatest scores, the best first and equal ones in key order. `keys`
/// are in key order, and `scores` are their scores.
pub fn sparse_candidate_keys(keys: &Vec<(String, String)>, scores: &Vec<u32>, top_k: usize) -> (r:
    Vec<(String, String)>)
    requires
        keys@.len() == scores@.len(),
    ensures
        r.deep_view() == picked(
            keys.deep_view(),
            least_positions(
                falling_keys(scores@),
                crate::ann::candidates_for(top_k as nat, keys@.len()),
            ),
        ),
{
    let limit: usize = crate::ann::candidate_count(top_k, keys.len());
    let ranked = rank_scores(scores, true, limit);
    let ghost order = least_positions(falling_keys(scores@), limit as nat);
    let ghost all = keys.deep_view();
    proof {
        law_least_positions(falling_keys(scores@), limit as nat);
    }
    let mut out: Vec<(String, String)> = Vec::new();
    let mut j: usize = 0;
    proof {
        assert(out.deep_view() =~= picked(all, order.take(0)));
    }
    while j < ranked.len()
        invariant
            j <= ranked@.len(),
            ranked@ == with_scores(order, scores@),
            ranked@.len() == order.len(),
            keys@.len() == scores@.len(),
            forall|a: int| 0 <= a < order.len() ==> (#[trigger] order[a]) < scores@.len(),
            all == keys.deep_view(),
            out.deep_view() == picked(all, order.take(j as int)),
        decreases ranked@.len() - j,
    {
        let ghost before = out.deep_view();
        let at: usize = ranked[j].0;
        proof {
            assert(at == order[j as int]);
            assert(all[at as int] == keys@[at as int].deep_view());
        }
        let k = keys[at].duplicate();
        out.push(k);
        proof {
            assert(out.deep_view() =~= before.push(k.deep_view()));
            assert(out.deep_view() =~= picked(all, order.take(j + 1)));
        }
        j += 1;
    }
    proof {
        assert(order.take(j as int) =~= order);
    }
    out
}

} // verus!
