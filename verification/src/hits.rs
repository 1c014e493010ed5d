//! Ranking the records that a search found.
use vstd::prelude::*;
use crate::float_bits::{single_eq, single_equal, single_is_nan, single_less, single_lt};
use crate::order::{Duplicate, Key, Order};
use crate::ordered_map::OrderedMap;
use crate::quantizers::{falling_keys, rank_scores, with_scores};
use crate::ranking::{law_least_positions, least_positions};
use crate::record::{key_before, KeyModel};

verus! {

/// A record that a search found, with its scores as single-precision patterns.
pub struct Hit {
    pub key: (String, String),
    pub score: u32,
    pub dense_score: u32,
    pub sparse_score: u32,
    pub dense_rank: Option<usize>,
    pub sparse_rank: Option<usize>,
    /// What each matched term adds to the sparse score.
    pub term_scores: OrderedMap<String, u32>,
}

/// The mathematical value of a record that a search found.
#[verifier::ext_equal]
pub struct HitModel {
    pub key: KeyModel,
    pub score: u32,
    pub dense_score: u32,
    pub sparse_score: u32,
    pub dense_rank: Option<usize>,
    pub sparse_rank: Option<usize>,
    pub term_scores: Seq<(Seq<char>, u32)>,
}

impl DeepView for Hit {
    type V = HitModel;

    open spec fn deep_view(&self) -> HitModel {
        HitModel {
            key: self.key.deep_view(),
            score: self.score,
            dense_score: self.dense_score,
            sparse_score: self.sparse_score,
            dense_rank: self.dense_rank,
            sparse_rank: self.sparse_rank,
            term_scores: self.term_scores.deep_view(),
        }
    }
}

impl Duplicate for Hit {
    fn duplicate(&self) -> (r: Self) {
        Hit {
            key: self.key.duplicate(),
            score: self.score,
            dense_score: self.dense_score,
            sparse_score: self.sparse_score,
            dense_rank: self.dense_rank,
            sparse_rank: self.sparse_rank,
            term_scores: self.term_scores.duplicate(),
        }
    }
}

/// The scores of hits.
pub open spec fn scores_of(hits: Seq<HitModel>) -> Seq<u32> {
    hits.map_values(|h: HitModel| h.score)
}

/// The order of scores: the greatest first, equal ones by position.
pub open spec fn best_first(scores: Seq<u32>) -> Seq<usize> {
    least_positions(falling_keys(scores), scores.len())
}

/// The place of a position in an order, counted from zero.
pub open spec fn place_of(order: Seq<usize>, i: int) -> int {
    choose|p: int| 0 <= p < order.len() && order[p] == i
}

/// The rank of each score that is greater than zero, counted from one.
pub open spec fn ranks_of(scores: Seq<u32>) -> Seq<Option<usize>> {
    Seq::new(
        scores.len(),
        |i: int|
            if single_lt(0, scores[i]) {
                Some((place_of(best_first(scores), i) + 1) as usize)
            } else {
                None
            },
    )
}

/// The order of scores names every position once.
pub proof fn law_best_first(scores: Seq<u32>)
    requires
        scores.len() <= usize::MAX,
    ensures
        best_first(scores).len() == scores.len(),
        forall|u: usize| u < scores.len() ==> #[trigger] best_first(scores).contains(u),
        forall|a: int, b: int|
            #![trigger best_first(scores)[a], best_first(scores)[b]]
            0 <= a < b < scores.len() ==> best_first(scores)[a] != best_first(scores)[b],
        forall|a: int|
            0 <= a < scores.len() ==> (#[trigger] best_first(scores)[a]) < scores.len(),
{
    let keys = falling_keys(scores);
    let order = best_first(scores);
    law_least_positions(keys, scores.len());
    assert forall|u: usize| u < scores.len() implies #[trigger] order.contains(u) by {
        lemma_pigeonhole(order, scores.len(), u as int);
    }
}

/// As many distinct positions as there are leave none out.
pub(crate) proof fn lemma_pigeonhole(order: Seq<usize>, n: nat, at: int)
    requires
        order.len() == n,
        0 <= at < n <= usize::MAX,
        forall|a: int| 0 <= a < order.len() ==> (#[trigger] order[a]) < n,
        forall|a: int, b: int|
            #![trigger order[a], order[b]]
            0 <= a < b < order.len() ==> order[a] != order[b],
    ensures
        order.contains(at as usize),
{
    assert(order.no_duplicates()) by {
        assert forall|a: int, b: int|
            0 <= a < order.len() && 0 <= b < order.len() && a != b implies order[a]
            != order[b] by {
            if a < b {
                assert(order[a] != order[b]);
            } else {
                assert(order[b] != order[a]);
            }
        }
    }
    order.unique_seq_to_set();
    let s = order.to_set();
    let full = Set::new(|u: usize| u < n);
    crate::ann::lemma_range_set(n);
    if !order.contains(at as usize) {
        assert(s.subset_of(full.remove(at as usize))) by {
            assert forall|u: usize| s.contains(u) implies full.remove(at as usize).contains(u) by {
                let a = choose|a: int| 0 <= a < order.len() && order[a] == u;
                assert(order[a] < n);
            }
        }
        vstd::set_lib::lemma_len_subset(s, full.remove(at as usize));
    }
}

/// The rank of each score that is greater than zero.
pub fn rank_metadata(scores: &Vec<u32>) -> (r: Vec<Option<usize>>)
    ensures
        r@ == ranks_of(scores@),
{
    let n: usize = scores.len();
    let ranked = rank_scores(scores, true, n);
    let ghost order = best_first(scores@);
    proof {
        law_best_first(scores@);
    }
    let mut out: Vec<Option<usize>> = Vec::new();
    let mut i: usize = 0;
    while i < n
        invariant
            i <= n,
            n == scores@.len(),
            out@.len() == i,
            forall|k: int| 0 <= k < i ==> (#[trigger] out@[k]) is None,
        decreases n - i,
    {
        out.push(None);
        i += 1;
    }
    let mut p: usize = 0;
    while p < ranked.len()
        invariant
            n == scores@.len(),
            order == best_first(scores@),
            order.len() == n,
            ranked@ == with_scores(order, scores@),
            forall|a: int| 0 <= a < order.len() ==> (#[trigger] order[a]) < n,
            forall|a: int, b: int|
                #![trigger order[a], order[b]]
                0 <= a < b < order.len() ==> order[a] != order[b],
            p <= order.len(),
            out@.len() == n,
            forall|a: int|
                0 <= a < p ==> out@[(#[trigger] order[a]) as int] == if single_lt(
                    0,
                    scores@[order[a] as int],
                ) {
                    Some((a + 1) as usize)
                } else {
                    None
                },
            forall|a: int| p <= a < order.len() ==> out@[(#[trigger] order[a]) as int] is None,
        decreases order.len() - p,
    {
        let at: usize = ranked[p].0;
        proof {
            assert(at == order[p as int]);
        }
        if single_less(0, scores[at]) {
            out.set(at, Some(p + 1));
        }
        p += 1;
    }
    proof {
        assert forall|i: int| 0 <= i < n implies #[trigger] out@[i] == ranks_of(scores@)[i] by {
            assert(order.contains(i as usize));
            let q = place_of(order, i);
            let w = choose|a: int| 0 <= a < order.len() && order[a] == i as usize;
            assert(0 <= w < order.len() && order[w] == i);
            assert(0 <= q < order.len() && order[q] == i);
        }
        assert(out@ =~= ranks_of(scores@));
    }
    out
}

/// Hits picked by their positions.
pub open spec fn picked_hits(hits: Seq<HitModel>, order: Seq<usize>) -> Seq<HitModel> {
    order.map_values(|i: usize| hits[i as int])
}

/// A hit with its ranks.
pub open spec fn with_ranks(h: HitModel, dense: Option<usize>, sparse: Option<usize>) -> HitModel {
    HitModel { dense_rank: dense, sparse_rank: sparse, ..h }
}

/// The hits with the ranks of their dense and of their sparse scores.
pub open spec fn ranked_hits(hits: Seq<HitModel>) -> Seq<HitModel> {
    let dense = ranks_of(hits.map_values(|h: HitModel| h.dense_score));
    let sparse = ranks_of(hits.map_values(|h: HitModel| h.sparse_score));
    Seq::new(hits.len(), |i: int| with_ranks(hits[i], dense[i], sparse[i]))
}

/// Gives hits, which are in key order, the ranks of their dense and of their sparse scores.
pub fn apply_rank_metadata(hits: &mut Vec<Hit>)
    ensures
        final(hits).deep_view() == ranked_hits(old(hits).deep_view()),
{
    let ghost start = hits.deep_view();
    let mut dense: Vec<u32> = Vec::new();
    let mut sparse: Vec<u32> = Vec::new();
    let n: usize = hits.len();
    let mut i: usize = 0;
    while i < n
        invariant
            n == hits@.len(),
            *hits == *old(hits),
            start == hits.deep_view(),
            i <= n,
            dense@ =~= start.map_values(|h: HitModel| h.dense_score).take(i as int),
            sparse@ =~= start.map_values(|h: HitModel| h.sparse_score).take(i as int),
        decreases n - i,
    {
        proof {
            assert(start[i as int] == hits@[i as int].deep_view());
        }
        dense.push(hits[i].dense_score);
        sparse.push(hits[i].sparse_score);
        i += 1;
    }
    proof {
        assert(dense@ =~= start.map_values(|h: HitModel| h.dense_score));
        assert(sparse@ =~= start.map_values(|h: HitModel| h.sparse_score));
    }
    let dense_ranks = rank_metadata(&dense);
    let sparse_ranks = rank_metadata(&sparse);
    let mut j: usize = 0;
    while j < n
        invariant
            n == hits@.len() == start.len(),
            dense_ranks@.len() == n,
            sparse_ranks@.len() == n,
            j <= n,
            forall|k: int|
                0 <= k < j ==> (#[trigger] hits@[k]).deep_view() == with_ranks(
                    start[k],
                    dense_ranks@[k],
                    sparse_ranks@[k],
                ),
            forall|k: int| j <= k < n ==> (#[trigger] hits@[k]).deep_view() == start[k],
        decreases n - j,
    {
        let mut h = hits[j].duplicate();
        h.dense_rank = dense_ranks[j];
        h.sparse_rank = sparse_ranks[j];
        hits.set(j, h);
        j += 1;
    }
    proof {
        assert(hits.deep_view() =~= ranked_hits(start));
    }
}

/// Puts hits, which are in key order, in descending order of score; equal ones stay in key order.
pub fn sort_scored_records(hits: &Vec<Hit>) -> (r: Vec<Hit>)
    ensures
        r.deep_view() == picked_hits(hits.deep_view(), best_first(scores_of(hits.deep_view()))),
{
    let ghost all = hits.deep_view();
    let mut scores: Vec<u32> = Vec::new();
    let mut i: usize = 0;
    while i < hits.len()
        invariant
            i <= hits@.len(),
            all == hits.deep_view(),
            scores@ =~= scores_of(all).take(i as int),
        decreases hits@.len() - i,
    {
        proof {
            assert(all[i as int] == hits@[i as int].deep_view());
        }
        scores.push(hits[i].score);
        i += 1;
    }
    proof {
        assert(scores@ =~= scores_of(all));
        law_best_first(scores@);
    }
    let ranked = rank_scores(&scores, true, scores.len());
    let ghost order = best_first(scores@);
    let mut out: Vec<Hit> = Vec::new();
    let mut j: usize = 0;
    proof {
        assert(out.deep_view() =~= picked_hits(all, order.take(0)));
    }
    while j < ranked.len()
        invariant
            all == hits.deep_view(),
            ranked@ == with_scores(order, scores@),
            ranked@.len() == order.len(),
            scores@.len() == hits@.len(),
            order.len() == scores@.len(),
            forall|a: int| 0 <= a < order.len() ==> (#[trigger] order[a]) < hits@.len(),
            j <= order.len(),
            out.deep_view() == picked_hits(all, order.take(j as int)),
        decreases order.len() - j,
    {
        let ghost before = out.deep_view();
        let at: usize = ranked[j].0;
        proof {
            assert(at == order[j as int]);
            assert(all[at as int] == hits@[at as int].deep_view());
        }
        let h = hits[at].duplicate();
        out.push(h);
        proof {
            assert(out.deep_view() =~= before.push(h.deep_view()));
            assert(out.deep_view() =~= picked_hits(all, order.take(j + 1)));
        }
        j += 1;
    }
    proof {
        assert(order.take(j as int) =~= order);
    }
    out
}

/// Whether hits are in strictly ascending key order.
pub open spec fn in_key_order(hits: Seq<HitModel>) -> bool {
    forall|i: int, j: int|
        #![trigger hits[i], hits[j]]
        0 <= i < j < hits.len() ==> key_before(hits[i].key, hits[j].key)
}

/// Sorted hits are in descending order of score, and equal scores in key order.
pub proof fn law_sorted_hits(hits: Seq<HitModel>, a: int, b: int)
    requires
        in_key_order(hits),
        hits.len() <= usize::MAX,
        0 <= a < b < hits.len(),
    ensures
        ({
            let out = picked_hits(hits, best_first(scores_of(hits)));
            let x = crate::float_bits::single_total_key(out[a].score);
            let y = crate::float_bits::single_total_key(out[b].score);
            x > y || (x == y && key_before(out[a].key, out[b].key))
        }),
{
    let scores = scores_of(hits);
    let keys = falling_keys(scores);
    let order = best_first(scores);
    law_best_first(scores);
    law_least_positions(keys, scores.len());
    let i = order[a] as int;
    let j = order[b] as int;
    assert(<(u64, usize) as Key>::before((keys[i], order[a]), (keys[j], order[b])));
    crate::float_bits::lemma_single_key(hits[i].score);
    crate::float_bits::lemma_single_key(hits[j].score);
    assert(keys[i] == (0xffff_ffff - crate::float_bits::single_total_key(hits[i].score)) as u64);
    assert(keys[j] == (0xffff_ffff - crate::float_bits::single_total_key(hits[j].score)) as u64);
    if keys[i] == keys[j] {
        assert(i < j);
        assert(key_before(hits[i].key, hits[j].key));
    }
}

/// Whether hit `i` is to be selected before hit `j`: by its balanced score, then by its own score,
/// then by its key.
pub open spec fn preferred(hits: Seq<HitModel>, balanced: Seq<u32>, i: int, j: int) -> bool {
    let same = single_eq(balanced[i], balanced[j]);
    let level = same && single_eq(hits[i].score, hits[j].score);
    ||| single_lt(balanced[j], balanced[i])
    ||| same && single_lt(hits[j].score, hits[i].score)
    ||| level && key_before(hits[i].key, hits[j].key)
}

/// The hit to be selected among the first `n` that are not used.
pub open spec fn best_unused(
    hits: Seq<HitModel>,
    used: Seq<bool>,
    balanced: Seq<u32>,
    n: nat,
) -> Option<nat>
    decreases n,
{
    if n == 0 {
        None
    } else {
        let before = best_unused(hits, used, balanced, (n - 1) as nat);
        if used[n - 1] {
            before
        } else {
            match before {
                None => Some((n - 1) as nat),
                Some(b) => if preferred(hits, balanced, n - 1, b as int) {
                    Some((n - 1) as nat)
                } else {
                    Some(b)
                },
            }
        }
    }
}

/// There is a hit to be selected as long as one is not used.
pub(crate) proof fn lemma_best_unused(hits: Seq<HitModel>, used: Seq<bool>, balanced: Seq<u32>, n: nat)
    requires
        n <= used.len(),
    ensures
        match best_unused(hits, used, balanced, n) {
            None => forall|i: int| 0 <= i < n ==> #[trigger] used[i],
            Some(b) => b < n && !used[b as int],
        },
    decreases n,
{
    if n > 0 {
        lemma_best_unused(hits, used, balanced, (n - 1) as nat);
    }
}

/// Where all scores are numbers, no hit that is not used is preferred to the selected one.
pub proof fn law_best_unused(
    hits: Seq<HitModel>,
    used: Seq<bool>,
    balanced: Seq<u32>,
    n: nat,
    i: int,
)
    requires
        n <= hits.len(),
        n <= used.len(),
        n <= balanced.len(),
        0 <= i < n,
        !used[i],
        forall|k: int|
            0 <= k < n ==> !single_is_nan(#[trigger] balanced[k]) && !single_is_nan(hits[k].score),
    ensures
        best_unused(hits, used, balanced, n) matches Some(b) && !preferred(
            hits,
            balanced,
            i,
            b as int,
        ),
    decreases n,
{
    lemma_best_unused(hits, used, balanced, n);
    if i < n - 1 {
        law_best_unused(hits, used, balanced, (n - 1) as nat, i);
        lemma_best_unused(hits, used, balanced, (n - 1) as nat);
        let b = best_unused(hits, used, balanced, (n - 1) as nat)->Some_0;
        if !used[n - 1] && preferred(hits, balanced, n - 1, b as int) {
            lemma_preferred_transitive(hits, balanced, i, n - 1, b as int);
        }
    } else {
        lemma_best_unused(hits, used, balanced, (n - 1) as nat);
        <(String, String) as Key>::lemma_irreflexive(hits[i].key);
        assert(!single_is_nan(balanced[i]));
        assert(key_before(hits[i].key, hits[i].key) == <(String, String) as Key>::before(
            hits[i].key,
            hits[i].key,
        ));
    }
}

/// A hit that is not preferred to `b` is not preferred to a hit that is.
proof fn lemma_preferred_transitive(
    hits: Seq<HitModel>,
    balanced: Seq<u32>,
    i: int,
    j: int,
    b: int,
)
    requires
        0 <= i < hits.len(),
        0 <= j < hits.len(),
        0 <= b < hits.len(),
        !single_is_nan(balanced[i]) && !single_is_nan(balanced[j]) && !single_is_nan(balanced[b]),
        !single_is_nan(hits[i].score) && !single_is_nan(hits[j].score)
            && !single_is_nan(hits[b].score),
        !preferred(hits, balanced, i, b),
        preferred(hits, balanced, j, b),
    ensures
        !preferred(hits, balanced, i, j),
{
    let x = hits[i].key;
    let y = hits[j].key;
    let z = hits[b].key;
    if key_before(x, y) && key_before(y, z) {
        <(String, String) as Key>::lemma_transitive(x, y, z);
        assert(<(String, String) as Key>::before(x, z) == key_before(x, z));
    }
    assert(<(String, String) as Key>::before(x, y) == key_before(x, y));
    assert(<(String, String) as Key>::before(y, z) == key_before(y, z));
}

/// The hits that were selected so far, in the order of their selection.
pub struct Diversifier {
    pub(crate) limit: usize,
    pub(crate) used: Vec<bool>,
    pub(crate) selected: Vec<usize>,
}

impl Diversifier {
    /// The positions of the selected hits.
    pub open(crate) spec fn view(&self) -> Seq<usize> {
        self.selected@
    }

    /// Which hits are selected.
    pub open(crate) spec fn marks(&self) -> Seq<bool> {
        self.used@
    }

    /// How many hits are to be selected.
    pub open(crate) spec fn goal(&self) -> nat {
        self.limit as nat
    }

    /// The selected hits are distinct, and marked as the only ones.
    pub open spec fn wf(&self) -> bool {
        &&& self.goal() <= self.marks().len()
        &&& self@.len() <= self.goal()
        &&& forall|a: int| 0 <= a < self@.len() ==> (#[trigger] self@[a]) < self.marks().len()
        &&& forall|a: int, b: int|
            #![trigger self@[a], self@[b]]
            0 <= a < b < self@.len() ==> self@[a] != self@[b]
        &&& forall|u: usize|
            u < self.marks().len() ==> (#[trigger] self.marks()[u as int] == self@.contains(u))
    }

    /// Selects as many of `count` hits as are wanted: nothing yet, or the first hit where only
    /// one is wanted.
    pub fn new(count: usize, top_k: usize) -> (r: Self)
        ensures
            r.wf(),
            r@ == if r.goal() == 1 {
                seq![0usize]
            } else {
                Seq::empty()
            },
            r.marks().len() == count,
            r.goal() == if top_k < count {
                top_k as nat
            } else {
                count as nat
            },
    {
        let mut used: Vec<bool> = Vec::new();
        let mut i: usize = 0;
        while i < count
            invariant
                i <= count,
                used@.len() == i,
                forall|k: int| 0 <= k < i ==> !(#[trigger] used@[k]),
            decreases count - i,
        {
            used.push(false);
            i += 1;
        }
        let limit: usize = if top_k < count {
            top_k
        } else {
            count
        };
        let mut selected: Vec<usize> = Vec::new();
        if limit == 1 {
            used.set(0, true);
            selected.push(0);
            proof {
                assert(selected@ =~= seq![0usize]);
                assert(selected@[0] == 0);
            }
        }
        Diversifier { limit, used, selected }
    }

    /// Whether all hits that are to be selected are.
    pub fn is_done(&self) -> (r: bool)
        ensures
            r == (self@.len() >= self.goal()),
    {
        self.selected.len() >= self.limit
    }

    /// Whether a hit is selected.
    pub fn is_used(&self, i: usize) -> (r: bool)
        requires
            i < self.marks().len(),
        ensures
            r == self.marks()[i as int],
    {
        self.used[i]
    }

    /// The positions of the selected hits, in the order of their selection.
    pub fn positions(&self) -> (r: &Vec<usize>)
        ensures
            r@ == self@,
    {
        &self.selected
    }

    /// Selects the next hit by the balanced scores of all hits. For the first one these are the
    /// scores themselves.
    pub fn select(&mut self, hits: &Vec<Hit>, balanced: &Vec<u32>)
        requires
            old(self).wf(),
            old(self)@.len() < old(self).goal(),
            hits@.len() == old(self).marks().len(),
            balanced@.len() == old(self).marks().len(),
        ensures
            final(self).wf(),
            final(self).goal() == old(self).goal(),
            final(self).marks().len() == old(self).marks().len(),
            best_unused(
                hits.deep_view(),
                old(self).marks(),
                balanced@,
                hits@.len(),
            ) matches Some(b) && final(self)@ == old(self)@.push(b as usize),
    {
        let ghost all = hits.deep_view();
        let mut best: Option<usize> = None;
        let mut i: usize = 0;
        while i < hits.len()
            invariant
                *self == *old(self),
                all == hits.deep_view(),
                hits@.len() == self.marks().len(),
                balanced@.len() == self.marks().len(),
                i <= hits@.len(),
                match best_unused(all, self.marks(), balanced@, i as nat) {
                    None => best is None,
                    Some(b) => best == Some(b as usize) && b < i,
                },
            decreases hits@.len() - i,
        {
            if !self.used[i] {
                match best {
                    None => {
                        best = Some(i);
                    },
                    Some(b) => {
                        if is_preferred(hits, balanced, i, b) {
                            best = Some(i);
                        }
                    },
                }
            }
            i += 1;
        }
        proof {
            lemma_best_unused(all, self.marks(), balanced@, hits@.len());
            if best is None {
                assert forall|u: usize| u < self.marks().len() implies self@.contains(u) by {
                    assert(self.marks()[u as int]);
                }
                lemma_all_selected(self@, self.marks().len());
            }
        }
        if let Some(b) = best {
            let ghost before = self@;
            self.used.set(b, true);
            self.selected.push(b);
            proof {
                assert forall|u: usize| u < self.marks().len() implies (#[trigger] self.marks()[u as int]
                    == self@.contains(u)) by {
                    if u == b {
                        assert(self@[before.len() as int] == u);
                    } else {
                        assert(old(self).marks()[u as int] == before.contains(u));
                        if before.contains(u) {
                            let a = choose|a: int| 0 <= a < before.len() && before[a] == u;
                            assert(self@[a] == u);
                        }
                        if self@.contains(u) {
                            let a = choose|a: int| 0 <= a < self@.len() && self@[a] == u;
                            assert(before[a] == u);
                        }
                    }
                }
                assert forall|x: int, y: int|
                    #![trigger self@[x], self@[y]]
                    0 <= x < y < self@.len() implies self@[x] != self@[y] by {
                    if y == before.len() && self@[x] == b {
                        assert(before[x] == b);
                        assert(before.contains(b));
                        assert(old(self).marks()[b as int] == before.contains(b));
                    }
                }
            }
        }
    }
}

/// Distinct positions that leave none out are as many as there are.
proof fn lemma_all_selected(selected: Seq<usize>, n: nat)
    requires
        n <= usize::MAX,
        forall|u: usize| u < n ==> selected.contains(u),
    ensures
        selected.len() >= n,
{
    let full = Set::new(|u: usize| u < n);
    crate::ann::lemma_range_set(n);
    assert(full.subset_of(selected.to_set()));
    vstd::set_lib::lemma_len_subset(full, selected.to_set());
    selected.lemma_cardinality_of_set();
}

fn is_preferred(hits: &Vec<Hit>, balanced: &Vec<u32>, i: usize, j: usize) -> (r: bool)
    requires
        i < hits@.len(),
        j < hits@.len(),
        balanced@.len() == hits@.len(),
    ensures
        r == preferred(hits.deep_view(), balanced@, i as int, j as int),
{
    let a = &hits[i];
    let b = &hits[j];
    proof {
        assert(hits.deep_view()[i as int] == a.deep_view());
        assert(hits.deep_view()[j as int] == b.deep_view());
    }
    if single_less(balanced[j], balanced[i]) {
        return true;
    }
    if !single_equal(balanced[i], balanced[j]) {
        return false;
    }
    if single_less(b.score, a.score) {
        return true;
    }
    if !single_equal(a.score, b.score) {
        return false;
    }
    match a.key.order(&b.key) {
        Order::Less => true,
        Order::Equal => {
            proof {
                <(String, String) as Key>::lemma_irreflexive(a.key.deep_view());
                assert(<(String, String) as Key>::before(a.key.deep_view(), a.key.deep_view())
                    == key_before(a.key.deep_view(), a.key.deep_view()));
            }
            false
        },
        Order::Greater => {
            proof {
                let x = a.key.deep_view();
                let y = b.key.deep_view();
                assert(<(String, String) as Key>::before(x, y) == key_before(x, y));
                if key_before(x, y) {
                    <(String, String) as Key>::lemma_transitive(x, y, x);
                    <(String, String) as Key>::lemma_irreflexive(x);
                }
            }
            false
        },
    }
}

} // verus!
