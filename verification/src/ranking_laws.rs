//! How scores order what they belong to.
use vstd::prelude::*;
use crate::float_bits::{lemma_single_key, single_eq, single_is_nan, single_lt, single_total_key};
use crate::hits::{
    best_first, best_unused, law_best_first, law_best_unused, picked_hits, place_of, ranked_hits,
    ranks_of, scores_of, HitModel,
};
use crate::hybrid::{plain_hits, scored_hits, shown_positions, shows, ScoresModel};
use crate::order::Key;
use crate::quantizers::{falling_keys, rising_keys};
use crate::ranking::{law_least_positions, least_positions};
use crate::record::{key_before, KeyModel, RecordModel, SparseVector};
use crate::search::fetch_size;
use crate::search_options::{HybridSearchOptions, SearchResult};

verus! {

/// The positions of the greatest scores: as many as are wanted and there are, each once, a greater
/// score before a less one, of the same score the first position first, and no greater score left
/// out.
pub proof fn law_greatest_scores(scores: Seq<u32>, limit: nat)
    requires
        scores.len() <= usize::MAX,
    ensures
        ({
            let r = least_positions(falling_keys(scores), limit);
            &&& r.len() == if limit < scores.len() {
                limit
            } else {
                scores.len()
            }
            &&& forall|a: int| 0 <= a < r.len() ==> (#[trigger] r[a]) < scores.len()
            &&& forall|a: int, b: int|
                #![trigger r[a], r[b]]
                0 <= a < b < r.len() ==> {
                    &&& r[a] != r[b]
                    &&& !single_lt(scores[r[a] as int], scores[r[b] as int])
                    &&& scores[r[a] as int] == scores[r[b] as int] ==> r[a] < r[b]
                }
            &&& forall|a: int, i: int|
                #![trigger r[a], scores[i]]
                0 <= a < r.len() && 0 <= i < scores.len() && !r.contains(i as usize)
                    ==> !single_lt(scores[r[a] as int], scores[i])
        }),
{
    let keys = falling_keys(scores);
    let r = least_positions(keys, limit);
    law_least_positions(keys, limit);
    assert forall|a: int, b: int|
        #![trigger r[a], r[b]]
        0 <= a < b < r.len() implies r[a] != r[b] && !single_lt(
        scores[r[a] as int],
        scores[r[b] as int],
    ) && (scores[r[a] as int] == scores[r[b] as int] ==> r[a] < r[b]) by {
        assert(<(u64, usize) as Key>::before(
            (keys[r[a] as int], r[a]),
            (keys[r[b] as int], r[b]),
        ));
        lemma_single_key(scores[r[a] as int]);
        lemma_single_key(scores[r[b] as int]);
    }
    assert forall|a: int, i: int|
        #![trigger r[a], scores[i]]
        0 <= a < r.len() && 0 <= i < scores.len() && !r.contains(i as usize) implies !single_lt(
        scores[r[a] as int],
        scores[i],
    ) by {
        assert(keys[i] == (0xffff_ffff - single_total_key(scores[i])) as u64);
        assert(<(u64, usize) as Key>::before((keys[r[a] as int], r[a]), (keys[i], i as usize)));
        lemma_single_key(scores[r[a] as int]);
        lemma_single_key(scores[i]);
    }
}

/// The positions of the least scores: as many as are wanted and there are, each once, a less score
/// before a greater one, of the same score the first position first, and no less score left out.
pub proof fn law_least_scores(scores: Seq<u32>, limit: nat)
    requires
        scores.len() <= usize::MAX,
    ensures
        ({
            let r = least_positions(rising_keys(scores), limit);
            &&& r.len() == if limit < scores.len() {
                limit
            } else {
                scores.len()
            }
            &&& forall|a: int| 0 <= a < r.len() ==> (#[trigger] r[a]) < scores.len()
            &&& forall|a: int, b: int|
                #![trigger r[a], r[b]]
                0 <= a < b < r.len() ==> {
                    &&& r[a] != r[b]
                    &&& !single_lt(scores[r[b] as int], scores[r[a] as int])
                    &&& scores[r[a] as int] == scores[r[b] as int] ==> r[a] < r[b]
                }
            &&& forall|a: int, i: int|
                #![trigger r[a], scores[i]]
                0 <= a < r.len() && 0 <= i < scores.len() && !r.contains(i as usize)
                    ==> !single_lt(scores[i], scores[r[a] as int])
        }),
{
    let keys = rising_keys(scores);
    let r = least_positions(keys, limit);
    law_least_positions(keys, limit);
    assert forall|a: int, b: int|
        #![trigger r[a], r[b]]
        0 <= a < b < r.len() implies r[a] != r[b] && !single_lt(
        scores[r[b] as int],
        scores[r[a] as int],
    ) && (scores[r[a] as int] == scores[r[b] as int] ==> r[a] < r[b]) by {
        assert(<(u64, usize) as Key>::before(
            (keys[r[a] as int], r[a]),
            (keys[r[b] as int], r[b]),
        ));
        lemma_single_key(scores[r[a] as int]);
        lemma_single_key(scores[r[b] as int]);
    }
    assert forall|a: int, i: int|
        #![trigger r[a], scores[i]]
        0 <= a < r.len() && 0 <= i < scores.len() && !r.contains(i as usize) implies !single_lt(
        scores[i],
        scores[r[a] as int],
    ) by {
        assert(keys[i] == single_total_key(scores[i]) as u64);
        assert(<(u64, usize) as Key>::before((keys[r[a] as int], r[a]), (keys[i], i as usize)));
        lemma_single_key(scores[r[a] as int]);
        lemma_single_key(scores[i]);
    }
}

/// Sorted hits: the same hits, each once, and none before one with a greater score.
pub proof fn law_hits_descend(hits: Seq<HitModel>)
    requires
        hits.len() <= usize::MAX,
    ensures
        ({
            let out = picked_hits(hits, best_first(scores_of(hits)));
            &&& out.len() == hits.len()
            &&& forall|i: int| 0 <= i < hits.len() ==> out.contains(#[trigger] hits[i])
            &&& forall|a: int| 0 <= a < out.len() ==> hits.contains(#[trigger] out[a])
            &&& forall|a: int, b: int|
                #![trigger out[a], out[b]]
                0 <= a < b < out.len() ==> !single_lt(out[a].score, out[b].score)
        }),
{
    let scores = scores_of(hits);
    let order = best_first(scores);
    let out = picked_hits(hits, order);
    law_best_first(scores);
    law_greatest_scores(scores, scores.len());
    assert forall|a: int, b: int|
        #![trigger out[a], out[b]]
        0 <= a < b < out.len() implies !single_lt(out[a].score, out[b].score) by {
        let i = order[a] as int;
        let j = order[b] as int;
        assert(out[a] == hits[i] && out[b] == hits[j]);
        assert(scores[i] == hits[i].score && scores[j] == hits[j].score);
    }
    assert forall|i: int| 0 <= i < hits.len() implies out.contains(#[trigger] hits[i]) by {
        assert(order.contains(i as usize));
        let a = choose|a: int| 0 <= a < order.len() && order[a] == i as usize;
        assert(out[a] == hits[i]);
    }
    assert forall|a: int| 0 <= a < out.len() implies hits.contains(#[trigger] out[a]) by {
        assert(out[a] == hits[order[a] as int]);
    }
}

/// Ranks: exactly the scores greater than zero have one, no two the same, a greater score a less
/// one; where all scores are numbers, ranks count up from one without a gap.
pub proof fn law_ranks(scores: Seq<u32>, i: int, j: int)
    requires
        scores.len() < usize::MAX,
        0 <= i < scores.len(),
        0 <= j < scores.len(),
    ensures
        ({
            let ranks = ranks_of(scores);
            &&& ranks.len() == scores.len()
            &&& ranks[i] is Some == (0 < scores[i] <= 0x7f80_0000)
            &&& ranks[i] is Some && ranks[j] is Some && i != j ==> ranks[i] != ranks[j]
            &&& ranks[i] is Some && ranks[j] is Some && single_lt(scores[j], scores[i])
                ==> ranks[i]->Some_0 < ranks[j]->Some_0
            &&& ranks[i] is Some ==> 1 <= ranks[i]->Some_0 <= scores.len()
            &&& ranks[i] is Some && ranks[i]->Some_0 > 1 && (forall|k: int|
                0 <= k < scores.len() ==> !single_is_nan(#[trigger] scores[k])) ==> ranks.contains(
                Some((ranks[i]->Some_0 - 1) as usize),
            )
        }),
{
    let ranks = ranks_of(scores);
    let order = best_first(scores);
    law_best_first(scores);
    law_greatest_scores(scores, scores.len());
    let a = place_of(order, i);
    let b = place_of(order, j);
    assert(order.contains(i as usize) && order.contains(j as usize));
    assert(0 <= a < order.len() && order[a] == i);
    assert(0 <= b < order.len() && order[b] == j);
    if single_lt(scores[j], scores[i]) && b < a {
        assert(!single_lt(scores[order[b] as int], scores[order[a] as int]));
    }
    if ranks[i] is Some && a > 0 && (forall|k: int|
        0 <= k < scores.len() ==> !single_is_nan(#[trigger] scores[k])) {
        let k = order[a - 1] as int;
        assert(!single_lt(scores[order[a - 1] as int], scores[order[a] as int]));
        assert(!single_is_nan(scores[k]) && !single_is_nan(scores[i]));
        assert(single_lt(0, scores[k]));
        assert(order.contains(k as usize));
        let p = place_of(order, k);
        assert(0 <= p < order.len() && order[p] == k);
        if p != a - 1 {
            if p < a - 1 {
                assert(order[p] != order[a - 1]);
            } else {
                assert(order[a - 1] != order[p]);
            }
        }
        assert(ranks[k] == Some((ranks[i]->Some_0 - 1) as usize));
    }
}

/// Hits are ranked by their dense and by their sparse scores, and nothing else of them changes.
pub proof fn law_ranked_hits(hits: Seq<HitModel>, i: int)
    requires
        0 <= i < hits.len(),
    ensures
        ({
            let out = ranked_hits(hits);
            &&& out.len() == hits.len()
            &&& out[i] == (HitModel {
                dense_rank: ranks_of(hits.map_values(|h: HitModel| h.dense_score))[i],
                sparse_rank: ranks_of(hits.map_values(|h: HitModel| h.sparse_score))[i],
                ..hits[i]
            })
        }),
{
}

/// Without a selection the first hits are shown, as many as are wanted and there are; a selection
/// is shown as it is.
pub proof fn law_first_hits(selected: Seq<usize>, found: nat, top_k: nat)
    requires
        found <= usize::MAX,
    ensures
        shown_positions(Some(selected), found, top_k) == selected,
        ({
            let r = shown_positions(None, found, top_k);
            &&& r.len() <= found && r.len() <= top_k
            &&& r.len() == found || r.len() == top_k
            &&& forall|i: int| 0 <= i < r.len() ==> #[trigger] r[i] == i
        }),
{
}

/// The hit that is selected next is not used yet, and where all scores are numbers no unused hit
/// has a greater balanced score, nor the same with a greater score of its own.
pub proof fn law_next_hit(
    hits: Seq<HitModel>,
    used: Seq<bool>,
    balanced: Seq<u32>,
    i: int,
)
    requires
        hits.len() == used.len() == balanced.len(),
        0 <= i < hits.len(),
        !used[i],
        forall|k: int|
            0 <= k < hits.len() ==> !single_is_nan(#[trigger] balanced[k]) && !single_is_nan(
                hits[k].score,
            ),
    ensures
        ({
            let next = best_unused(hits, used, balanced, hits.len());
            &&& next is Some
            &&& next->Some_0 < hits.len()
            &&& !used[next->Some_0 as int]
            &&& !single_lt(balanced[next->Some_0 as int], balanced[i])
            &&& single_eq(balanced[next->Some_0 as int], balanced[i]) ==> !single_lt(
                hits[next->Some_0 as int].score,
                hits[i].score,
            )
            &&& single_eq(balanced[next->Some_0 as int], balanced[i]) && single_eq(
                hits[next->Some_0 as int].score,
                hits[i].score,
            ) ==> !key_before(hits[i].key, hits[next->Some_0 as int].key)
        }),
{
    law_best_unused(hits, used, balanced, hits.len(), i);
    crate::hits::lemma_best_unused(hits, used, balanced, hits.len());
}

/// How many records a search is to fetch: never more than there are; else at least what was asked
/// for, at least the wanted results and at least one, four times that where the results are to be
/// diverse; and no more than the greatest of these.
pub proof fn law_fetch_bounds(top_k: nat, requested: nat, total: nat, diverse: bool)
    ensures
        ({
            let r = fetch_size(top_k, requested, total, diverse);
            &&& r <= total
            &&& r == total || (r >= requested && r >= top_k && r >= 1 && (diverse ==> r >= 4
                * top_k && r >= 4))
            &&& r <= requested || r <= top_k || r <= 1 || (diverse && (r <= 4 * top_k || r <= 4))
            &&& requested <= top_k && !diverse && 1 <= top_k <= total ==> r == top_k
        }),
{
}

/// A result shows its hit: the key, the scores and ranks of the hit, and the metadata of the record.
/// It names the vector that was compared, unless several were.
pub proof fn law_shown_result(
    r: SearchResult,
    h: HitModel,
    m: RecordModel,
    query: Option<&SparseVector>,
    options: &HybridSearchOptions,
)
    requires
        shows(r, h, m, query, options),
    ensures
        r.namespace@ == h.key.0 && r.id@ == h.key.1,
        r.score == h.score,
        r.dense_score == h.dense_score && r.dense_rank == h.dense_rank,
        r.sparse_score == h.sparse_score && r.sparse_rank == h.sparse_rank,
        r.metadata.pairs() == m.metadata,
        r.bm25_term_scores.deep_view() == h.term_scores,
        query is None ==> r.matched_terms@.len() == 0,
        options.multi_vector_queries.pairs().len() > 0 ==> r.vector_name is None,
        options.multi_vector_queries.pairs().len() == 0 ==> match options.vector_name {
            Some(name) => r.vector_name matches Some(shown) && shown@ == name@,
            None => r.vector_name is None,
        },
{
    if query is None {
        assert(r.matched_terms.deep_view().len() == 0);
    }
}

/// The hits of a search: each key has its own scores, and takes on the joint score that belongs to
/// it, with nothing else changed.
pub proof fn law_hits_of_scores(
    keys: Seq<KeyModel>,
    scores: Seq<ScoresModel>,
    hits: Seq<HitModel>,
    joint: Seq<u32>,
)
    ensures
        plain_hits(keys, scores).len() == keys.len(),
        forall|i: int|
            0 <= i < keys.len() ==> {
                let h = #[trigger] plain_hits(keys, scores)[i];
                &&& h.key == keys[i]
                &&& h.dense_score == scores[i].dense
                &&& h.sparse_score == scores[i].sparse
                &&& h.term_scores == scores[i].terms
                &&& h.dense_rank is None && h.sparse_rank is None
            },
        scored_hits(hits, joint).len() == hits.len(),
        forall|i: int|
            0 <= i < hits.len() ==> {
                let h = #[trigger] scored_hits(hits, joint)[i];
                &&& h.score == joint[i]
                &&& h.key == hits[i].key
                &&& h.dense_score == hits[i].dense_score && h.dense_rank == hits[i].dense_rank
                &&& h.sparse_score == hits[i].sparse_score && h.sparse_rank == hits[i].sparse_rank
            },
{
}

} // verus!
