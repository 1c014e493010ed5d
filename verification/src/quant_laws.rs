//! What quantized indexes and settings do.
use vstd::prelude::*;
use crate::config::{sync_decision, IndexConfig, WalSyncMode};
use crate::float_bits::{lemma_single_key, single_is_nan, single_lt, single_total_key};
use crate::metric::{metric_of_name, DistanceMetric};
use crate::error::Failure;
use crate::order::Key;
use crate::quantization::{positive, preferred_parts, rescored};
use crate::quantizers::{high, low, QuantizedIndex, INFINITY, NEG_INFINITY};
use crate::ranking::{law_least_positions, least_positions};
use crate::ranking_laws::{law_greatest_scores, law_least_scores};
use crate::sort::{lemma_sorted, sorted};
use crate::text::lower_text;
use crate::two_bit::{column, level, level_at, level_dot, quartile, two_bit_code};

verus! {

/// The candidates of a quantized index: those with the greatest approximate scores of scalar codes,
/// those with the least approximate distances of product codes, and those of binary codes that
/// differ from the query in the fewest bits; the best first, and none that is better left out.
pub proof fn law_quantized_candidates(
    index: &QuantizedIndex,
    query: Seq<u32>,
    scores: Seq<u32>,
    limit: nat,
    a: int,
    i: int,
)
    requires
        scores.len() <= usize::MAX,
        !(index is Binary) ==> 0 <= i < scores.len(),
        index matches QuantizedIndex::Binary(q) ==> 0 <= i < q.count && forall|k: int|
            0 <= k < q.count ==> #[trigger] q.distance(query, k) <= u32::MAX,
        0 <= a < least_positions(index.candidate_keys(query, scores), limit).len(),
    ensures
        ({
            let r = least_positions(index.candidate_keys(query, scores), limit);
            let later = !r.contains(i as usize) || exists|b: int|
                a < b < r.len() && #[trigger] r[b] == i;
            match *index {
                QuantizedIndex::Scalar(_) => later ==> !single_lt(scores[r[a] as int], scores[i]),
                QuantizedIndex::Product(_) => later ==> !single_lt(scores[i], scores[r[a] as int]),
                QuantizedIndex::Binary(q) => later ==> q.distance(query, r[a] as int)
                    <= q.distance(query, i),
            }
        }),
{
    let keys = index.candidate_keys(query, scores);
    let r = least_positions(keys, limit);
    match *index {
        QuantizedIndex::Scalar(_) => {
            law_greatest_scores(scores, limit);
            if !r.contains(i as usize) {
                assert(!single_lt(scores[r[a] as int], scores[i]));
            }
        },
        QuantizedIndex::Product(_) => {
            law_least_scores(scores, limit);
            if !r.contains(i as usize) {
                assert(!single_lt(scores[i], scores[r[a] as int]));
            }
        },
        QuantizedIndex::Binary(q) => {
            assert(keys.len() == q.count);
            law_least_positions(keys, limit);
            assert(r[a] < keys.len());
            assert(keys[i] == q.distance(query, i) as u64);
            assert(keys[r[a] as int] == q.distance(query, r[a] as int) as u64);
            if r.contains(i as usize) {
                if exists|b: int| a < b < r.len() && #[trigger] r[b] == i {
                    let b = choose|b: int| a < b < r.len() && #[trigger] r[b] == i;
                    assert(<(u64, usize) as Key>::before(
                        (keys[r[a] as int], r[a]),
                        (keys[r[b] as int], r[b]),
                    ));
                }
            } else {
                assert(<(u64, usize) as Key>::before(
                    (keys[r[a] as int], r[a]),
                    (keys[i], i as usize),
                ));
            }
        },
    }
}

/// How many candidates are scored again: for each wanted result as many as the multiplier says, both
/// at least one; but no more than there are.
pub proof fn law_rescored(top_k: nat, multiplier: nat, count: nat)
    ensures
        rescored(top_k, multiplier, count) <= count,
        top_k >= 1 && multiplier >= 1 ==> rescored(top_k, multiplier, count) == count || rescored(
            top_k,
            multiplier,
            count,
        ) == top_k * multiplier,
        top_k >= 1 && multiplier >= 1 && top_k * multiplier <= count ==> rescored(
            top_k,
            multiplier,
            count,
        ) == top_k * multiplier,
        top_k >= 1 ==> rescored(top_k, 0, count) == rescored(top_k, 1, count),
        multiplier >= 1 ==> rescored(0, multiplier, count) == rescored(1, multiplier, count),
{
}

/// A coordinate counts as positive where it is greater than zero.
pub proof fn law_positive(vector: Seq<u32>, i: int)
    requires
        0 <= i < vector.len(),
    ensures
        vector[i] <= 0x7f80_0000 || 0x8000_0000 <= vector[i] <= 0xff80_0000 ==> positive(vector, i)
            == (0 < vector[i] <= 0x7f80_0000),
{
}

/// The range of a coordinate is tight: its least value is that of a vector, or positive infinity,
/// and its greatest that of a vector, or negative infinity.
pub proof fn law_calibration_tight(vectors: Seq<Seq<u32>>, d: int, n: nat)
    requires
        n <= vectors.len(),
    ensures
        low(vectors, d, n) == INFINITY || exists|i: int|
            0 <= i < n && #[trigger] vectors[i][d] == low(vectors, d, n),
        high(vectors, d, n) == NEG_INFINITY || exists|i: int|
            0 <= i < n && #[trigger] vectors[i][d] == high(vectors, d, n),
    decreases n,
{
    if n > 0 {
        law_calibration_tight(vectors, d, (n - 1) as nat);
        if low(vectors, d, n) != INFINITY {
            if low(vectors, d, n) == low(vectors, d, (n - 1) as nat) {
                let i = choose|i: int|
                    0 <= i < n - 1 && #[trigger] vectors[i][d] == low(vectors, d, (n - 1) as nat);
                assert(vectors[i][d] == low(vectors, d, n));
            } else {
                assert(vectors[n - 1][d] == low(vectors, d, n));
            }
        }
        if high(vectors, d, n) != NEG_INFINITY {
            if high(vectors, d, n) == high(vectors, d, (n - 1) as nat) {
                let i = choose|i: int|
                    0 <= i < n - 1 && #[trigger] vectors[i][d] == high(vectors, d, (n - 1) as nat);
                assert(vectors[i][d] == high(vectors, d, n));
            } else {
                assert(vectors[n - 1][d] == high(vectors, d, n));
            }
        }
    }
}

/// The level of a number among ascending boundaries is how many of them are less than it.
pub proof fn law_level(v: u32, q25: u32, q50: u32, q75: u32)
    requires
        !single_is_nan(v),
        !single_is_nan(q25),
        !single_is_nan(q50),
        !single_is_nan(q75),
        !single_lt(q50, q25),
        !single_lt(q75, q50),
    ensures
        level(v, q25, q50, q75) == (if single_lt(q25, v) {
            1int
        } else {
            0
        }) + (if single_lt(q50, v) {
            1int
        } else {
            0
        }) + (if single_lt(q75, v) {
            1int
        } else {
            0
        }),
{
}

/// The similarity of two codes grows, coordinate by coordinate, by the product of their levels.
pub proof fn law_level_similarity(
    a: Seq<u32>,
    b: Seq<u32>,
    boundaries: Seq<u32>,
    width: nat,
    n: nat,
)
    requires
        n < 4 * width,
    ensures
        ({
            let x = two_bit_code(a, boundaries, width);
            let y = two_bit_code(b, boundaries, width);
            &&& level_dot(x, y, 0) == 0
            &&& level_dot(x, y, n + 1) == level_dot(x, y, n) + level_at(
                a,
                boundaries,
                n as int,
            ) as nat * level_at(b, boundaries, n as int) as nat
        }),
{
    crate::two_bit::law_code_levels(a, boundaries, width, n as int);
    crate::two_bit::law_code_levels(b, boundaries, width, n as int);
}

/// A quartile is the coordinate of some vector.
pub proof fn law_quartile(vectors: Seq<Seq<u32>>, d: int, q: int)
    requires
        vectors.len() > 0,
        1 <= q <= 3,
    ensures
        exists|i: int|
            0 <= i < vectors.len() && #[trigger] vectors[i][d] == quartile(vectors, d, q),
{
    let c = column(vectors, d);
    let s = sorted::<u64>(c);
    lemma_sorted::<u64>(c);
    vstd::seq_lib::to_multiset_len(c);
    vstd::seq_lib::to_multiset_len(s);
    let p = (q * vectors.len()) / 4;
    assert(0 <= p < vectors.len()) by (nonlinear_arith)
        requires
            p == (q * vectors.len()) / 4,
            1 <= q <= 3,
            vectors.len() > 0,
    ;
    assert(s.contains(s[p]));
    s.to_multiset_ensures();
    c.to_multiset_ensures();
    assert(s.to_multiset().contains(s[p]));
    assert(c.contains(s[p]));
    let i = choose|i: int| 0 <= i < c.len() && c[i] == s[p];
    lemma_single_key(vectors[i][d]);
    assert(vectors[i][d] == quartile(vectors, d, q));
}

/// When an append forces the log to disk: always, never, or once as many operations have gathered as
/// was set, which are then none.
pub proof fn law_sync(n: usize, pending: nat, appended: nat)
    requires
        pending + appended <= usize::MAX,
    ensures
        sync_decision(WalSyncMode::PerOp, pending, appended).0,
        !sync_decision(WalSyncMode::OnFlush, pending, appended).0,
        sync_decision(WalSyncMode::OnFlush, pending, appended).1 == pending + appended,
        sync_decision(WalSyncMode::EveryN(n), pending, appended).0 <==> pending + appended >= n,
        sync_decision(WalSyncMode::EveryN(n), pending, appended).1 == if pending + appended >= n {
            0
        } else {
            pending + appended
        },
{
}

/// Which settings of the graphs are accepted.
pub proof fn law_index_config(config: IndexConfig)
    ensures
        config.defect() is None <==> config.m >= 1 && config.ef_construction >= 1 && (
        config.ef_search matches Some(ef) ==> ef >= 1) && config.tombstone_rebuild_pct <= 100,
{
}

/// Which names a metric has, in letters of either case.
pub proof fn law_metric_aliases(name: Seq<char>)
    ensures
        ({
            let lower = lower_text(name);
            let m = metric_of_name(name);
            &&& m == Ok::<DistanceMetric, Failure>(DistanceMetric::Cosine) <==> lower == "cosine"@
            &&& m == Ok::<DistanceMetric, Failure>(DistanceMetric::Euclidean) <==> lower
                == "euclidean"@ || lower == "l2"@
            &&& m == Ok::<DistanceMetric, Failure>(DistanceMetric::DotProduct) <==> lower
                == "dotproduct"@ || lower == "dot"@ || lower == "dot_product"@ || lower == "ip"@
                || lower == "inner_product"@
            &&& m == Ok::<DistanceMetric, Failure>(DistanceMetric::Manhattan) <==> lower
                == "manhattan"@ || lower == "l1"@
        }),
{
    reveal_strlit("cosine");
    reveal_strlit("euclidean");
    reveal_strlit("dotproduct");
    reveal_strlit("manhattan");
    reveal_strlit("l2");
    reveal_strlit("dot");
    reveal_strlit("dot_product");
    reveal_strlit("ip");
    reveal_strlit("inner_product");
    reveal_strlit("l1");
    let lower = lower_text(name);
    assert(lower == "cosine"@ ==> lower[0] == 'c');
    assert(lower == "euclidean"@ ==> lower[0] == 'e');
    assert(lower == "l2"@ ==> lower[0] == 'l' && lower[1] == '2');
    assert(lower == "l1"@ ==> lower[0] == 'l' && lower[1] == '1');
    assert(lower == "dotproduct"@ ==> lower[0] == 'd');
    assert(lower == "dot"@ ==> lower[0] == 'd');
    assert(lower == "dot_product"@ ==> lower[0] == 'd');
    assert(lower == "ip"@ ==> lower[0] == 'i');
    assert(lower == "inner_product"@ ==> lower[0] == 'i');
    assert(lower == "manhattan"@ ==> lower[0] == 'm');
}

/// The preferred number of parts divides the dimension, and no greater one of those that are tried
/// does.
pub proof fn law_preferred_parts(dimension: nat)
    ensures
        ({
            let p = preferred_parts(dimension);
            &&& dimension % p == 0
            &&& p == 16 || p == 12 || p == 10 || p == 8 || p == 6 || p == 4 || p == 3 || p == 2 || p
                == 1
            &&& dimension % 16 == 0 ==> p >= 16
            &&& dimension % 12 == 0 ==> p >= 12
            &&& dimension % 10 == 0 ==> p >= 10
            &&& dimension % 8 == 0 ==> p >= 8
            &&& dimension % 6 == 0 ==> p >= 6
            &&& dimension % 4 == 0 ==> p >= 4
            &&& dimension % 3 == 0 ==> p >= 3
            &&& dimension % 2 == 0 ==> p >= 2
        }),
{
}

} // verus!
