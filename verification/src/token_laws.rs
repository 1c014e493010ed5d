//! What searches by token vectors find.
use vstd::prelude::*;
use crate::ann::row_keys;
use crate::database::{token_index_valid, Database};
use crate::filter::{accepts, MetadataFilter};
use crate::float_bits::double_le;
use crate::order::Key;
use crate::ordered_map::{
    ascending, has_key, lemma_ascending_unique, lemma_map_of_at, map_of, position_of,
};
use crate::quantization::{law_rescored_bounds, rescored};
use crate::ranking::{law_least_positions, least_positions};
use crate::record::{KeyModel, RecordModel};
use crate::results::token_eligible;
use crate::search::opt_name;
use crate::search_options::MultiVectorSearchOptions;
use crate::token_index::MultiVectorQuantizedIndex;
use crate::two_bit::falling_key;

verus! {

/// Whether a key names a record that a search by token vectors may show: it is live, in the
/// namespace, has the space, and the filter accepts its metadata.
pub open(crate) spec fn token_suits(
    rows: Seq<(KeyModel, RecordModel)>,
    space: Seq<char>,
    filter: Option<MetadataFilter>,
    namespace: Option<Seq<char>>,
    now: u64,
    k: KeyModel,
) -> bool {
    exists|i: int|
        {
            let m = (#[trigger] rows[i]).1;
            &&& 0 <= i < rows.len()
            &&& rows[i].0 == k
            &&& m.expires_at matches Some(t) ==> !double_le(t, now)
            &&& namespace matches Some(n) ==> k.0 == n
            &&& exists|j: int|
                0 <= j < m.multi_vectors.len() && (#[trigger] m.multi_vectors[j]).0 == space
            &&& filter matches Some(f) ==> accepts(f, m.metadata)
        }
}

proof fn lemma_token_suits(
    rows: Seq<(KeyModel, RecordModel)>,
    space: Seq<char>,
    filter: Option<MetadataFilter>,
    namespace: Option<Seq<char>>,
    now: u64,
    k: KeyModel,
)
    requires
        ascending::<(String, String), RecordModel>(rows),
    ensures
        token_suits(rows, space, filter, namespace, now, k) == (has_key(rows, k) && token_eligible(
            k,
            map_of(rows)[k],
            space,
            filter,
            namespace,
            now,
        )),
{
    if has_key(rows, k) {
        let p = position_of(rows, k);
        lemma_map_of_at::<(String, String), RecordModel>(rows, p);
        assert forall|i: int| 0 <= i < rows.len() && (#[trigger] rows[i]).0 == k implies i
            == p by {
            lemma_ascending_unique::<(String, String), RecordModel>(rows, i, p);
        }
        if token_eligible(k, rows[p].1, space, filter, namespace, now) {
            assert(rows[p].0 == k);
        }
    } else if token_suits(rows, space, filter, namespace, now, k) {
        let i = choose|i: int| 0 <= i < rows.len() && (#[trigger] rows[i]).0 == k;
        assert(has_key(rows, k));
    }
}

/// Which records a search by token vectors compares: only such as suit it. Where the space has no
/// quantized index it compares all of them; where it has one, those that the index knows and singles
/// out, which are all that it knows where as many results are wanted.
pub proof fn law_token_search(
    db: &Database,
    space: Seq<char>,
    tokens: Seq<Seq<u32>>,
    options: &MultiVectorSearchOptions,
    now: u64,
    k: KeyModel,
)
    requires
        ascending::<(String, String), RecordModel>(db.rows()),
        db.token_indexes().indexes@.contains_key(space) ==> token_index_valid(
            db.token_indexes().indexes@[space],
        ),
    ensures
        ({
            let hits = db.token_hits(space, tokens, options, now);
            let suiting = token_suits(
                db.rows(),
                space,
                options.filter,
                opt_name(options.namespace),
                now,
                k,
            );
            &&& hits.contains(k) ==> suiting
            &&& if db.token_indexes().indexes@.contains_key(space) {
                let known = db.token_indexes().indexes@[space].keys.deep_view();
                &&& hits.contains(k) ==> known.contains(k)
                &&& suiting && known.contains(k) && options.top_k >= known.len() ==> hits.contains(k)
            } else {
                suiting ==> hits.contains(k)
            }
        }),
{
    let rows = db.rows();
    let filter = options.filter;
    let namespace = opt_name(options.namespace);
    let all = db.token_candidates(space, tokens, options.top_k as nat);
    let keep = |q: KeyModel|
        db@.contains_key(q) && token_eligible(q, db@[q], space, filter, namespace, now);
    let hits = all.filter(keep);
    lemma_token_suits(rows, space, filter, namespace, now, k);
    assert(db@ == map_of(rows));
    if hits.contains(k) {
        let p = choose|p: int| 0 <= p < hits.len() && hits[p] == k;
        all.lemma_filter_pred(keep, p);
        all.lemma_filter_contains_rev(keep, k);
    }
    if db.token_indexes().indexes@.contains_key(space) {
        let t = db.token_indexes().indexes@[space];
        let known = t.keys.deep_view();
        let codes = t.index.query_codes(tokens);
        let keys = t.index.doc_keys(codes);
        let n = rescored(
            db.wanted(options.top_k as nat),
            t.index.quantizer.config.rescore_multiplier as nat,
            t.index.doc_ranges@.len(),
        );
        assert(keys.len() == t.index.doc_ranges.len());
        let order = least_positions(keys, n);
        law_least_positions(keys, n);
        assert(known.len() == t.keys@.len());
        if hits.contains(k) {
            let a = choose|a: int| 0 <= a < all.len() && all[a] == k;
            assert(all[a] == known[order[a] as int]);
        }
        if known.contains(k) && options.top_k >= known.len() {
            let d = choose|d: int| 0 <= d < known.len() && known[d] == k;
            law_rescored_bounds(
                db.wanted(options.top_k as nat),
                t.index.quantizer.config.rescore_multiplier as nat,
                t.index.doc_ranges@.len(),
            );
            lemma_rescored_all(
                db.wanted(options.top_k as nat),
                t.index.quantizer.config.rescore_multiplier as nat,
                t.index.doc_ranges@.len(),
            );
            crate::hits::lemma_pigeonhole(order, keys.len(), d);
            let a = choose|a: int| 0 <= a < order.len() && order[a] == d as usize;
            assert(all[a] == k);
            if keep(k) {
                all.lemma_filter_contains(keep, a);
            }
        }
    } else if has_key(rows, k) {
        let i = position_of(rows, k);
        assert(row_keys(rows)[i] == k);
        if keep(k) {
            all.lemma_filter_contains(keep, i);
        }
    }
}

proof fn lemma_rescored_all(top_k: nat, multiplier: nat, count: nat)
    requires
        top_k >= count,
        top_k > 0,
    ensures
        rescored(top_k, multiplier, count) == count,
{
    let b: nat = if multiplier == 0 {
        1
    } else {
        multiplier
    };
    assert(top_k * b >= top_k) by (nonlinear_arith)
        requires
            b >= 1,
    ;
}

/// The documents that a quantized index singles out: none that is left out is more similar to the
/// query than one that is in, and a more similar one comes first.
pub proof fn law_most_similar(
    index: &MultiVectorQuantizedIndex,
    codes: Seq<Seq<u8>>,
    limit: nat,
)
    requires
        index.doc_ranges@.len() <= usize::MAX,
        forall|d: int|
            0 <= d < index.doc_ranges@.len() ==> #[trigger] index.doc_similarity(codes, d)
                <= i32::MAX,
    ensures
        ({
            let r = least_positions(index.doc_keys(codes), limit);
            &&& forall|a: int| 0 <= a < r.len() ==> (#[trigger] r[a]) < index.doc_ranges@.len()
            &&& forall|a: int, b: int|
                #![trigger r[a], r[b]]
                0 <= a < b < r.len() ==> index.doc_similarity(codes, r[a] as int)
                    >= index.doc_similarity(codes, r[b] as int)
            &&& forall|a: int, d: int|
                #![trigger r[a], index.doc_similarity(codes, d)]
                0 <= a < r.len() && 0 <= d < index.doc_ranges@.len() && !r.contains(d as usize)
                    ==> index.doc_similarity(codes, r[a] as int) >= index.doc_similarity(codes, d)
        }),
{
    let keys = index.doc_keys(codes);
    let r = least_positions(keys, limit);
    law_least_positions(keys, limit);
    assert forall|a: int, b: int|
        #![trigger r[a], r[b]]
        0 <= a < b < r.len() implies index.doc_similarity(codes, r[a] as int)
        >= index.doc_similarity(codes, r[b] as int) by {
        assert(<(u64, usize) as Key>::before(
            (keys[r[a] as int], r[a]),
            (keys[r[b] as int], r[b]),
        ));
        assert(keys[r[a] as int] == falling_key(index.doc_similarity(codes, r[a] as int) as int));
        assert(keys[r[b] as int] == falling_key(index.doc_similarity(codes, r[b] as int) as int));
    }
    assert forall|a: int, d: int|
        #![trigger r[a], index.doc_similarity(codes, d)]
        0 <= a < r.len() && 0 <= d < index.doc_ranges@.len() && !r.contains(
            d as usize,
        ) implies index.doc_similarity(codes, r[a] as int) >= index.doc_similarity(codes, d) by {
        assert(keys[d] == falling_key(index.doc_similarity(codes, d) as int));
        assert(keys[r[a] as int] == falling_key(index.doc_similarity(codes, r[a] as int) as int));
        assert(<(u64, usize) as Key>::before((keys[r[a] as int], r[a]), (keys[d], d as usize)));
    }
}

} // verus!
