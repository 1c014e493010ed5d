//! Results that a caller has put in another order.
use vstd::prelude::*;
use crate::order::Duplicate;
use crate::ordered_set::OrderedSet;
use crate::record::{KeyModel, RecordKey};

verus! {

/// How many results are handed over for another order; zero asks for all.
pub open spec fn limit_of(rerank_k: nat, results: nat) -> nat {
    if rerank_k == 0 || rerank_k > results {
        results
    } else {
        rerank_k
    }
}

/// How many results are handed over for another order.
pub fn rerank_limit(rerank_k: usize, results: usize) -> (r: usize)
    ensures
        r == limit_of(rerank_k as nat, results as nat),
{
    if rerank_k == 0 || rerank_k > results {
        results
    } else {
        rerank_k
    }
}

/// Whether a key is among the first `n`.
pub open spec fn seen_before(keys: Seq<KeyModel>, key: KeyModel, n: nat) -> bool {
    exists|i: int| 0 <= i < n && i < keys.len() && #[trigger] keys[i] == key
}

/// The positions among the first `n` at which a key appears for the first time.
pub open spec fn first_positions(keys: Seq<KeyModel>, n: nat) -> Seq<usize>
    decreases n,
{
    if n == 0 || n > keys.len() {
        Seq::empty()
    } else {
        let before = first_positions(keys, (n - 1) as nat);
        if seen_before(keys, keys[n - 1], (n - 1) as nat) {
            before
        } else {
            before.push((n - 1) as usize)
        }
    }
}

/// The positions at which a key appears for the first time. Handed the results in their new order
/// and then those in the old one, this keeps the new order, drops what is named twice and puts what
/// was left out behind.
pub fn merge_reranked(keys: &Vec<RecordKey>) -> (r: Vec<usize>)
    ensures
        r@ == first_positions(keys.deep_view(), keys@.len()),
{
    let ghost all = keys.deep_view();
    let mut seen: OrderedSet<RecordKey> = OrderedSet::new();
    let mut out: Vec<usize> = Vec::new();
    let mut i: usize = 0;
    while i < keys.len()
        invariant
            i <= keys@.len(),
            all == keys.deep_view(),
            forall|k: KeyModel| seen@.contains(k) <==> seen_before(all, k, i as nat),
            out@ == first_positions(all, i as nat),
        decreases keys@.len() - i,
    {
        let ghost before = seen@;
        proof {
            assert(all[i as int] == keys@[i as int].deep_view());
        }
        if !seen.has(&keys[i]) {
            out.push(i);
            seen.add(keys[i].duplicate());
        }
        proof {
            assert forall|k: KeyModel| seen@.contains(k) <==> seen_before(
                all,
                k,
                (i + 1) as nat,
            ) by {
                if seen_before(all, k, (i + 1) as nat) {
                    let j = choose|j: int| 0 <= j < i + 1 && j < all.len() && #[trigger] all[j] == k;
                    if j < i {
                        assert(seen_before(all, k, i as nat));
                    }
                }
                if before.contains(k) {
                    let j = choose|j: int| 0 <= j < i && j < all.len() && #[trigger] all[j] == k;
                    assert(all[j] == k);
                }
                if k == all[i as int] {
                    assert(seen_before(all, k, (i + 1) as nat));
                }
            }
        }
        i += 1;
    }
    out
}

/// Merging keeps every key, and keeps each once.
pub proof fn law_merge_keeps_all(keys: Seq<KeyModel>, n: nat)
    requires
        n <= keys.len() <= usize::MAX,
    ensures
        forall|k: KeyModel| #[trigger]
            seen_before(keys, k, n) ==> exists|p: int|
                0 <= p < first_positions(keys, n).len()
                    && keys[(#[trigger] first_positions(keys, n)[p]) as int] == k,
        forall|p: int, q: int|
            0 <= p < q < first_positions(keys, n).len() ==> first_positions(keys, n)[p]
                < first_positions(keys, n)[q] && keys[first_positions(keys, n)[p] as int]
                != keys[first_positions(keys, n)[q] as int],
        forall|p: int|
            0 <= p < first_positions(keys, n).len() ==> (#[trigger] first_positions(keys, n)[p])
                < n,
    decreases n,
{
    if n > 0 {
        let m = (n - 1) as nat;
        law_merge_keeps_all(keys, m);
        let before = first_positions(keys, m);
        let after = first_positions(keys, n);
        let last = keys[n - 1];
        if !seen_before(keys, last, m) {
            assert(after == before.push(m as usize));
            assert(after[before.len() as int] == m);
            assert forall|p: int| 0 <= p < before.len() implies keys[before[p] as int] != last by {
                if keys[before[p] as int] == last {
                    assert(seen_before(keys, last, m));
                }
            }
            assert forall|p: int, q: int| 0 <= p < q < after.len() implies after[p] < after[q]
                && keys[after[p] as int] != keys[after[q] as int] by {
                assert(after[p] == before[p]);
                if q < before.len() {
                    assert(after[q] == before[q]);
                }
            }
        }
        assert forall|k: KeyModel| #[trigger] seen_before(keys, k, n) implies exists|p: int|
            0 <= p < after.len() && keys[(#[trigger] after[p]) as int] == k by {
            if seen_before(keys, k, m) {
                let p = choose|p: int|
                    0 <= p < before.len() && keys[(#[trigger] before[p]) as int] == k;
                assert(after[p] == before[p]);
            } else {
                let j = choose|j: int| 0 <= j < n && j < keys.len() && #[trigger] keys[j] == k;
                if j < m {
                    assert(seen_before(keys, k, m));
                }
                assert(k == last);
                assert(after[before.len() as int] == m);
            }
        }
    }
}

} // verus!
