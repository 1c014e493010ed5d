//! Ranking by integer keys.
use vstd::prelude::*;
use crate::order::{Duplicate, Key, Order};
use crate::sort::{lemma_sorted, sort, sorted};

verus! {

impl Duplicate for (u64, usize) {
    fn duplicate(&self) -> (r: Self) {
        (self.0, self.1)
    }
}

impl Key for (u64, usize) {
    open spec fn before(a: (u64, usize), b: (u64, usize)) -> bool {
        a.0 < b.0 || (a.0 == b.0 && a.1 < b.1)
    }

    proof fn lemma_irreflexive(a: (u64, usize)) {
    }

    proof fn lemma_transitive(a: (u64, usize), b: (u64, usize), c: (u64, usize)) {
    }

    proof fn lemma_total(a: (u64, usize), b: (u64, usize)) {
    }

    fn order(&self, other: &Self) -> (r: Order) {
        if self.0 < other.0 {
            Order::Less
        } else if self.0 > other.0 {
            Order::Greater
        } else if self.1 < other.1 {
            Order::Less
        } else if self.1 > other.1 {
            Order::Greater
        } else {
            Order::Equal
        }
    }
}

/// Every key with its position.
pub open spec fn placed(keys: Seq<u64>) -> Seq<(u64, usize)> {
    Seq::new(keys.len(), |i: int| (keys[i], i as usize))
}

/// The positions of the `limit` least keys, the least first and equal keys by position.
pub open spec fn least_positions(keys: Seq<u64>, limit: nat) -> Seq<usize> {
    let n = if limit < keys.len() {
        limit
    } else {
        keys.len()
    };
    sorted::<(u64, usize)>(placed(keys)).take(n as int).map_values(|p: (u64, usize)| p.1)
}

/// The least positions are distinct positions in ascending order of key, and every position that
/// is left out has a greater key, or an equal one further on.
pub proof fn law_least_positions(keys: Seq<u64>, limit: nat)
    requires
        keys.len() <= usize::MAX,
    ensures
        ({
            let r = least_positions(keys, limit);
            &&& r.len() == if limit < keys.len() {
                limit
            } else {
                keys.len()
            }
            &&& forall|a: int| 0 <= a < r.len() ==> (#[trigger] r[a]) < keys.len()
            &&& forall|a: int, b: int|
                #![trigger r[a], r[b]]
                0 <= a < b < r.len() ==> r[a] != r[b] && <(u64, usize) as Key>::before(
                    (keys[r[a] as int], r[a]),
                    (keys[r[b] as int], r[b]),
                )
            &&& forall|a: int, i: int|
                #![trigger r[a], keys[i]]
                0 <= a < r.len() && 0 <= i < keys.len() && !r.contains(i as usize) ==> <(
                    u64,
                    usize,
                ) as Key>::before((keys[r[a] as int], r[a]), (keys[i], i as usize))
        }),
{
    let p = placed(keys);
    let s = sorted::<(u64, usize)>(p);
    let r = least_positions(keys, limit);
    lemma_sorted::<(u64, usize)>(p);
    vstd::seq_lib::to_multiset_len(p);
    vstd::seq_lib::to_multiset_len(s);
    assert(p.no_duplicates()) by {
        assert forall|i: int, j: int| 0 <= i < p.len() && 0 <= j < p.len() && i != j implies p[i]
            != p[j] by {
            assert(p[i].1 == i && p[j].1 == j);
        }
    }
    p.lemma_multiset_has_no_duplicates();
    assert forall|x: (u64, usize)| s.to_multiset().contains(x) implies s.to_multiset().count(x)
        == 1 by {
        assert(p.to_multiset().contains(x));
    }
    s.lemma_multiset_has_no_duplicates_conv();
    assert forall|k: int| 0 <= k < s.len() implies (#[trigger] s[k]).1 < keys.len() && s[k].0
        == keys[s[k].1 as int] by {
        vstd::seq_lib::to_multiset_contains(s, s[k]);
        vstd::seq_lib::to_multiset_contains(p, s[k]);
        assert(p.contains(s[k]));
    }
    assert forall|a: int, b: int|
        #![trigger r[a], r[b]]
        0 <= a < b < r.len() implies r[a] != r[b] && <(u64, usize) as Key>::before(
        (keys[r[a] as int], r[a]),
        (keys[r[b] as int], r[b]),
    ) by {
        assert(r[a] == s[a].1 && r[b] == s[b].1);
        assert(s[a] != s[b]);
        assert(<(u64, usize) as Key>::before(s[a], s[b]));
    }
    assert forall|a: int, i: int|
        #![trigger r[a], keys[i]]
        0 <= a < r.len() && 0 <= i < keys.len() && !r.contains(i as usize) implies <(
        u64,
        usize,
    ) as Key>::before((keys[r[a] as int], r[a]), (keys[i], i as usize)) by {
        assert(r[a] == s[a].1);
        assert(p.contains(p[i]));
        vstd::seq_lib::to_multiset_contains(p, p[i]);
        vstd::seq_lib::to_multiset_contains(s, p[i]);
        let k = choose|k: int| 0 <= k < s.len() && s[k] == p[i];
        if k < r.len() {
            assert(r[k] == i as usize);
        }
        assert(s[a] != s[k]);
        assert(<(u64, usize) as Key>::before(s[a], s[k]));
    }
}

/// The positions of the `limit` least keys.
pub fn rank(keys: &Vec<u64>, limit: usize) -> (r: Vec<usize>)
    ensures
        r@ == least_positions(keys@, limit as nat),
{
    let mut pairs: Vec<(u64, usize)> = Vec::new();
    let mut i: usize = 0;
    while i < keys.len()
        invariant
            i <= keys@.len(),
            pairs.deep_view() =~= placed(keys@).take(i as int),
        decreases keys@.len() - i,
    {
        let ghost before = pairs.deep_view();
        pairs.push((keys[i], i));
        proof {
            assert(pairs.deep_view() =~= before.push((keys@[i as int], i)));
        }
        i += 1;
    }
    proof {
        assert(placed(keys@).take(i as int) =~= placed(keys@));
    }
    let in_turn = sort(pairs);
    let ghost s = in_turn.deep_view();
    proof {
        lemma_sorted::<(u64, usize)>(placed(keys@));
        vstd::seq_lib::to_multiset_len(placed(keys@));
        vstd::seq_lib::to_multiset_len(s);
    }
    let n: usize = if limit < keys.len() {
        limit
    } else {
        keys.len()
    };
    let mut out: Vec<usize> = Vec::new();
    let mut j: usize = 0;
    while j < n
        invariant
            j <= n <= s.len(),
            s == in_turn.deep_view(),
            out@ =~= s.take(j as int).map_values(|p: (u64, usize)| p.1),
        decreases n - j,
    {
        proof {
            assert(s[j as int] == in_turn@[j as int].deep_view());
        }
        out.push(in_turn[j].1);
        j += 1;
    }
    out
}

} // verus!
