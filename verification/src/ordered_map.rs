//! A map kept as a vector of entries in strictly ascending key order.
use vstd::prelude::*;
use crate::order::{Duplicate, Key, Order};

verus! {

/// Whether `key` is the first component of one of `pairs`.
pub open spec fn has_key<A, B>(pairs: Seq<(A, B)>, key: A) -> bool {
    exists|i: int| 0 <= i < pairs.len() && (#[trigger] pairs[i]).0 == key
}

/// The position of the pair of `key`.
pub open spec fn position_of<A, B>(pairs: Seq<(A, B)>, key: A) -> int
    recommends
        has_key(pairs, key),
{
    choose|i: int| 0 <= i < pairs.len() && (#[trigger] pairs[i]).0 == key
}

/// The map that `pairs` list.
pub open spec fn map_of<A, B>(pairs: Seq<(A, B)>) -> Map<A, B> {
    Map::new(|k: A| has_key(pairs, k), |k: A| pairs[position_of(pairs, k)].1)
}

/// Whether the keys of `pairs` are strictly ascending.
pub open spec fn ascending<K: Key, B>(pairs: Seq<(K::V, B)>) -> bool {
    forall|i: int, j: int|
        #![trigger pairs[i], pairs[j]]
        0 <= i < j < pairs.len() ==> K::before(pairs[i].0, pairs[j].0)
}

/// In ascending pairs every key occurs at one position only.
pub proof fn lemma_ascending_unique<K: Key, B>(pairs: Seq<(K::V, B)>, i: int, j: int)
    requires
        ascending::<K, B>(pairs),
        0 <= i < pairs.len(),
        0 <= j < pairs.len(),
        pairs[i].0 == pairs[j].0,
    ensures
        i == j,
{
    K::lemma_irreflexive(pairs[i].0);
}

/// The map of ascending pairs holds each pair.
pub proof fn lemma_map_of_at<K: Key, B>(pairs: Seq<(K::V, B)>, i: int)
    requires
        ascending::<K, B>(pairs),
        0 <= i < pairs.len(),
    ensures
        map_of(pairs).contains_key(pairs[i].0),
        map_of(pairs)[pairs[i].0] == pairs[i].1,
        position_of(pairs, pairs[i].0) == i,
{
    assert(has_key(pairs, pairs[i].0));
    lemma_ascending_unique::<K, B>(pairs, i, position_of(pairs, pairs[i].0));
}

/// Ascending pairs are determined by their map.
pub proof fn lemma_ascending_determined<K: Key, B>(a: Seq<(K::V, B)>, b: Seq<(K::V, B)>)
    requires
        ascending::<K, B>(a),
        ascending::<K, B>(b),
        map_of(a) == map_of(b),
    ensures
        a == b,
    decreases a.len(),
{
    if a.len() == 0 {
        if b.len() > 0 {
            lemma_map_of_at::<K, B>(b, 0);
            assert(has_key(a, b[0].0));
        }
        assert(a =~= b);
    } else {
        let last = a.len() - 1;
        lemma_map_of_at::<K, B>(a, last);
        assert(has_key(b, a[last].0));
        let p = position_of(b, a[last].0);
        let bl = b.len() - 1;
        lemma_map_of_at::<K, B>(b, bl);
        assert(has_key(a, b[bl].0));
        let q = position_of(a, b[bl].0);
        if p < bl {
            assert(K::before(b[p].0, b[bl].0));
            if q < last {
                assert(K::before(a[q].0, a[last].0));
                K::lemma_transitive(a[last].0, b[bl].0, a[last].0);
            }
            K::lemma_irreflexive(a[last].0);
        }
        assert(p == bl);
        lemma_map_of_at::<K, B>(b, bl);
        assert(a[last] == b[bl]);
        let a1 = a.drop_last();
        let b1 = b.drop_last();
        assert forall|i: int, j: int|
            #![trigger a1[i], a1[j]]
            0 <= i < j < a1.len() implies K::before(a1[i].0, a1[j].0) by {
            assert(K::before(a[i].0, a[j].0));
        }
        assert forall|i: int, j: int|
            #![trigger b1[i], b1[j]]
            0 <= i < j < b1.len() implies K::before(b1[i].0, b1[j].0) by {
            assert(K::before(b[i].0, b[j].0));
        }
        lemma_map_of_drop_last::<K, B>(a);
        lemma_map_of_drop_last::<K, B>(b);
        lemma_ascending_determined::<K, B>(a1, b1);
        assert(a =~= a1.push(a[last]));
        assert(b =~= b1.push(b[bl]));
    }
}

proof fn lemma_map_of_drop_last<K: Key, B>(a: Seq<(K::V, B)>)
    requires
        ascending::<K, B>(a),
        a.len() > 0,
    ensures
        map_of(a.drop_last()) == map_of(a).remove(a.last().0),
{
    let a1 = a.drop_last();
    let last = a.len() - 1;
    assert(ascending::<K, B>(a1)) by {
        assert forall|i: int, j: int|
            #![trigger a1[i], a1[j]]
            0 <= i < j < a1.len() implies K::before(a1[i].0, a1[j].0) by {
            assert(K::before(a[i].0, a[j].0));
        }
    }
    assert forall|k: K::V| map_of(a1).contains_key(k) == map_of(a).remove(
        a.last().0,
    ).contains_key(k) by {
        if has_key(a1, k) {
            let i = position_of(a1, k);
            assert(a[i] == a1[i]);
            assert(has_key(a, k));
            if k == a.last().0 {
                lemma_ascending_unique::<K, B>(a, i, last);
            }
        }
        if has_key(a, k) && k != a.last().0 {
            let i = position_of(a, k);
            assert(a1[i] == a[i]);
            assert(has_key(a1, k));
        }
    }
    assert forall|k: K::V| map_of(a1).contains_key(k) implies map_of(a1)[k] == map_of(a)[k] by {
        let i = position_of(a1, k);
        assert(a[i] == a1[i]);
        lemma_map_of_at::<K, B>(a, i);
    }
    assert(map_of(a1) =~= map_of(a).remove(a.last().0));
}

/// One more pair of ascending pairs adds its entry to the map.
pub proof fn lemma_map_of_take<K: Key, B>(a: Seq<(K::V, B)>, i: int)
    requires
        ascending::<K, B>(a),
        0 <= i < a.len(),
    ensures
        map_of(a.take(i + 1)) == map_of(a.take(i)).insert(a[i].0, a[i].1),
        !map_of(a.take(i)).contains_key(a[i].0),
        ascending::<K, B>(a.take(i)),
{
    let t = a.take(i + 1);
    assert forall|p: int, q: int|
        #![trigger t[p], t[q]]
        0 <= p < q < t.len() implies K::before(t[p].0, t[q].0) by {
        assert(K::before(a[p].0, a[q].0));
    }
    let u = a.take(i);
    assert forall|p: int, q: int|
        #![trigger u[p], u[q]]
        0 <= p < q < u.len() implies K::before(u[p].0, u[q].0) by {
        assert(K::before(a[p].0, a[q].0));
    }
    assert(t.drop_last() =~= u);
    lemma_map_of_drop_last::<K, B>(t);
    lemma_map_of_at::<K, B>(t, i);
    assert(map_of(t) =~= map_of(u).insert(a[i].0, a[i].1));
}

/// Where `key` belongs among ascending pairs that do not hold it.
pub open spec fn insertion_point<K: Key, B>(pairs: Seq<(K::V, B)>, key: K::V) -> nat
    decreases pairs.len(),
{
    if pairs.len() > 0 && K::before(pairs[0].0, key) {
        insertion_point::<K, B>(pairs.drop_first(), key) + 1
    } else {
        0
    }
}

/// Ascending pairs after setting the value of `key`.
pub open spec fn insert_pair<K: Key, B>(pairs: Seq<(K::V, B)>, key: K::V, value: B) -> Seq<
    (K::V, B),
> {
    if has_key(pairs, key) {
        pairs.update(position_of(pairs, key), (key, value))
    } else {
        pairs.insert(insertion_point::<K, B>(pairs, key) as int, (key, value))
    }
}

/// Ascending pairs after removing `key`.
pub open spec fn remove_pair<A, B>(pairs: Seq<(A, B)>, key: A) -> Seq<(A, B)> {
    if has_key(pairs, key) {
        pairs.remove(position_of(pairs, key))
    } else {
        pairs
    }
}

/// The point that separates the keys before `key` from those after it is where it belongs.
pub proof fn lemma_insertion_point<K: Key, B>(pairs: Seq<(K::V, B)>, key: K::V, n: int)
    requires
        0 <= n <= pairs.len(),
        forall|i: int| 0 <= i < n ==> K::before((#[trigger] pairs[i]).0, key),
        forall|i: int| n <= i < pairs.len() ==> K::before(key, (#[trigger] pairs[i]).0),
    ensures
        insertion_point::<K, B>(pairs, key) == n,
    decreases pairs.len(),
{
    if pairs.len() > 0 {
        if n > 0 {
            let t = pairs.drop_first();
            assert forall|i: int| 0 <= i < n - 1 implies K::before((#[trigger] t[i]).0, key) by {
                assert(t[i] == pairs[i + 1]);
            }
            assert forall|i: int| n - 1 <= i < t.len() implies K::before(
                key,
                (#[trigger] t[i]).0,
            ) by {
                assert(t[i] == pairs[i + 1]);
            }
            lemma_insertion_point::<K, B>(t, key, n - 1);
        } else if K::before(pairs[0].0, key) {
            assert(K::before(key, pairs[0].0));
            K::lemma_transitive(key, pairs[0].0, key);
            K::lemma_irreflexive(key);
        }
    }
}

/// A key after all others is appended.
pub proof fn lemma_insert_last<K: Key, B>(pairs: Seq<(K::V, B)>, key: K::V, value: B)
    requires
        forall|i: int| 0 <= i < pairs.len() ==> K::before((#[trigger] pairs[i]).0, key),
    ensures
        insert_pair::<K, B>(pairs, key, value) == pairs.push((key, value)),
{
    lemma_insertion_point::<K, B>(pairs, key, pairs.len() as int);
    K::lemma_irreflexive(key);
    assert(!has_key(pairs, key));
    assert(pairs.insert(pairs.len() as int, (key, value)) =~= pairs.push((key, value)));
}

/// Where a key belongs, the keys before it are smaller and the keys from there on are greater.
proof fn lemma_point_splits<K: Key, B>(pairs: Seq<(K::V, B)>, key: K::V)
    requires
        ascending::<K, B>(pairs),
        !has_key(pairs, key),
    ensures
        ({
            let p = insertion_point::<K, B>(pairs, key) as int;
            &&& 0 <= p <= pairs.len()
            &&& forall|i: int| 0 <= i < p ==> K::before((#[trigger] pairs[i]).0, key)
            &&& forall|i: int| p <= i < pairs.len() ==> K::before(key, (#[trigger] pairs[i]).0)
        }),
    decreases pairs.len(),
{
    if pairs.len() > 0 {
        let more = pairs.drop_first();
        if K::before(pairs[0].0, key) {
            assert forall|i: int, j: int|
                #![trigger more[i], more[j]]
                0 <= i < j < more.len() implies K::before(more[i].0, more[j].0) by {
                assert(K::before(pairs[i + 1].0, pairs[j + 1].0));
            }
            assert(!has_key(more, key)) by {
                if has_key(more, key) {
                    let i = choose|i: int| 0 <= i < more.len() && (#[trigger] more[i]).0 == key;
                    assert(pairs[i + 1].0 == key);
                }
            }
            lemma_point_splits::<K, B>(more, key);
            let p = insertion_point::<K, B>(pairs, key) as int;
            assert forall|i: int| 0 <= i < p implies K::before((#[trigger] pairs[i]).0, key) by {
                if i > 0 {
                    assert(more[i - 1] == pairs[i]);
                }
            }
            assert forall|i: int| p <= i < pairs.len() implies K::before(
                key,
                (#[trigger] pairs[i]).0,
            ) by {
                assert(more[i - 1] == pairs[i]);
            }
        } else {
            K::lemma_total(pairs[0].0, key);
            assert(pairs[0].0 != key);
            assert forall|i: int| 0 <= i < pairs.len() implies K::before(
                key,
                (#[trigger] pairs[i]).0,
            ) by {
                if i > 0 {
                    assert(K::before(pairs[0].0, pairs[i].0));
                    K::lemma_transitive(key, pairs[0].0, pairs[i].0);
                }
            }
        }
    }
}

/// Setting a pair keeps pairs ascending and sets the entry of their map.
pub proof fn lemma_insert_pair<K: Key, B>(pairs: Seq<(K::V, B)>, key: K::V, value: B)
    requires
        ascending::<K, B>(pairs),
    ensures
        ascending::<K, B>(insert_pair::<K, B>(pairs, key, value)),
        map_of(insert_pair::<K, B>(pairs, key, value)) == map_of(pairs).insert(key, value),
{
    let out = insert_pair::<K, B>(pairs, key, value);
    let there = has_key(pairs, key);
    let p = if there {
        position_of(pairs, key)
    } else {
        insertion_point::<K, B>(pairs, key) as int
    };
    if !there {
        lemma_point_splits::<K, B>(pairs, key);
    }
    assert(out[p] == (key, value));
    assert forall|i: int, j: int|
        #![trigger out[i], out[j]]
        0 <= i < j < out.len() implies K::before(out[i].0, out[j].0) by {
        let a = if there || i < p {
            i
        } else {
            i - 1
        };
        let b = if there || j < p {
            j
        } else {
            j - 1
        };
        if there {
            assert(K::before(pairs[i].0, pairs[j].0));
        } else if i == p {
            assert(out[j] == pairs[b]);
        } else if j == p {
            assert(out[i] == pairs[a]);
        } else {
            assert(out[i] == pairs[a] && out[j] == pairs[b]);
            assert(K::before(pairs[a].0, pairs[b].0));
        }
    }
    assert forall|q: K::V| has_key(out, q) == (q == key || has_key(pairs, q)) by {
        if has_key(out, q) && q != key {
            let i = position_of(out, q);
            let a = if there || i < p {
                i
            } else {
                i - 1
            };
            assert(pairs[a].0 == q);
        }
        if has_key(pairs, q) && q != key {
            let a = position_of(pairs, q);
            let i = if there || a < p {
                a
            } else {
                a + 1
            };
            assert(out[i].0 == q);
        }
        if q == key {
            assert(out[p].0 == q);
        }
    }
    assert forall|q: K::V| has_key(out, q) implies #[trigger] map_of(out)[q] == map_of(
        pairs,
    ).insert(key, value)[q] by {
        if q == key {
            lemma_map_of_at::<K, B>(out, p);
        } else {
            let a = position_of(pairs, q);
            assert(has_key(pairs, q));
            let i = if there || a < p {
                a
            } else {
                a + 1
            };
            assert(out[i] == pairs[a]);
            lemma_map_of_at::<K, B>(out, i);
            lemma_map_of_at::<K, B>(pairs, a);
        }
    }
    assert(map_of(out) =~= map_of(pairs).insert(key, value));
}

/// An ordered map.
pub struct OrderedMap<K: Key, V> {
    pub(crate) entries: Vec<(K, V)>,
}

impl<K: Key, V> OrderedMap<K, V> {
    #[verifier::type_invariant]
    pub open(crate) spec fn wf(self) -> bool {
        forall|i: int, j: int|
            #![trigger self.entries@[i], self.entries@[j]]
            0 <= i < j < self.entries@.len() ==> K::before(
                self.entries@[i].0.deep_view(),
                self.entries@[j].0.deep_view(),
            )
    }
}

impl<K: Key, V: DeepView> OrderedMap<K, V> {
    /// The entries in ascending key order.
    pub open(crate) spec fn pairs(self) -> Seq<(K::V, V::V)> {
        Seq::new(
            self.entries@.len(),
            |i: int| (self.entries@[i].0.deep_view(), self.entries@[i].1.deep_view()),
        )
    }

    /// The value stored at a position.
    pub open(crate) spec fn stored(self, i: int) -> V {
        self.entries@[i].1
    }

    /// The map from keys to values.
    pub open(crate) spec fn view(self) -> Map<K::V, V::V> {
        map_of(self.pairs())
    }

    /// The entries of an ordered map are ascending.
    pub(crate) proof fn lemma_pairs_ascending(self)
        requires
            self.wf(),
        ensures
            ascending::<K, V::V>(self.pairs()),
    {
        assert forall|i: int, j: int|
            #![trigger self.pairs()[i], self.pairs()[j]]
            0 <= i < j < self.pairs().len() implies K::before(
            self.pairs()[i].0,
            self.pairs()[j].0,
        ) by {
            assert(K::before(
                self.entries@[i].0.deep_view(),
                self.entries@[j].0.deep_view(),
            ));
        }
    }

    /// The number of entries fits the machine's word.
    pub(crate) proof fn lemma_len(self)
        ensures
            self.pairs().len() <= usize::MAX,
    {
        assert(self.entries.len() <= usize::MAX);
    }

    /// An empty map.
    pub fn new() -> (r: Self)
        ensures
            r@ == Map::<K::V, V::V>::empty(),
            r.pairs() == Seq::<(K::V, V::V)>::empty(),
    {
        let r = OrderedMap { entries: Vec::new() };
        proof {
            assert(r@ =~= Map::<K::V, V::V>::empty());
        }
        r
    }

    /// The number of entries.
    pub fn len(&self) -> (r: usize)
        ensures
            r == self.pairs().len(),
    {
        self.entries.len()
    }

    /// Whether there is no entry.
    pub fn is_empty(&self) -> (r: bool)
        ensures
            r == (self.pairs().len() == 0),
            r == (self@ == Map::<K::V, V::V>::empty()),
    {
        let r = self.entries.len() == 0;
        proof {
            if r {
                assert(self@ =~= Map::<K::V, V::V>::empty());
            } else {
                assert(has_key(self.pairs(), self.pairs()[0].0));
                assert(self@.contains_key(self.pairs()[0].0));
            }
        }
        r
    }

    /// The key at a position.
    pub fn key_at(&self, i: usize) -> (r: &K)
        requires
            i < self.pairs().len(),
        ensures
            r.deep_view() == self.pairs()[i as int].0,
    {
        &self.entries[i].0
    }

    /// The value at a position.
    pub fn value_at(&self, i: usize) -> (r: &V)
        requires
            i < self.pairs().len(),
        ensures
            r.deep_view() == self.pairs()[i as int].1,
            *r == self.stored(i as int),
    {
        &self.entries[i].1
    }

    /// Where `key` is, or where it would be inserted.
    pub(crate) fn locate(&self, key: &K) -> (r: (bool, usize))
        ensures
            r.0 ==> r.1 < self.pairs().len() && self.pairs()[r.1 as int].0 == key.deep_view(),
            !r.0 ==> {
                &&& r.1 <= self.pairs().len()
                &&& forall|i: int|
                    0 <= i < r.1 ==> K::before(
                        (#[trigger] self.entries@[i]).0.deep_view(),
                        key.deep_view(),
                    )
                &&& forall|i: int|
                    r.1 <= i < self.entries@.len() ==> K::before(
                        key.deep_view(),
                        (#[trigger] self.entries@[i]).0.deep_view(),
                    )
            },
            r.0 == self@.contains_key(key.deep_view()),
    {
        proof {
            use_type_invariant(self);
        }
        let mut lo: usize = 0;
        let mut hi: usize = self.entries.len();
        while lo < hi
            invariant
                lo <= hi <= self.entries@.len(),
                self.wf(),
                forall|i: int|
                    0 <= i < lo ==> K::before(
                        (#[trigger] self.entries@[i]).0.deep_view(),
                        key.deep_view(),
                    ),
                forall|i: int|
                    hi <= i < self.entries@.len() ==> K::before(
                        key.deep_view(),
                        (#[trigger] self.entries@[i]).0.deep_view(),
                    ),
            decreases hi - lo,
        {
            let mid: usize = lo + (hi - lo) / 2;
            let o = key.order(&self.entries[mid].0);
            match o {
                Order::Equal => {
                    proof {
                        assert(self.pairs()[mid as int].0 == key.deep_view());
                        assert(has_key(self.pairs(), key.deep_view()));
                    }
                    return (true, mid);
                },
                Order::Greater => {
                    proof {
                        assert forall|i: int| 0 <= i < mid + 1 implies K::before(
                            (#[trigger] self.entries@[i]).0.deep_view(),
                            key.deep_view(),
                        ) by {
                            if i < mid {
                                K::lemma_transitive(
                                    self.entries@[i].0.deep_view(),
                                    self.entries@[mid as int].0.deep_view(),
                                    key.deep_view(),
                                );
                            }
                        }
                    }
                    lo = mid + 1;
                },
                Order::Less => {
                    proof {
                        assert forall|i: int| mid <= i < self.entries@.len() implies K::before(
                            key.deep_view(),
                            (#[trigger] self.entries@[i]).0.deep_view(),
                        ) by {
                            if i > mid {
                                K::lemma_transitive(
                                    key.deep_view(),
                                    self.entries@[mid as int].0.deep_view(),
                                    self.entries@[i].0.deep_view(),
                                );
                            }
                        }
                    }
                    hi = mid;
                },
            }
        }
        proof {
            if has_key(self.pairs(), key.deep_view()) {
                let i = position_of(self.pairs(), key.deep_view());
                assert(self.entries@[i].0.deep_view() == key.deep_view());
                K::lemma_irreflexive(key.deep_view());
            }
        }
        (false, lo)
    }

    /// The value of `key`.
    pub fn lookup(&self, key: &K) -> (r: Option<&V>)
        ensures
            r is Some == self@.contains_key(key.deep_view()),
            r matches Some(v) ==> v.deep_view() == self@[key.deep_view()],
    {
        let (found, i) = self.locate(key);
        if found {
            proof {
                use_type_invariant(self);
                self.lemma_pairs_ascending();
                lemma_map_of_at::<K, V::V>(self.pairs(), i as int);
            }
            Some(&self.entries[i].1)
        } else {
            None
        }
    }

    /// Whether `key` has an entry.
    pub fn has(&self, key: &K) -> (r: bool)
        ensures
            r == self@.contains_key(key.deep_view()),
    {
        self.locate(key).0
    }

    /// Sets the value of `key`.
    pub fn put(&mut self, key: K, value: V)
        ensures
            final(self)@ == old(self)@.insert(key.deep_view(), value.deep_view()),
            final(self).pairs() == insert_pair::<K, V::V>(
                old(self).pairs(),
                key.deep_view(),
                value.deep_view(),
            ),
    {
        let (found, i) = self.locate(&key);
        proof {
            use_type_invariant(&*self);
            self.lemma_pairs_ascending();
        }
        let ghost before = *self;
        let ghost k = key.deep_view();
        let ghost v = value.deep_view();
        let mut entries: Vec<(K, V)> = Vec::new();
        core::mem::swap(&mut self.entries, &mut entries);
        if found {
            entries[i] = (key, value);
        } else {
            entries.insert(i, (key, value));
        }
        self.entries = entries;
        proof {
            use_type_invariant(&*self);
            self.lemma_pairs_ascending();
            let bp = before.pairs();
            let ap = self.pairs();
            assert(ap[i as int] == (k, v));
            lemma_map_of_at::<K, V::V>(ap, i as int);
            if found {
                lemma_map_of_at::<K, V::V>(bp, i as int);
                assert(ap =~= bp.update(i as int, (k, v)));
            } else {
                assert forall|j: int| 0 <= j < i implies K::before((#[trigger] bp[j]).0, k) by {
                    assert(before.entries@[j].0.deep_view() == bp[j].0);
                }
                assert forall|j: int| i <= j < bp.len() implies K::before(
                    k,
                    (#[trigger] bp[j]).0,
                ) by {
                    assert(before.entries@[j].0.deep_view() == bp[j].0);
                }
                lemma_insertion_point::<K, V::V>(bp, k, i as int);
                assert(ap =~= bp.insert(i as int, (k, v)));
            }
            assert forall|q: K::V| ap.len() > 0 implies (#[trigger] has_key(ap, q)) == (q == k
                || has_key(bp, q)) by {
                if has_key(ap, q) && q != k {
                    let p = position_of(ap, q);
                    let o = if found || p < i { p } else { p - 1 };
                    assert(bp[o].0 == q);
                }
                if has_key(bp, q) && q != k {
                    let o = position_of(bp, q);
                    let p = if found || o < i { o } else { o + 1 };
                    assert(ap[p].0 == q);
                }
            }
            assert forall|q: K::V| has_key(bp, q) && q != k implies (#[trigger] map_of(ap)[q])
                == map_of(bp)[q] by {
                let o = position_of(bp, q);
                let p = if found || o < i { o } else { o + 1 };
                assert(ap[p] == bp[o]);
                lemma_map_of_at::<K, V::V>(ap, p);
                lemma_map_of_at::<K, V::V>(bp, o);
            }
            assert(self@ =~= before@.insert(k, v));
        }
    }

    /// Removes the entry of `key`.
    pub fn take(&mut self, key: &K) -> (r: Option<V>)
        ensures
            final(self)@ == old(self)@.remove(key.deep_view()),
            final(self).pairs() == remove_pair(old(self).pairs(), key.deep_view()),
            r is Some == old(self)@.contains_key(key.deep_view()),
            r matches Some(v) ==> v.deep_view() == old(self)@[key.deep_view()],
    {
        let (found, i) = self.locate(key);
        let ghost before = *self;
        let ghost k = key.deep_view();
        proof {
            use_type_invariant(&*self);
            self.lemma_pairs_ascending();
        }
        if !found {
            proof {
                assert(self@ =~= before@.remove(k));
            }
            return None;
        }
        let mut entries: Vec<(K, V)> = Vec::new();
        core::mem::swap(&mut self.entries, &mut entries);
        let (_, v) = entries.remove(i);
        self.entries = entries;
        proof {
            use_type_invariant(&*self);
            self.lemma_pairs_ascending();
            let bp = before.pairs();
            let ap = self.pairs();
            lemma_map_of_at::<K, V::V>(bp, i as int);
            assert(ap =~= bp.remove(i as int));
            assert forall|q: K::V| (#[trigger] has_key(ap, q)) == (q != k && has_key(bp, q)) by {
                if has_key(ap, q) {
                    let p = position_of(ap, q);
                    let o = if p < i { p } else { p + 1 };
                    assert(bp[o].0 == q);
                    if q == k {
                        lemma_ascending_unique::<K, V::V>(bp, o, i as int);
                    }
                }
                if has_key(bp, q) && q != k {
                    let o = position_of(bp, q);
                    let p = if o < i { o } else { o - 1 };
                    assert(ap[p].0 == q);
                }
            }
            assert forall|q: K::V| has_key(bp, q) && q != k implies (#[trigger] map_of(ap)[q])
                == map_of(bp)[q] by {
                let o = position_of(bp, q);
                let p = if o < i { o } else { o - 1 };
                assert(ap[p] == bp[o]);
                lemma_map_of_at::<K, V::V>(ap, p);
                lemma_map_of_at::<K, V::V>(bp, o);
            }
            assert(self@ =~= before@.remove(k));
        }
        Some(v)
    }
}

impl<K: Key, V: DeepView> OrderedMap<K, V> {
    /// Exchanges the value at a position for another.
    pub(crate) fn exchange(&mut self, i: usize, value: V) -> (r: V)
        requires
            i < old(self).pairs().len(),
        ensures
            r == old(self).stored(i as int),
            final(self).stored(i as int) == value,
            final(self).pairs() == old(self).pairs().update(
                i as int,
                (old(self).pairs()[i as int].0, value.deep_view()),
            ),
    {
        proof {
            use_type_invariant(&*self);
        }
        let ghost before = *self;
        let mut entries: Vec<(K, V)> = Vec::new();
        core::mem::swap(&mut self.entries, &mut entries);
        let mut v = value;
        let ghost k = entries@[i as int].0;
        core::mem::swap(&mut entries[i].1, &mut v);
        self.entries = entries;
        proof {
            assert(self.pairs() =~= before.pairs().update(
                i as int,
                (before.pairs()[i as int].0, value.deep_view()),
            ));
        }
        v
    }
}

impl<K: Key, V: DeepView> DeepView for OrderedMap<K, V> {
    type V = Seq<(K::V, V::V)>;

    open(crate) spec fn deep_view(&self) -> Seq<(K::V, V::V)> {
        self.pairs()
    }
}

impl<K: Key, V: Duplicate> Duplicate for OrderedMap<K, V> {
    fn duplicate(&self) -> (r: Self) {
        proof {
            use_type_invariant(self);
        }
        let mut entries: Vec<(K, V)> = Vec::new();
        let mut i: usize = 0;
        while i < self.entries.len()
            invariant
                i <= self.entries@.len(),
                entries@.len() == i,
                forall|k: int|
                    0 <= k < i ==> (#[trigger] entries@[k]).0.deep_view()
                        == self.entries@[k].0.deep_view() && entries@[k].1.deep_view()
                        == self.entries@[k].1.deep_view(),
            decreases self.entries@.len() - i,
        {
            let e = &self.entries[i];
            entries.push((e.0.duplicate(), e.1.duplicate()));
            i += 1;
        }
        let r = OrderedMap { entries };
        proof {
            assert(r.pairs() =~= self.pairs());
        }
        r
    }
}

impl<V: DeepView> OrderedMap<String, V> {
    /// The value of the text `key`.
    pub fn get(&self, key: &str) -> (r: Option<&V>)
        ensures
            r is Some == self@.contains_key(key@),
            r matches Some(v) ==> v.deep_view() == self@[key@],
    {
        self.lookup(&key.to_owned())
    }

    /// Whether the text `key` has an entry.
    pub fn contains_key(&self, key: &str) -> (r: bool)
        ensures
            r == self@.contains_key(key@),
    {
        self.has(&key.to_owned())
    }

    /// Sets the value of the text `key`.
    pub fn insert(&mut self, key: String, value: V)
        ensures
            final(self)@ == old(self)@.insert(key@, value.deep_view()),
            final(self).pairs() == insert_pair::<String, V::V>(
                old(self).pairs(),
                key@,
                value.deep_view(),
            ),
    {
        self.put(key, value)
    }

    /// Removes the entry of the text `key`.
    pub fn remove(&mut self, key: &str) -> (r: Option<V>)
        ensures
            final(self)@ == old(self)@.remove(key@),
            final(self).pairs() == remove_pair(old(self).pairs(), key@),
            r is Some == old(self)@.contains_key(key@),
            r matches Some(v) ==> v.deep_view() == old(self)@[key@],
    {
        self.take(&key.to_owned())
    }
}

} // verus!
