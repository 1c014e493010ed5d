//! A set kept in ascending order.
use vstd::prelude::*;
use crate::order::{Duplicate, Key};
use crate::ordered_map::{has_key, lemma_ascending_unique, position_of, OrderedMap};

verus! {

/// Whether `items` are the elements of `set` in strictly ascending order.
pub open spec fn lists<K: Key>(items: Seq<K::V>, set: Set<K::V>) -> bool {
    &&& forall|i: int, j: int|
        #![trigger items[i], items[j]]
        0 <= i < j < items.len() ==> K::before(items[i], items[j])
    &&& forall|x: K::V| #[trigger] set.contains(x) <==> items.contains(x)
}

/// What a list of a set holds.
pub proof fn lemma_lists<K: Key>(items: Seq<K::V>, set: Set<K::V>, x: K::V)
    requires
        lists::<K>(items, set),
    ensures
        set.contains(x) <==> items.contains(x),
{
}

/// A list of a set names nothing twice.
pub proof fn lemma_lists_distinct<K: Key>(items: Seq<K::V>, set: Set<K::V>)
    requires
        lists::<K>(items, set),
    ensures
        items.no_duplicates(),
{
    assert forall|i: int, j: int|
        0 <= i < items.len() && 0 <= j < items.len() && i != j implies items[i] != items[j] by {
        K::lemma_irreflexive(items[i]);
        if i < j {
            assert(K::before(items[i], items[j]));
        } else {
            assert(K::before(items[j], items[i]));
        }
    }
}

/// An ordered set.
pub struct OrderedSet<K: Key> {
    pub(crate) map: OrderedMap<K, bool>,
}

impl<K: Key> OrderedSet<K> {
    pub open(crate) spec fn view(self) -> Set<K::V> {
        self.map@.dom()
    }

    /// The elements in ascending order.
    pub open(crate) spec fn items(self) -> Seq<K::V> {
        Seq::new(self.map.pairs().len(), |i: int| self.map.pairs()[i].0)
    }

    /// An empty set.
    pub fn new() -> (r: Self)
        ensures
            r@ == Set::<K::V>::empty(),
            r.items() == Seq::<K::V>::empty(),
    {
        let r = OrderedSet { map: OrderedMap::new() };
        proof {
            assert(r@ =~= Set::<K::V>::empty());
            assert(r.items() =~= Seq::<K::V>::empty());
        }
        r
    }

    /// The number of elements.
    pub fn len(&self) -> (r: usize)
        ensures
            r == self.items().len(),
            r == self@.len(),
    {
        proof {
            use_type_invariant(&self.map);
            self.lemma_len();
        }
        self.map.len()
    }

    /// Whether there is no element.
    pub fn is_empty(&self) -> (r: bool)
        ensures
            r == (self@ == Set::<K::V>::empty()),
    {
        let r = self.map.is_empty();
        proof {
            if r {
                assert(self@ =~= Set::<K::V>::empty());
            } else {
                let k = self.map.pairs()[0].0;
                assert(has_key(self.map.pairs(), k));
                assert(self@.contains(k));
            }
        }
        r
    }

    /// The element at a position.
    pub fn at(&self, i: usize) -> (r: &K)
        requires
            i < self.items().len(),
        ensures
            r.deep_view() == self.items()[i as int],
            self@.contains(r.deep_view()),
    {
        proof {
            assert(has_key(self.map.pairs(), self.map.pairs()[i as int].0));
        }
        self.map.key_at(i)
    }

    /// Whether `k` is an element.
    pub fn has(&self, k: &K) -> (r: bool)
        ensures
            r == self@.contains(k.deep_view()),
    {
        self.map.has(k)
    }

    /// Adds `k`.
    pub fn add(&mut self, k: K)
        ensures
            final(self)@ == old(self)@.insert(k.deep_view()),
    {
        let ghost before = self@;
        self.map.put(k, true);
        proof {
            assert(self@ =~= before.insert(k.deep_view()));
        }
    }

    /// Removes `k`.
    pub fn discard(&mut self, k: &K)
        ensures
            final(self)@ == old(self)@.remove(k.deep_view()),
    {
        let ghost before = self@;
        self.map.take(k);
        proof {
            assert(self@ =~= before.remove(k.deep_view()));
        }
    }

    /// Every element is at some position.
    pub(crate) proof fn lemma_position(self, k: K::V)
        requires
            self@.contains(k),
        ensures
            exists|i: int| 0 <= i < self.items().len() && self.items()[i] == k,
    {
        assert(has_key(self.map.pairs(), k));
        let i = position_of(self.map.pairs(), k);
        assert(self.items()[i] == k);
    }

    /// The number of positions is the size of the set.
    pub(crate) proof fn lemma_len(self)
        requires
            self.map.wf(),
        ensures
            self@.finite(),
            self@.len() == self.items().len(),
    {
        self.map.lemma_pairs_ascending();
        let pairs = self.map.pairs();
        let items = self.items();
        assert(items.no_duplicates()) by {
            assert forall|i: int, j: int|
                0 <= i < items.len() && 0 <= j < items.len() && i != j implies items[i]
                != items[j] by {
                if items[i] == items[j] {
                    lemma_ascending_unique::<K, bool>(pairs, i, j);
                }
            }
        }
        items.unique_seq_to_set();
        assert(items.to_set() =~= self@) by {
            assert forall|k: K::V| items.to_set().contains(k) <==> self@.contains(k) by {
                if items.to_set().contains(k) {
                    let i = choose|i: int| 0 <= i < items.len() && items[i] == k;
                    assert(pairs[i].0 == k);
                    assert(has_key(pairs, k));
                }
                if self@.contains(k) {
                    self.lemma_position(k);
                    let i = choose|i: int| 0 <= i < items.len() && items[i] == k;
                    assert(items.contains(k));
                }
            }
        }
    }

    /// Adds all elements of `other`.
    pub fn extend(&mut self, other: &OrderedSet<K>)
        ensures
            final(self)@ == old(self)@.union(other@),
    {
        let mut i: usize = 0;
        while i < other.len()
            invariant
                i <= other.items().len(),
                forall|k: K::V|
                    self@.contains(k) <==> old(self)@.contains(k) || exists|j: int|
                        0 <= j < i && #[trigger] other.items()[j] == k,
            decreases other.items().len() - i,
        {
            let ghost before = self@;
            let k = other.at(i).duplicate();
            self.add(k);
            proof {
                assert forall|q: K::V|
                    self@.contains(q) <==> old(self)@.contains(q) || exists|j: int|
                        0 <= j < i + 1 && #[trigger] other.items()[j] == q by {
                    if q == k.deep_view() {
                        assert(other.items()[i as int] == q);
                    } else if exists|j: int| 0 <= j < i + 1 && #[trigger] other.items()[j] == q {
                        let j = choose|j: int| 0 <= j < i + 1 && #[trigger] other.items()[j] == q;
                        assert(j < i);
                        assert(before.contains(q));
                    }
                }
            }
            i += 1;
        }
        proof {
            assert forall|k: K::V| self@.contains(k) <==> old(self)@.union(other@).contains(k) by {
                if other@.contains(k) {
                    other.lemma_position(k);
                }
                if exists|j: int| 0 <= j < i && #[trigger] other.items()[j] == k {
                    let j = choose|j: int| 0 <= j < i && #[trigger] other.items()[j] == k;
                    assert(has_key(other.map.pairs(), other.map.pairs()[j].0));
                }
            }
            assert(self@ =~= old(self)@.union(other@));
        }
    }

    /// The elements that are also in `other`.
    pub fn intersection(&self, other: &OrderedSet<K>) -> (r: OrderedSet<K>)
        ensures
            r@ == self@.intersect(other@),
    {
        let mut out: OrderedSet<K> = OrderedSet::new();
        let mut i: usize = 0;
        while i < self.len()
            invariant
                i <= self.items().len(),
                forall|k: K::V|
                    out@.contains(k) <==> other@.contains(k) && exists|j: int|
                        0 <= j < i && #[trigger] self.items()[j] == k,
            decreases self.items().len() - i,
        {
            let ghost before = out@;
            let k = self.at(i);
            if other.has(k) {
                out.add(k.duplicate());
            }
            proof {
                assert forall|q: K::V|
                    out@.contains(q) <==> other@.contains(q) && exists|j: int|
                        0 <= j < i + 1 && #[trigger] self.items()[j] == q by {
                    if q == k.deep_view() {
                        assert(self.items()[i as int] == q);
                    } else if exists|j: int| 0 <= j < i + 1 && #[trigger] self.items()[j] == q {
                        let j = choose|j: int| 0 <= j < i + 1 && #[trigger] self.items()[j] == q;
                        assert(j < i);
                    }
                }
            }
            i += 1;
        }
        proof {
            assert forall|k: K::V| out@.contains(k) <==> self@.intersect(other@).contains(k) by {
                if self@.contains(k) {
                    self.lemma_position(k);
                }
                if exists|j: int| 0 <= j < i && #[trigger] self.items()[j] == k {
                    let j = choose|j: int| 0 <= j < i && #[trigger] self.items()[j] == k;
                    assert(has_key(self.map.pairs(), self.map.pairs()[j].0));
                }
            }
            assert(out@ =~= self@.intersect(other@));
        }
        out
    }
}

impl<K: Key> OrderedSet<K> {
    /// The elements in ascending order.
    pub fn to_vec(&self) -> (r: Vec<K>)
        ensures
            r.deep_view() == self.items(),
            lists::<K>(r.deep_view(), self@),
            forall|k: K::V| #[trigger] r.deep_view().contains(k) <==> self@.contains(k),
            forall|i: int, j: int|
                #![trigger r.deep_view()[i], r.deep_view()[j]]
                0 <= i < j < r.deep_view().len() ==> K::before(r.deep_view()[i], r.deep_view()[j]),
    {
        let mut out: Vec<K> = Vec::new();
        let mut i: usize = 0;
        while i < self.len()
            invariant
                i <= self.items().len(),
                out@.len() == i,
                forall|j: int| 0 <= j < i ==> (#[trigger] out@[j]).deep_view() == self.items()[j],
            decreases self.items().len() - i,
        {
            out.push(self.at(i).duplicate());
            i += 1;
        }
        proof {
            assert(out.deep_view() =~= self.items());
            use_type_invariant(&self.map);
            self.map.lemma_pairs_ascending();
            let pairs = self.map.pairs();
            assert forall|k: K::V| #[trigger]
                out.deep_view().contains(k) <==> self@.contains(k) by {
                if self@.contains(k) {
                    self.lemma_position(k);
                }
                if out.deep_view().contains(k) {
                    let j = choose|j: int| 0 <= j < self.items().len() && self.items()[j] == k;
                    assert(pairs[j].0 == k);
                    assert(has_key(pairs, k));
                }
            }
            assert forall|a: int, b: int|
                #![trigger out.deep_view()[a], out.deep_view()[b]]
                0 <= a < b < out.deep_view().len() implies K::before(
                out.deep_view()[a],
                out.deep_view()[b],
            ) by {
                assert(K::before(pairs[a].0, pairs[b].0));
            }
        }
        out
    }
}

impl<K: Key> DeepView for OrderedSet<K> {
    type V = Set<K::V>;

    open(crate) spec fn deep_view(&self) -> Set<K::V> {
        self@
    }
}

impl Duplicate for bool {
    fn duplicate(&self) -> (r: Self) {
        *self
    }
}

impl<K: Key> Duplicate for OrderedSet<K> {
    fn duplicate(&self) -> (r: Self) {
        let r = OrderedSet { map: self.map.duplicate() };
        proof {
            assert(r@ =~= self@);
        }
        r
    }
}

} // verus!
