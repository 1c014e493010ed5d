//! Bookkeeping of the neighbour graphs: which records each graph holds, under which ids, and
//! which of them are dead.
use vstd::prelude::*;
use crate::config::{
    IndexConfig, ANN_MIN_CANDIDATES, ANN_MIN_POINTS, ANN_OVERSAMPLE, ANN_SEARCH_MIN_POINTS,
};
use crate::order::{order_text, same_text, text_before, Duplicate, Key, Order};
use crate::ordered_map::{
    ascending, has_key, lemma_ascending_unique, lemma_insert_last, lemma_map_of_at, map_of,
    position_of, OrderedMap,
};
use crate::ordered_set::OrderedSet;
use crate::record::{KeyModel, Record, RecordKey, RecordModel};
use crate::snapshot::Records;

verus! {

/// The graph of a namespace, or of all namespaces, for a named vector.
pub type SlotKey = (Option<String>, String);

/// The mathematical value of a slot key.
pub type SlotId = (Option<Seq<char>>, Seq<char>);

impl Duplicate for (Option<String>, String) {
    fn duplicate(&self) -> (r: Self) {
        let scope = match &self.0 {
            Some(s) => Some(s.clone()),
            None => None,
        };
        (scope, self.1.clone())
    }
}

/// The order of slots: those of all namespaces first, then by namespace, then by vector name.
pub open spec fn slot_before(a: SlotId, b: SlotId) -> bool {
    match (a.0, b.0) {
        (None, None) => text_before(a.1, b.1),
        (None, Some(_)) => true,
        (Some(_), None) => false,
        (Some(x), Some(y)) => text_before(x, y) || (x == y && text_before(a.1, b.1)),
    }
}

impl Key for (Option<String>, String) {
    open spec fn before(a: SlotId, b: SlotId) -> bool {
        slot_before(a, b)
    }

    proof fn lemma_irreflexive(a: SlotId) {
        <String as Key>::lemma_irreflexive(a.1);
        if a.0 is Some {
            <String as Key>::lemma_irreflexive(a.0->Some_0);
        }
    }

    proof fn lemma_transitive(a: SlotId, b: SlotId, c: SlotId) {
        if text_before(a.1, b.1) && text_before(b.1, c.1) {
            <String as Key>::lemma_transitive(a.1, b.1, c.1);
        }
        if a.0 is Some && b.0 is Some && c.0 is Some {
            let (x, y, z) = (a.0->Some_0, b.0->Some_0, c.0->Some_0);
            if text_before(x, y) && text_before(y, z) {
                <String as Key>::lemma_transitive(x, y, z);
            }
        }
    }

    proof fn lemma_total(a: SlotId, b: SlotId) {
        <String as Key>::lemma_total(a.1, b.1);
        if a.0 is Some && b.0 is Some {
            <String as Key>::lemma_total(a.0->Some_0, b.0->Some_0);
        }
    }

    fn order(&self, other: &Self) -> (r: Order) {
        match (&self.0, &other.0) {
            (None, None) => order_text(self.1.as_str(), other.1.as_str()),
            (None, Some(_)) => Order::Less,
            (Some(_), None) => Order::Greater,
            (Some(x), Some(y)) => match order_text(x.as_str(), y.as_str()) {
                Order::Less => Order::Less,
                Order::Greater => Order::Greater,
                Order::Equal => order_text(self.1.as_str(), other.1.as_str()),
            },
        }
    }
}

/// What a graph holds: the key of each id, and the ids that are dead.
#[verifier::ext_equal]
pub struct SlotModel {
    pub keys: Seq<KeyModel>,
    pub dead: Set<usize>,
}

/// The last position of `k` in `keys`, or `-1`.
pub open spec fn last_position(keys: Seq<KeyModel>, k: KeyModel) -> int
    decreases keys.len(),
{
    if keys.len() == 0 {
        -1
    } else if keys.last() == k {
        keys.len() - 1
    } else {
        last_position(keys.drop_last(), k)
    }
}

pub proof fn lemma_last_position(keys: Seq<KeyModel>, k: KeyModel)
    ensures
        -1 <= last_position(keys, k) < keys.len(),
        keys.contains(k) <==> last_position(keys, k) >= 0,
        last_position(keys, k) >= 0 ==> keys[last_position(keys, k)] == k,
        forall|i: int| last_position(keys, k) < i < keys.len() ==> keys[i] != k,
    decreases keys.len(),
{
    if keys.len() > 0 {
        let t = keys.drop_last();
        lemma_last_position(t, k);
        if keys.last() != k {
            assert forall|i: int| last_position(keys, k) < i < keys.len() implies keys[i] != k by {
                if i < t.len() {
                    assert(t[i] == keys[i]);
                }
            }
            if keys.contains(k) {
                let i = choose|i: int| 0 <= i < keys.len() && keys[i] == k;
                assert(t[i] == k);
            }
            if t.contains(k) {
                let i = choose|i: int| 0 <= i < t.len() && t[i] == k;
                assert(keys[i] == k);
            }
        } else {
            assert(keys[keys.len() - 1] == k);
        }
    }
}

/// A graph of the given records, none of them dead.
pub open spec fn fresh_slot(keys: Seq<KeyModel>) -> SlotModel {
    SlotModel { keys, dead: Set::empty() }
}

/// A graph after appending records.
pub open spec fn appended_slot(s: SlotModel, keys: Seq<KeyModel>) -> SlotModel {
    SlotModel { keys: s.keys + keys, dead: s.dead }
}

/// A graph after declaring the latest entry of a key dead.
pub open spec fn buried_slot(s: SlotModel, k: KeyModel) -> SlotModel {
    if s.keys.contains(k) {
        SlotModel { keys: s.keys, dead: s.dead.insert(last_position(s.keys, k) as usize) }
    } else {
        s
    }
}

/// Whether the latest entry of a key is in the graph and not dead.
pub open spec fn alive(s: SlotModel, k: KeyModel) -> bool {
    s.keys.contains(k) && !s.dead.contains(last_position(s.keys, k) as usize)
}

/// The bookkeeping of a graph.
pub struct AnnIndex {
    pub(crate) keys: Vec<RecordKey>,
    pub(crate) key_to_origin: OrderedMap<(String, String), usize>,
    pub(crate) tombstones: OrderedSet<usize>,
}

impl DeepView for AnnIndex {
    type V = SlotModel;

    open(crate) spec fn deep_view(&self) -> SlotModel {
        SlotModel { keys: self.keys.deep_view(), dead: self.tombstones@ }
    }
}

impl AnnIndex {
    pub open(crate) spec fn view(&self) -> SlotModel {
        self.deep_view()
    }

    #[verifier::type_invariant]
    pub open(crate) spec fn wf(&self) -> bool {
        &&& forall|k: KeyModel| #[trigger]
            self.key_to_origin@.contains_key(k) <==> self.keys.deep_view().contains(k)
        &&& forall|k: KeyModel| #[trigger]
            self.key_to_origin@.contains_key(k) ==> self.key_to_origin@[k] == last_position(
                self.keys.deep_view(),
                k,
            )
        &&& forall|d: usize| #[trigger] self.tombstones@.contains(d) ==> d < self.keys@.len()
    }

    /// A graph without entries.
    pub fn new() -> (r: Self)
        ensures
            r@ == fresh_slot(Seq::empty()),
    {
        let keys: Vec<RecordKey> = Vec::new();
        proof {
            assert(keys.deep_view() =~= Seq::<KeyModel>::empty());
        }
        AnnIndex { keys, key_to_origin: OrderedMap::new(), tombstones: OrderedSet::new() }
    }

    /// The graph with a record more, under the next id.
    pub fn with(self, key: RecordKey) -> (r: Self)
        ensures
            r@ == appended_slot(self@, seq![key.deep_view()]),
    {
        proof {
            use_type_invariant(&self);
        }
        let ghost before = self@.keys;
        let ghost origins = self.key_to_origin@;
        let ghost k = key.deep_view();
        let mut keys = self.keys;
        let mut key_to_origin = self.key_to_origin;
        let tombstones = self.tombstones;
        let origin: usize = keys.len();
        key_to_origin.put(key.duplicate(), origin);
        keys.push(key);
        proof {
            let after = keys.deep_view();
            assert(after =~= before + seq![k]);
            assert(after.drop_last() =~= before);
            assert forall|q: KeyModel| #[trigger]
                key_to_origin@.contains_key(q) <==> after.contains(q) by {
                if q == k {
                    assert(after[origin as int] == k);
                } else {
                    if before.contains(q) {
                        let i = choose|i: int| 0 <= i < before.len() && before[i] == q;
                        assert(after[i] == q);
                    }
                    if after.contains(q) {
                        let i = choose|i: int| 0 <= i < after.len() && after[i] == q;
                        assert(before[i] == q);
                    }
                    assert(key_to_origin@.contains_key(q) == origins.contains_key(q));
                }
            }
            assert forall|q: KeyModel| #[trigger]
                key_to_origin@.contains_key(q) implies key_to_origin@[q] == last_position(
                after,
                q,
            ) by {
                if q != k {
                    assert(origins.contains_key(q));
                }
            }
        }
        AnnIndex { keys, key_to_origin, tombstones }
    }

    /// The graph with records more, under the next ids.
    pub fn extended(self, keys: &Vec<RecordKey>) -> (r: Self)
        ensures
            r@ == appended_slot(self@, keys.deep_view()),
    {
        let ghost all = keys.deep_view();
        let ghost start = self@;
        let mut out = self;
        let mut i: usize = 0;
        proof {
            assert(appended_slot(start, all.take(0)).keys =~= start.keys);
        }
        while i < keys.len()
            invariant
                i <= keys@.len(),
                all == keys.deep_view(),
                out@ == appended_slot(start, all.take(i as int)),
            decreases keys@.len() - i,
        {
            out = out.with(keys[i].duplicate());
            proof {
                assert(all[i as int] == keys@[i as int].deep_view());
                assert(start.keys + all.take(i as int) + seq![all[i as int]] =~= start.keys
                    + all.take(i + 1));
            }
            i += 1;
        }
        proof {
            assert(all.take(i as int) =~= all);
        }
        out
    }

    /// A graph of the given records.
    pub fn build(keys: &Vec<RecordKey>) -> (r: Self)
        ensures
            r@ == fresh_slot(keys.deep_view()),
    {
        let r = AnnIndex::new().extended(keys);
        proof {
            assert(r@.keys =~= keys.deep_view());
        }
        r
    }

    /// The graph with the latest entry of a key dead.
    pub fn buried(self, key: &RecordKey) -> (r: Self)
        ensures
            r@ == buried_slot(self@, key.deep_view()),
    {
        proof {
            use_type_invariant(&self);
            lemma_last_position(self@.keys, key.deep_view());
        }
        let keys = self.keys;
        let key_to_origin = self.key_to_origin;
        let mut tombstones = self.tombstones;
        match key_to_origin.lookup(key) {
            Some(origin) => {
                let o: usize = *origin;
                tombstones.add(o);
            },
            None => {},
        }
        AnnIndex { keys, key_to_origin, tombstones }
    }

    /// The number of entries that are not dead.
    pub fn live_count(&self) -> (r: usize)
        ensures
            r == self@.keys.len() - self@.dead.len(),
    {
        proof {
            use_type_invariant(self);
            use_type_invariant(&self.tombstones.map);
            self.tombstones.lemma_len();
            lemma_bounded_set(self@.dead, self@.keys.len());
        }
        self.keys.len() - self.tombstones.len()
    }

    /// Whether the percentage of dead entries has reached the threshold.
    pub fn should_rebuild(&self, threshold_pct: u8) -> (r: bool)
        requires
            self@.dead.len() * 100 <= usize::MAX,
        ensures
            r == (self@.keys.len() > 0 && (self@.dead.len() * 100) / self@.keys.len()
                >= threshold_pct),
    {
        if self.keys.len() == 0 {
            return false;
        }
        let pct: usize = (self.tombstones.len() * 100) / self.keys.len();
        pct >= threshold_pct as usize
    }

    /// The keys of the neighbours that a graph search found: those that are not dead, in their
    /// order, at most `limit` of them.
    pub fn resolve(&self, neighbours: &Vec<usize>, limit: usize) -> (r: Vec<RecordKey>)
        ensures
            r.deep_view() == resolved(self@, neighbours@, limit as nat),
    {
        let mut out: Vec<RecordKey> = Vec::new();
        let mut i: usize = 0;
        let ghost slot = self@;
        let ghost live = |d: usize| d < slot.keys.len() && !slot.dead.contains(d);
        proof {
            reveal(Seq::filter);
            assert(neighbours@.take(0).filter(live) =~= Seq::empty());
            assert(out.deep_view() =~= Seq::new(
                neighbours@.take(0).filter(live).len(),
                |j: int| slot.keys[neighbours@.take(0).filter(live)[j] as int],
            ));
        }
        while i < neighbours.len() && out.len() < limit
            invariant
                i <= neighbours@.len(),
                slot == self@,
                out@.len() <= limit,
                live == (|d: usize| d < slot.keys.len() && !slot.dead.contains(d)),
                out.deep_view() == Seq::new(
                    neighbours@.take(i as int).filter(live).len(),
                    |j: int| slot.keys[neighbours@.take(i as int).filter(live)[j] as int],
                ),
            decreases neighbours@.len() - i,
        {
            let d: usize = neighbours[i];
            let ghost seen = neighbours@.take(i as int);
            let ghost before = out.deep_view();
            proof {
                assert(neighbours@.take(i + 1) =~= seen.push(d));
                crate::table::lemma_filter_push(seen, d, live);
            }
            if !self.tombstones.has(&d) && d < self.keys.len() {
                out.push(self.keys[d].duplicate());
                proof {
                    assert(out.deep_view() =~= before.push(slot.keys[d as int]));
                    let f = neighbours@.take(i + 1).filter(live);
                    assert(out.deep_view() =~= Seq::new(f.len(), |j: int| slot.keys[f[j] as int]));
                }
            }
            i += 1;
        }
        proof {
            let seen = neighbours@.take(i as int);
            let rest = neighbours@.skip(i as int);
            assert(neighbours@ =~= seen + rest);
            Seq::filter_distributes_over_add(seen, rest, live);
            let all = neighbours@.filter(live);
            if i == neighbours.len() {
                assert(seen =~= neighbours@);
            }
            assert(out.deep_view() =~= resolved(slot, neighbours@, limit as nat));
        }
        out
    }
}

/// The keys of the neighbours that are in the graph and not dead, at most `limit` of them.
pub open spec fn resolved(slot: SlotModel, neighbours: Seq<usize>, limit: nat) -> Seq<KeyModel> {
    let live = neighbours.filter(|d: usize| d < slot.keys.len() && !slot.dead.contains(d));
    let n = if live.len() < limit {
        live.len()
    } else {
        limit
    };
    Seq::new(n, |i: int| slot.keys[live[i] as int])
}

/// There are `n` sizes below `n`.
pub(crate) proof fn lemma_range_set(n: nat)
    requires
        n <= usize::MAX,
    ensures
        Set::new(|u: usize| u < n).finite(),
        Set::new(|u: usize| u < n).len() == n,
    decreases n,
{
    let full = Set::new(|u: usize| u < n);
    if n == 0 {
        assert(full =~= Set::empty());
    } else {
        let less = Set::new(|u: usize| u < n - 1);
        lemma_range_set((n - 1) as nat);
        assert(less =~= Set::new(|u: usize| u < (n - 1) as nat));
        assert(full =~= less.insert((n - 1) as usize));
    }
}

proof fn lemma_bounded_set(s: Set<usize>, n: nat)
    requires
        s.finite(),
        forall|d: usize| #[trigger] s.contains(d) ==> d < n,
    ensures
        s.len() <= n,
    decreases n,
{
    if n == 0 {
        assert(s =~= Set::empty());
    } else {
        if n - 1 <= usize::MAX && s.contains((n - 1) as usize) {
            let t = s.remove((n - 1) as usize);
            assert forall|d: usize| #[trigger] t.contains(d) implies d < n - 1 by {
                assert(s.contains(d));
            }
            lemma_bounded_set(t, (n - 1) as nat);
        } else {
            assert forall|d: usize| #[trigger] s.contains(d) implies d < n - 1 by {}
            lemma_bounded_set(s, (n - 1) as nat);
        }
    }
}

/// Whether a record belongs to a slot: it is in the slot's namespace, where the slot has one, and
/// has the slot's vector. The main vector has the empty name.
pub open spec fn in_slot(k: KeyModel, m: RecordModel, s: SlotId) -> bool {
    &&& match s.0 {
        Some(ns) => k.0 == ns,
        None => true,
    }
    &&& s.1.len() == 0 || has_key(m.vectors, s.1)
}

/// The keys of rows.
pub open spec fn row_keys(rows: Seq<(KeyModel, RecordModel)>) -> Seq<KeyModel> {
    Seq::new(rows.len(), |i: int| rows[i].0)
}

/// The keys of the records that belong to a slot, in key order.
pub open spec fn members(rows: Seq<(KeyModel, RecordModel)>, s: SlotId) -> Seq<KeyModel> {
    row_keys(rows.filter(|p: (KeyModel, RecordModel)| in_slot(p.0, p.1, s)))
}

/// Lists of keys by slot.
pub type Groups = OrderedMap<(Option<String>, String), Vec<(String, String)>>;

/// The list of a slot; empty where there is none.
pub open spec fn group_of(groups: Map<SlotId, Seq<KeyModel>>, s: SlotId) -> Seq<KeyModel> {
    if groups.contains_key(s) {
        groups[s]
    } else {
        Seq::empty()
    }
}

/// Whether no list is empty.
pub open spec fn no_empty(groups: Map<SlotId, Seq<KeyModel>>) -> bool {
    forall|s: SlotId| #[trigger] groups.contains_key(s) ==> groups[s].len() > 0
}

fn push_group(groups: &mut Groups, slot: SlotKey, key: &RecordKey)
    requires
        no_empty(old(groups)@),
    ensures
        no_empty(final(groups)@),
        forall|s: SlotId| #[trigger]
            group_of(final(groups)@, s) == if s == slot.deep_view() {
                group_of(old(groups)@, s).push(key.deep_view())
            } else {
                group_of(old(groups)@, s)
            },
{
    let mut list: Vec<RecordKey> = match groups.take(&slot) {
        Some(l) => l,
        None => Vec::new(),
    };
    let ghost before = list.deep_view();
    proof {
        assert(before =~= group_of(old(groups)@, slot.deep_view()));
    }
    list.push(key.duplicate());
    proof {
        assert(list.deep_view() =~= before.push(key.deep_view()));
    }
    groups.put(slot, list);
}

/// Whether `name` is empty or among the first `n` names of `vectors`.
spec fn named_within(vectors: Seq<(Seq<char>, Seq<u32>)>, n: int, name: Seq<char>) -> bool {
    name.len() == 0 || exists|i: int| 0 <= i < n && (#[trigger] vectors[i]).0 == name
}

/// Adds the key of a record to the list of every slot that the record belongs to.
fn add_to_groups(groups: &mut Groups, key: &RecordKey, record: &Record)
    requires
        no_empty(old(groups)@),
        forall|i: int|
            0 <= i < record@.vectors.len() ==> (#[trigger] record@.vectors[i]).0.len() > 0,
    ensures
        no_empty(final(groups)@),
        forall|s: SlotId| #[trigger]
            group_of(final(groups)@, s) == if in_slot(key.deep_view(), record@, s) {
                group_of(old(groups)@, s).push(key.deep_view())
            } else {
                group_of(old(groups)@, s)
            },
{
    let ghost k = key.deep_view();
    let ghost vectors = record@.vectors;
    proof {
        use_type_invariant(&record.vectors);
        record.vectors.lemma_pairs_ascending();
    }
    push_group(groups, (None, String::new()), key);
    push_group(groups, (Some(key.0.clone()), String::new()), key);
    let mut i: usize = 0;
    proof {
        assert forall|s: SlotId| #[trigger]
            group_of(groups@, s) == if in_scope(k, s) && named_within(vectors, 0, s.1) {
                group_of(old(groups)@, s).push(k)
            } else {
                group_of(old(groups)@, s)
            } by {
            if s.1.len() == 0 {
                assert(s.1 =~= Seq::empty());
            }
        }
    }
    while i < record.vectors.len()
        invariant
            i <= vectors.len(),
            vectors == record.vectors.pairs(),
            k == key.deep_view(),
            ascending::<String, Seq<u32>>(vectors),
            no_empty(groups@),
            forall|j: int| 0 <= j < vectors.len() ==> (#[trigger] vectors[j]).0.len() > 0,
            forall|s: SlotId| #[trigger]
                group_of(groups@, s) == if in_scope(k, s) && named_within(
                    vectors,
                    i as int,
                    s.1,
                ) {
                    group_of(old(groups)@, s).push(k)
                } else {
                    group_of(old(groups)@, s)
                },
        decreases vectors.len() - i,
    {
        let name = record.vectors.key_at(i).clone();
        let ghost start = groups@;
        push_group(groups, (None, name.clone()), key);
        push_group(groups, (Some(key.0.clone()), name), key);
        proof {
            assert(vectors[i as int].0 == name@);
            assert forall|s: SlotId| #[trigger]
                group_of(groups@, s) == if in_scope(k, s) && named_within(vectors, i + 1, s.1) {
                    group_of(old(groups)@, s).push(k)
                } else {
                    group_of(old(groups)@, s)
                } by {
                let was = named_within(vectors, i as int, s.1);
                let now = named_within(vectors, i + 1, s.1);
                if s.1 == name@ {
                    assert(!was) by {
                        if exists|j: int| 0 <= j < i && (#[trigger] vectors[j]).0 == s.1 {
                            let j = choose|j: int| 0 <= j < i && (#[trigger] vectors[j]).0 == s.1;
                            crate::ordered_map::lemma_ascending_unique::<String, Seq<u32>>(
                                vectors,
                                j,
                                i as int,
                            );
                        }
                    }
                    assert(now);
                } else {
                    assert(was == now) by {
                        if exists|j: int| 0 <= j < i + 1 && (#[trigger] vectors[j]).0 == s.1 {
                            let j = choose|j: int|
                                0 <= j < i + 1 && (#[trigger] vectors[j]).0 == s.1;
                            assert(j < i);
                        }
                        if exists|j: int| 0 <= j < i && (#[trigger] vectors[j]).0 == s.1 {
                            let j = choose|j: int| 0 <= j < i && (#[trigger] vectors[j]).0 == s.1;
                            assert(0 <= j < i + 1 && vectors[j].0 == s.1);
                        }
                    }
                }
                assert(group_of(start, s) == group_of(start, s));
            }
        }
        i += 1;
    }
    proof {
        assert forall|s: SlotId| #[trigger]
            group_of(groups@, s) == if in_slot(k, record@, s) {
                group_of(old(groups)@, s).push(k)
            } else {
                group_of(old(groups)@, s)
            } by {
            if s.1.len() > 0 {
                assert(has_key(vectors, s.1) == named_within(vectors, vectors.len() as int, s.1));
            }
        }
    }
}

/// Whether a key is in the namespace of a slot.
spec fn in_scope(k: KeyModel, s: SlotId) -> bool {
    match s.0 {
        Some(ns) => k.0 == ns,
        None => true,
    }
}

/// Whether every row is at its key and no named vector has an empty name.
pub open spec fn rows_named(rows: Seq<(KeyModel, RecordModel)>) -> bool {
    forall|i: int|
        0 <= i < rows.len() ==> names_valid((#[trigger] rows[i]).1)
}

/// Whether no named vector of a record has an empty name.
pub open spec fn names_valid(m: RecordModel) -> bool {
    forall|i: int| 0 <= i < m.vectors.len() ==> (#[trigger] m.vectors[i]).0.len() > 0
}

/// The members of every slot.
pub(crate) fn group_rows(records: &Records) -> (r: Groups)
    requires
        rows_named(records.pairs()),
    ensures
        no_empty(r@),
        forall|s: SlotId| #[trigger] group_of(r@, s) == members(records.pairs(), s),
{
    let mut groups: Groups = OrderedMap::new();
    let ghost rows = records.pairs();
    let mut i: usize = 0;
    proof {
        reveal(Seq::filter);
        assert forall|s: SlotId| #[trigger] group_of(groups@, s) == members(rows.take(0), s) by {
            assert(members(rows.take(0), s) =~= Seq::empty());
        }
    }
    while i < records.len()
        invariant
            i <= rows.len(),
            rows == records.pairs(),
            rows_named(rows),
            no_empty(groups@),
            forall|s: SlotId| #[trigger]
                group_of(groups@, s) == members(rows.take(i as int), s),
        decreases rows.len() - i,
    {
        let ghost start = groups@;
        let record = records.value_at(i);
        proof {
            assert(names_valid(rows[i as int].1));
        }
        add_to_groups(&mut groups, records.key_at(i), record);
        proof {
            let seen = rows.take(i as int);
            let row = rows[i as int];
            assert(rows.take(i + 1) =~= seen.push(row));
            assert forall|s: SlotId| #[trigger]
                group_of(groups@, s) == members(rows.take(i + 1), s) by {
                let pred = |p: (KeyModel, RecordModel)| in_slot(p.0, p.1, s);
                crate::table::lemma_filter_push(seen, row, pred);
                assert(group_of(start, s) == members(seen, s));
                if in_slot(row.0, row.1, s) {
                    assert(row_keys(seen.filter(pred).push(row)) =~= row_keys(
                        seen.filter(pred),
                    ).push(row.0));
                }
            }
        }
        i += 1;
    }
    proof {
        assert(rows.take(i as int) =~= rows);
    }
    groups
}

/// What has to be done to the graphs themselves.
pub enum GraphAction {
    /// Drop every graph.
    Clear,
    /// Build the graph of a slot from the vectors of `keys`, the first under the id zero.
    Build {
        namespace: Option<String>,
        vector_name: String,
        keys: Vec<(String, String)>,
        parallel: bool,
    },
    /// Append the vectors of `keys` to the graph of a slot, the first under the id `first_id`.
    Append {
        namespace: Option<String>,
        vector_name: String,
        first_id: usize,
        keys: Vec<(String, String)>,
        parallel: bool,
    },
}

/// The mathematical value of an action on the graphs.
pub enum ActionModel {
    Clear,
    Build { slot: SlotId, keys: Seq<KeyModel>, parallel: bool },
    Append { slot: SlotId, first_id: nat, keys: Seq<KeyModel>, parallel: bool },
}

impl DeepView for GraphAction {
    type V = ActionModel;

    open spec fn deep_view(&self) -> ActionModel {
        match *self {
            GraphAction::Clear => ActionModel::Clear,
            GraphAction::Build { namespace, vector_name, keys, parallel } => ActionModel::Build {
                slot: (namespace.deep_view(), vector_name@),
                keys: keys.deep_view(),
                parallel,
            },
            GraphAction::Append { namespace, vector_name, first_id, keys, parallel } => {
                ActionModel::Append {
                    slot: (namespace.deep_view(), vector_name@),
                    first_id: first_id as nat,
                    keys: keys.deep_view(),
                    parallel,
                }
            },
        }
    }
}

/// The graphs of a database: by slot, what each graph holds.
pub type Catalog = Map<SlotId, SlotModel>;

/// The graphs after a rebuild: one for every slot with enough members.
pub open spec fn rebuilt(rows: Seq<(KeyModel, RecordModel)>) -> Catalog {
    Map::new(
        |s: SlotId| members(rows, s).len() >= ANN_MIN_POINTS,
        |s: SlotId| fresh_slot(members(rows, s)),
    )
}

/// The new keys, in their order, that are records of a slot.
pub open spec fn new_items(
    records: Map<KeyModel, RecordModel>,
    new_keys: Seq<KeyModel>,
    s: SlotId,
) -> Seq<KeyModel> {
    new_keys.filter(|k: KeyModel| records.contains_key(k) && in_slot(k, records[k], s))
}

/// The graphs after taking in new records: a graph that is there gets its new items, and a slot
/// that now has enough members gets a graph of all of them.
pub open spec fn incremented(
    catalog: Catalog,
    rows: Seq<(KeyModel, RecordModel)>,
    new_keys: Seq<KeyModel>,
) -> Catalog {
    Map::new(
        |s: SlotId|
            catalog.contains_key(s) || (new_items(map_of(rows), new_keys, s).len() > 0 && members(
                rows,
                s,
            ).len() >= ANN_MIN_POINTS),
        |s: SlotId|
            if catalog.contains_key(s) {
                appended_slot(catalog[s], new_items(map_of(rows), new_keys, s))
            } else {
                fresh_slot(members(rows, s))
            },
    )
}

/// A graph after declaring the latest entries of keys dead.
pub open spec fn buried_all(s: SlotModel, keys: Seq<KeyModel>) -> SlotModel
    decreases keys.len(),
{
    if keys.len() == 0 {
        s
    } else {
        buried_slot(buried_all(s, keys.drop_last()), keys.last())
    }
}

/// The graphs after declaring the latest entries of keys dead.
pub open spec fn tombstoned(catalog: Catalog, keys: Seq<KeyModel>) -> Catalog {
    catalog.map_values(|s: SlotModel| buried_all(s, keys))
}

/// The keys of the records that belong to a slot.
fn members_of(records: &Records, slot: &SlotKey) -> (r: Vec<RecordKey>)
    ensures
        r.deep_view() == members(records.pairs(), slot.deep_view()),
{
    let mut out: Vec<RecordKey> = Vec::new();
    let ghost rows = records.pairs();
    let ghost s = slot.deep_view();
    let ghost pred = |p: (KeyModel, RecordModel)| in_slot(p.0, p.1, s);
    let mut i: usize = 0;
    proof {
        reveal(Seq::filter);
        assert(rows.take(0).filter(pred) =~= Seq::empty());
        assert(out.deep_view() =~= row_keys(rows.take(0).filter(pred)));
    }
    while i < records.len()
        invariant
            i <= rows.len(),
            rows == records.pairs(),
            s == slot.deep_view(),
            pred == (|p: (KeyModel, RecordModel)| in_slot(p.0, p.1, s)),
            out.deep_view() == row_keys(rows.take(i as int).filter(pred)),
        decreases rows.len() - i,
    {
        let key = records.key_at(i);
        let record = records.value_at(i);
        let in_namespace: bool = match &slot.0 {
            Some(ns) => same_text(key.0.as_str(), ns.as_str()),
            None => true,
        };
        let has_vector: bool = slot.1.as_str().is_empty() || record.vectors.contains_key(
            slot.1.as_str(),
        );
        let ghost before = out.deep_view();
        let ghost seen = rows.take(i as int);
        proof {
            assert(rows.take(i + 1) =~= seen.push(rows[i as int]));
            crate::table::lemma_filter_push(seen, rows[i as int], pred);
        }
        if in_namespace && has_vector {
            out.push(key.duplicate());
            proof {
                assert(out.deep_view() =~= before.push(rows[i as int].0));
                assert(row_keys(seen.filter(pred).push(rows[i as int])) =~= row_keys(
                    seen.filter(pred),
                ).push(rows[i as int].0));
            }
        }
        i += 1;
    }
    proof {
        assert(rows.take(i as int) =~= rows);
    }
    out
}

/// The bookkeeping of all graphs.
pub struct AnnCatalog {
    pub(crate) slots: OrderedMap<(Option<String>, String), AnnIndex>,
}

impl AnnCatalog {
    pub open(crate) spec fn view(&self) -> Catalog {
        self.slots@
    }

    /// The graphs in slot order.
    pub open(crate) spec fn entries(&self) -> Seq<(SlotId, SlotModel)> {
        self.slots.pairs()
    }

    /// No graphs.
    pub fn new() -> (r: Self)
        ensures
            r@ == Catalog::empty(),
            r.entries() == Seq::<(SlotId, SlotModel)>::empty(),
    {
        AnnCatalog { slots: OrderedMap::new() }
    }

    /// The bookkeeping of a slot's graph.
    pub fn slot(&self, namespace: Option<&str>, vector_name: &str) -> (r: Option<&AnnIndex>)
        ensures
            ({
                let s = (crate::payload_index::opt_text(namespace), vector_name@);
                &&& r is Some == self@.contains_key(s)
                &&& r matches Some(x) ==> x@ == self@[s]
            }),
    {
        let scope: Option<String> = match namespace {
            Some(ns) => Some(ns.to_owned()),
            None => None,
        };
        let key = (scope, vector_name.to_owned());
        self.slots.lookup(&key)
    }

    /// Whether a slot has a graph. No name stands for the main vector.
    pub fn has_ann_index(&self, namespace: Option<&str>, vector_name: Option<&str>) -> (r: bool)
        ensures
            r == self@.contains_key(
                (
                    crate::payload_index::opt_text(namespace),
                    match vector_name {
                        Some(n) => n@,
                        None => Seq::empty(),
                    },
                ),
            ),
    {
        match vector_name {
            Some(name) => self.slot(namespace, name).is_some(),
            None => {
                proof {
                    reveal_strlit("");
                    assert(""@ =~= Seq::empty());
                }
                self.slot(namespace, "").is_some()
            },
        }
    }

    /// Rebuilds all graphs from the records.
    pub fn rebuild_ann(&mut self, records: &Records, config: &IndexConfig) -> (r: Vec<GraphAction>)
        requires
            rows_named(records.pairs()),
        ensures
            final(self)@ == rebuilt(records.pairs()),
            r@.len() == final(self).entries().len() + 1,
            r@[0].deep_view() == ActionModel::Clear,
            forall|i: int|
                0 <= i < final(self).entries().len() ==> (#[trigger] r@[i + 1]).deep_view() == (
                ActionModel::Build {
                    slot: final(self).entries()[i].0,
                    keys: final(self).entries()[i].1.keys,
                    parallel: final(self).entries()[i].1.keys.len()
                        >= config.parallel_insert_threshold,
                }),
    {
        let groups = group_rows(records);
        let ghost gp = groups.pairs();
        let ghost rows = records.pairs();
        proof {
            use_type_invariant(&groups);
            groups.lemma_pairs_ascending();
        }
        let mut slots: OrderedMap<(Option<String>, String), AnnIndex> = OrderedMap::new();
        let mut actions: Vec<GraphAction> = Vec::new();
        actions.push(GraphAction::Clear);
        let mut i: usize = 0;
        while i < groups.len()
            invariant
                i <= gp.len(),
                gp == groups.pairs(),
                ascending::<(Option<String>, String), Seq<KeyModel>>(gp),
                actions@.len() == slots.pairs().len() + 1,
                actions@[0].deep_view() == ActionModel::Clear,
                forall|j: int|
                    0 <= j < slots.pairs().len() ==> (#[trigger] actions@[j + 1]).deep_view() == (
                    ActionModel::Build {
                        slot: slots.pairs()[j].0,
                        keys: slots.pairs()[j].1.keys,
                        parallel: slots.pairs()[j].1.keys.len() >= config.parallel_insert_threshold,
                    }),
                forall|j: int|
                    0 <= j < slots.pairs().len() ==> exists|q: int|
                        0 <= q < i && (#[trigger] gp[q]).0 == (#[trigger] slots.pairs()[j]).0,
                forall|s: SlotId| #[trigger]
                    slots@.contains_key(s) <==> exists|q: int|
                        0 <= q < i && (#[trigger] gp[q]).0 == s && gp[q].1.len() >= ANN_MIN_POINTS,
                forall|q: int|
                    0 <= q < i && (#[trigger] gp[q]).1.len() >= ANN_MIN_POINTS ==> slots@[gp[q].0]
                        == fresh_slot(gp[q].1),
            decreases gp.len() - i,
        {
            let list = groups.value_at(i);
            let slot = groups.key_at(i);
            let ghost before = slots;
            let ghost id = slot.deep_view();
            if list.len() >= ANN_MIN_POINTS {
                let index = AnnIndex::build(list);
                let copy = slot.duplicate();
                actions.push(
                    GraphAction::Build {
                        namespace: copy.0,
                        vector_name: copy.1,
                        keys: list.duplicate(),
                        parallel: list.len() >= config.parallel_insert_threshold,
                    },
                );
                proof {
                    assert forall|j: int| 0 <= j < before.pairs().len() implies <(
                        Option<String>,
                        String,
                    ) as Key>::before((#[trigger] before.pairs()[j]).0, id) by {
                        let q = choose|q: int|
                            0 <= q < i && (#[trigger] gp[q]).0 == before.pairs()[j].0;
                        assert(<(Option<String>, String) as Key>::before(gp[q].0, gp[i as int].0));
                    }
                    lemma_insert_last::<(Option<String>, String), SlotModel>(
                        before.pairs(),
                        id,
                        index@,
                    );
                }
                slots.put(slot.duplicate(), index);
            }
            proof {
                assert(gp[i as int] == (id, list.deep_view()));
                assert forall|j: int| 0 <= j < slots.pairs().len() implies exists|q: int|
                    0 <= q < i + 1 && (#[trigger] gp[q]).0 == (#[trigger] slots.pairs()[j]).0 by {
                    if j < before.pairs().len() {
                        let q = choose|q: int|
                            0 <= q < i && (#[trigger] gp[q]).0 == before.pairs()[j].0;
                        assert(0 <= q < i + 1 && gp[q].0 == slots.pairs()[j].0);
                    } else {
                        assert(gp[i as int].0 == slots.pairs()[j].0);
                    }
                }
                assert forall|s: SlotId| #[trigger]
                    slots@.contains_key(s) <==> exists|q: int|
                        0 <= q < i + 1 && (#[trigger] gp[q]).0 == s && gp[q].1.len()
                            >= ANN_MIN_POINTS by {
                    if before@.contains_key(s) {
                        let q = choose|q: int|
                            0 <= q < i && (#[trigger] gp[q]).0 == s && gp[q].1.len()
                                >= ANN_MIN_POINTS;
                        assert(0 <= q < i + 1 && gp[q].0 == s);
                    }
                    if s == id && list@.len() >= ANN_MIN_POINTS {
                        assert(gp[i as int].0 == s);
                    }
                }
                assert forall|q: int|
                    0 <= q < i + 1 && (#[trigger] gp[q]).1.len()
                        >= ANN_MIN_POINTS implies slots@[gp[q].0] == fresh_slot(gp[q].1) by {
                    if q < i {
                        if gp[q].0 == id {
                            lemma_ascending_unique::<(Option<String>, String), Seq<KeyModel>>(
                                gp,
                                q,
                                i as int,
                            );
                        }
                        assert(before@.contains_key(gp[q].0));
                    }
                }
            }
            i += 1;
        }
        proof {
            assert forall|s: SlotId|
                slots@.contains_key(s) == (members(rows, s).len() >= ANN_MIN_POINTS) by {
                assert(group_of(groups@, s) == members(rows, s));
                if slots@.contains_key(s) {
                    let q = choose|q: int|
                        0 <= q < i && (#[trigger] gp[q]).0 == s && gp[q].1.len() >= ANN_MIN_POINTS;
                    lemma_map_of_at::<(Option<String>, String), Seq<KeyModel>>(gp, q);
                }
                if members(rows, s).len() >= ANN_MIN_POINTS {
                    assert(groups@.contains_key(s));
                    assert(has_key(gp, s));
                    let q = position_of(gp, s);
                    lemma_map_of_at::<(Option<String>, String), Seq<KeyModel>>(gp, q);
                    assert(gp[q].0 == s);
                }
            }
            assert forall|s: SlotId| slots@.contains_key(s) implies slots@[s] == fresh_slot(
                members(rows, s),
            ) by {
                assert(group_of(groups@, s) == members(rows, s));
                let q = choose|q: int|
                    0 <= q < i && (#[trigger] gp[q]).0 == s && gp[q].1.len() >= ANN_MIN_POINTS;
                lemma_map_of_at::<(Option<String>, String), Seq<KeyModel>>(gp, q);
            }
            assert(slots@ =~= rebuilt(rows));
        }
        self.slots = slots;
        actions
    }

    /// Declares the latest entries of deleted keys dead in every graph.
    pub fn ann_apply_tombstones(&mut self, keys: &Vec<RecordKey>)
        ensures
            final(self)@ == tombstoned(old(self)@, keys.deep_view()),
    {
        let ghost before = self.slots.pairs();
        let ghost dead = keys.deep_view();
        proof {
            use_type_invariant(&self.slots);
            self.slots.lemma_pairs_ascending();
        }
        let mut i: usize = 0;
        while i < self.slots.len()
            invariant
                i <= before.len(),
                self.slots.pairs().len() == before.len(),
                dead == keys.deep_view(),
                forall|j: int|
                    0 <= j < before.len() ==> (#[trigger] self.slots.pairs()[j]).0 == before[j].0,
                forall|j: int|
                    0 <= j < i ==> (#[trigger] self.slots.pairs()[j]).1 == buried_all(
                        before[j].1,
                        dead,
                    ),
                forall|j: int|
                    i <= j < before.len() ==> (#[trigger] self.slots.pairs()[j]).1 == before[j].1,
            decreases before.len() - i,
        {
            let ghost start = self.slots.pairs();
            let mut index = self.slots.exchange(i, AnnIndex::new());
            proof {
                assert(index@ == start[i as int].1);
                assert(dead.take(0) =~= Seq::empty());
            }
            let ghost first = index@;
            let mut j: usize = 0;
            while j < keys.len()
                invariant
                    j <= keys@.len(),
                    dead == keys.deep_view(),
                    index@ == buried_all(first, dead.take(j as int)),
                decreases keys@.len() - j,
            {
                proof {
                    assert(dead.take(j + 1).drop_last() =~= dead.take(j as int));
                    assert(dead.take(j + 1).last() == keys@[j as int].deep_view());
                }
                index = index.buried(&keys[j]);
                j += 1;
            }
            proof {
                assert(dead.take(j as int) =~= dead);
            }
            self.slots.exchange(i, index);
            proof {
                assert(self.slots.pairs() =~= start.update(i as int, (start[i as int].0, index@)));
            }
            i += 1;
        }
        proof {
            use_type_invariant(&self.slots);
            self.slots.lemma_pairs_ascending();
            let after = self.slots.pairs();
            let want = tombstoned(map_of(before), dead);
            assert forall|s: SlotId| map_of(after).contains_key(s) == want.contains_key(s) by {
                if has_key(after, s) {
                    let p = position_of(after, s);
                    assert(before[p].0 == s);
                }
                if has_key(before, s) {
                    let p = position_of(before, s);
                    assert(after[p].0 == s);
                }
            }
            assert forall|s: SlotId| map_of(after).contains_key(s) implies map_of(after)[s]
                == want[s] by {
                let p = position_of(after, s);
                lemma_map_of_at::<(Option<String>, String), SlotModel>(after, p);
                assert(before[p].0 == s);
                lemma_map_of_at::<(Option<String>, String), SlotModel>(before, p);
            }
            assert(map_of(after) =~= want);
        }
    }
}

/// The slot of an action.
pub open spec fn action_slot(a: ActionModel) -> SlotId {
    match a {
        ActionModel::Clear => (None, Seq::empty()),
        ActionModel::Build { slot, .. } => slot,
        ActionModel::Append { slot, .. } => slot,
    }
}

/// What taking in new records asks of a slot's graph.
pub open spec fn wanted_action(
    catalog: Catalog,
    rows: Seq<(KeyModel, RecordModel)>,
    new_keys: Seq<KeyModel>,
    threshold: nat,
    s: SlotId,
) -> Option<ActionModel> {
    let items = new_items(map_of(rows), new_keys, s);
    let all = members(rows, s);
    if items.len() == 0 {
        None
    } else if catalog.contains_key(s) {
        Some(
            ActionModel::Append {
                slot: s,
                first_id: catalog[s].keys.len(),
                keys: items,
                parallel: items.len() >= threshold,
            },
        )
    } else if all.len() >= ANN_MIN_POINTS {
        Some(ActionModel::Build { slot: s, keys: all, parallel: all.len() >= threshold })
    } else {
        None
    }
}

/// Whether actions are exactly the wanted ones, in slot order.
pub open spec fn actions_wanted(
    actions: Seq<ActionModel>,
    catalog: Catalog,
    rows: Seq<(KeyModel, RecordModel)>,
    new_keys: Seq<KeyModel>,
    threshold: nat,
) -> bool {
    &&& forall|i: int, j: int|
        #![trigger actions[i], actions[j]]
        0 <= i < j < actions.len() ==> slot_before(action_slot(actions[i]), action_slot(actions[j]))
    &&& forall|i: int|
        0 <= i < actions.len() ==> wanted_action(
            catalog,
            rows,
            new_keys,
            threshold,
            action_slot(#[trigger] actions[i]),
        ) == Some(actions[i])
    &&& forall|s: SlotId| #[trigger]
        wanted_action(catalog, rows, new_keys, threshold, s) is Some ==> exists|i: int|
            0 <= i < actions.len() && action_slot(#[trigger] actions[i]) == s
}

fn group_new(new_keys: &Vec<RecordKey>, records: &Records) -> (r: Groups)
    requires
        rows_named(records.pairs()),
    ensures
        no_empty(r@),
        forall|s: SlotId| #[trigger]
            group_of(r@, s) == new_items(records@, new_keys.deep_view(), s),
{
    let mut groups: Groups = OrderedMap::new();
    let ghost all = new_keys.deep_view();
    let mut i: usize = 0;
    proof {
        reveal(Seq::filter);
        assert forall|s: SlotId| #[trigger]
            group_of(groups@, s) == new_items(records@, all.take(0), s) by {
            assert(new_items(records@, all.take(0), s) =~= Seq::empty());
        }
        use_type_invariant(records);
        records.lemma_pairs_ascending();
    }
    while i < new_keys.len()
        invariant
            i <= new_keys@.len(),
            all == new_keys.deep_view(),
            rows_named(records.pairs()),
            ascending::<(String, String), RecordModel>(records.pairs()),
            no_empty(groups@),
            forall|s: SlotId| #[trigger]
                group_of(groups@, s) == new_items(records@, all.take(i as int), s),
        decreases new_keys@.len() - i,
    {
        let ghost start = groups@;
        let key = &new_keys[i];
        let ghost k = key.deep_view();
        let ghost seen = all.take(i as int);
        if let Some(record) = records.lookup(key) {
            proof {
                let p = position_of(records.pairs(), k);
                assert(has_key(records.pairs(), k));
                assert(names_valid(records.pairs()[p].1));
            }
            add_to_groups(&mut groups, key, record);
        }
        proof {
            assert(all[i as int] == k);
            assert(all.take(i + 1) =~= seen.push(k));
            assert forall|s: SlotId| #[trigger]
                group_of(groups@, s) == new_items(records@, all.take(i + 1), s) by {
                let pred = |q: KeyModel|
                    records@.contains_key(q) && in_slot(q, records@[q], s);
                crate::table::lemma_filter_push(seen, k, pred);
                assert(group_of(start, s) == new_items(records@, seen, s));
            }
        }
        i += 1;
    }
    proof {
        assert(all.take(i as int) =~= all);
    }
    groups
}

/// What the items of a slot ask of its graph.
spec fn slot_action(
    catalog: Catalog,
    rows: Seq<(KeyModel, RecordModel)>,
    threshold: nat,
    g: (SlotId, Seq<KeyModel>),
) -> Option<ActionModel> {
    let all = members(rows, g.0);
    if catalog.contains_key(g.0) {
        Some(
            ActionModel::Append {
                slot: g.0,
                first_id: catalog[g.0].keys.len(),
                keys: g.1,
                parallel: g.1.len() >= threshold,
            },
        )
    } else if all.len() >= ANN_MIN_POINTS {
        Some(ActionModel::Build { slot: g.0, keys: all, parallel: all.len() >= threshold })
    } else {
        None
    }
}

/// The graphs after taking in the items of a slot.
spec fn grow(
    catalog: Catalog,
    rows: Seq<(KeyModel, RecordModel)>,
    g: (SlotId, Seq<KeyModel>),
) -> Catalog {
    if catalog.contains_key(g.0) {
        catalog.insert(g.0, appended_slot(catalog[g.0], g.1))
    } else if members(rows, g.0).len() >= ANN_MIN_POINTS {
        catalog.insert(g.0, fresh_slot(members(rows, g.0)))
    } else {
        catalog
    }
}

/// The graphs after taking in the items of slots, one after the other.
spec fn grown(
    catalog: Catalog,
    rows: Seq<(KeyModel, RecordModel)>,
    gs: Seq<(SlotId, Seq<KeyModel>)>,
) -> Catalog
    decreases gs.len(),
{
    if gs.len() == 0 {
        catalog
    } else {
        grow(grown(catalog, rows, gs.drop_last()), rows, gs.last())
    }
}

/// The actions for the items of slots, one after the other.
spec fn slot_actions(
    catalog: Catalog,
    rows: Seq<(KeyModel, RecordModel)>,
    threshold: nat,
    gs: Seq<(SlotId, Seq<KeyModel>)>,
) -> Seq<ActionModel>
    decreases gs.len(),
{
    if gs.len() == 0 {
        Seq::empty()
    } else {
        let before = slot_actions(catalog, rows, threshold, gs.drop_last());
        match slot_action(catalog, rows, threshold, gs.last()) {
            Some(a) => before.push(a),
            None => before,
        }
    }
}

proof fn lemma_prefix_ascending(gs: Seq<(SlotId, Seq<KeyModel>)>)
    requires
        ascending::<(Option<String>, String), Seq<KeyModel>>(gs),
        gs.len() > 0,
    ensures
        ascending::<(Option<String>, String), Seq<KeyModel>>(gs.drop_last()),
        forall|q: int| 0 <= q < gs.len() - 1 ==> slot_before((#[trigger] gs[q]).0, gs.last().0),
        forall|q: int| 0 <= q < gs.len() - 1 ==> (#[trigger] gs[q]).0 != gs.last().0,
{
    let t = gs.drop_last();
    let l = gs.len() - 1;
    assert forall|i: int, j: int|
        #![trigger t[i], t[j]]
        0 <= i < j < t.len() implies <(Option<String>, String) as Key>::before(
        t[i].0,
        t[j].0,
    ) by {
        assert(<(Option<String>, String) as Key>::before(gs[i].0, gs[j].0));
    }
    assert forall|q: int| 0 <= q < gs.len() - 1 implies slot_before(
        (#[trigger] gs[q]).0,
        gs.last().0,
    ) && gs[q].0 != gs.last().0 by {
        assert(<(Option<String>, String) as Key>::before(gs[q].0, gs[l].0));
        <(Option<String>, String) as Key>::lemma_irreflexive(gs[l].0);
    }
}

proof fn lemma_grown_elsewhere(
    catalog: Catalog,
    rows: Seq<(KeyModel, RecordModel)>,
    gs: Seq<(SlotId, Seq<KeyModel>)>,
    s: SlotId,
)
    requires
        forall|q: int| 0 <= q < gs.len() ==> (#[trigger] gs[q]).0 != s,
    ensures
        grown(catalog, rows, gs).contains_key(s) == catalog.contains_key(s),
        catalog.contains_key(s) ==> grown(catalog, rows, gs)[s] == catalog[s],
    decreases gs.len(),
{
    if gs.len() > 0 {
        let t = gs.drop_last();
        assert forall|q: int| 0 <= q < t.len() implies (#[trigger] t[q]).0 != s by {
            assert(t[q] == gs[q]);
        }
        lemma_grown_elsewhere(catalog, rows, t, s);
        assert(gs[gs.len() - 1].0 != s);
    }
}

proof fn lemma_grown_at(
    catalog: Catalog,
    rows: Seq<(KeyModel, RecordModel)>,
    gs: Seq<(SlotId, Seq<KeyModel>)>,
    p: int,
)
    requires
        ascending::<(Option<String>, String), Seq<KeyModel>>(gs),
        0 <= p < gs.len(),
    ensures
        ({
            let s = gs[p].0;
            let out = grown(catalog, rows, gs);
            &&& out.contains_key(s) <==> catalog.contains_key(s) || members(rows, s).len()
                >= ANN_MIN_POINTS
            &&& out.contains_key(s) ==> out[s] == if catalog.contains_key(s) {
                appended_slot(catalog[s], gs[p].1)
            } else {
                fresh_slot(members(rows, s))
            }
        }),
    decreases gs.len(),
{
    let t = gs.drop_last();
    lemma_prefix_ascending(gs);
    if p == gs.len() - 1 {
        assert forall|q: int| 0 <= q < t.len() implies (#[trigger] t[q]).0 != gs[p].0 by {
            assert(t[q] == gs[q]);
        }
        lemma_grown_elsewhere(catalog, rows, t, gs[p].0);
    } else {
        lemma_grown_at(catalog, rows, t, p);
        assert(t[p] == gs[p]);
        assert(gs[p].0 != gs.last().0);
    }
}

proof fn lemma_slot_actions(
    catalog: Catalog,
    rows: Seq<(KeyModel, RecordModel)>,
    threshold: nat,
    gs: Seq<(SlotId, Seq<KeyModel>)>,
)
    requires
        ascending::<(Option<String>, String), Seq<KeyModel>>(gs),
    ensures
        ({
            let acts = slot_actions(catalog, rows, threshold, gs);
            &&& forall|a: int, b: int|
                #![trigger acts[a], acts[b]]
                0 <= a < b < acts.len() ==> slot_before(action_slot(acts[a]), action_slot(acts[b]))
            &&& forall|a: int|
                0 <= a < acts.len() ==> exists|q: int|
                    0 <= q < gs.len() && (#[trigger] gs[q]).0 == action_slot(#[trigger] acts[a])
                        && slot_action(catalog, rows, threshold, gs[q]) == Some(acts[a])
            &&& forall|q: int|
                0 <= q < gs.len() && slot_action(
                    catalog,
                    rows,
                    threshold,
                    #[trigger] gs[q],
                ) is Some ==> exists|a: int|
                    0 <= a < acts.len() && action_slot(#[trigger] acts[a]) == gs[q].0
        }),
    decreases gs.len(),
{
    if gs.len() > 0 {
        let t = gs.drop_last();
        let l = gs.len() - 1;
        lemma_prefix_ascending(gs);
        lemma_slot_actions(catalog, rows, threshold, t);
        let old_acts = slot_actions(catalog, rows, threshold, t);
        let acts = slot_actions(catalog, rows, threshold, gs);
        assert forall|a: int, b: int|
            #![trigger acts[a], acts[b]]
            0 <= a < b < acts.len() implies slot_before(
            action_slot(acts[a]),
            action_slot(acts[b]),
        ) by {
            assert(acts[a] == old_acts[a]);
            if b == old_acts.len() {
                let q = choose|q: int|
                    0 <= q < t.len() && (#[trigger] t[q]).0 == action_slot(old_acts[a])
                        && slot_action(catalog, rows, threshold, t[q]) == Some(old_acts[a]);
                assert(t[q] == gs[q]);
                assert(slot_before(gs[q].0, gs.last().0));
            } else {
                assert(acts[b] == old_acts[b]);
            }
        }
        assert forall|a: int| 0 <= a < acts.len() implies exists|q: int|
            0 <= q < gs.len() && (#[trigger] gs[q]).0 == action_slot(#[trigger] acts[a])
                && slot_action(catalog, rows, threshold, gs[q]) == Some(acts[a]) by {
            if a < old_acts.len() {
                assert(acts[a] == old_acts[a]);
                let q = choose|q: int|
                    0 <= q < t.len() && (#[trigger] t[q]).0 == action_slot(old_acts[a])
                        && slot_action(catalog, rows, threshold, t[q]) == Some(old_acts[a]);
                assert(t[q] == gs[q]);
            } else {
                assert(gs[l].0 == action_slot(acts[a]));
            }
        }
        assert forall|q: int|
            0 <= q < gs.len() && slot_action(
                catalog,
                rows,
                threshold,
                #[trigger] gs[q],
            ) is Some implies exists|a: int|
            0 <= a < acts.len() && action_slot(#[trigger] acts[a]) == gs[q].0 by {
            if q < l {
                assert(t[q] == gs[q]);
                let a = choose|a: int|
                    0 <= a < old_acts.len() && action_slot(#[trigger] old_acts[a]) == t[q].0;
                assert(acts[a] == old_acts[a]);
            } else {
                assert(action_slot(acts[acts.len() - 1]) == gs[q].0);
            }
        }
    }
}

impl AnnCatalog {
    fn take_in(
        &mut self,
        slot: &SlotKey,
        items: &Vec<RecordKey>,
        records: &Records,
        config: &IndexConfig,
    ) -> (r: Option<GraphAction>)
        ensures
            ({
                let g = (slot.deep_view(), items.deep_view());
                let rows = records.pairs();
                &&& final(self)@ == grow(old(self)@, rows, g)
                &&& r.deep_view() == slot_action(
                    old(self)@,
                    rows,
                    config.parallel_insert_threshold as nat,
                    g,
                )
            }),
    {
        let ghost before = self@;
        let ghost id = slot.deep_view();
        let copy = slot.duplicate();
        match self.slots.take(slot) {
            Some(index) => {
                let first_id: usize = index.keys.len();
                let index = index.extended(items);
                self.slots.put(slot.duplicate(), index);
                proof {
                    assert(self@ =~= grow(
                        before,
                        records.pairs(),
                        (slot.deep_view(), items.deep_view()),
                    ));
                }
                Some(
                    GraphAction::Append {
                        namespace: copy.0,
                        vector_name: copy.1,
                        first_id,
                        keys: items.duplicate(),
                        parallel: items.len() >= config.parallel_insert_threshold,
                    },
                )
            },
            None => {
                proof {
                    assert(before.remove(id) =~= before);
                }
                let all = members_of(records, slot);
                if all.len() >= ANN_MIN_POINTS {
                    self.slots.put(slot.duplicate(), AnnIndex::build(&all));
                    let parallel: bool = all.len() >= config.parallel_insert_threshold;
                    Some(
                        GraphAction::Build {
                            namespace: copy.0,
                            vector_name: copy.1,
                            keys: all,
                            parallel,
                        },
                    )
                } else {
                    None
                }
            },
        }
    }

    /// Takes new records into the graphs.
    pub fn ann_apply_incremental(
        &mut self,
        new_keys: &Vec<RecordKey>,
        records: &Records,
        config: &IndexConfig,
    ) -> (r: Vec<GraphAction>)
        requires
            rows_named(records.pairs()),
        ensures
            final(self)@ == incremented(old(self)@, records.pairs(), new_keys.deep_view()),
            actions_wanted(
                r.deep_view(),
                old(self)@,
                records.pairs(),
                new_keys.deep_view(),
                config.parallel_insert_threshold as nat,
            ),
    {
        let ghost rows = records.pairs();
        let ghost nk = new_keys.deep_view();
        let ghost before = self@;
        let ghost threshold = config.parallel_insert_threshold as nat;
        let groups = group_new(new_keys, records);
        let ghost gs = groups.pairs();
        proof {
            use_type_invariant(&groups);
            groups.lemma_pairs_ascending();
        }
        let mut actions: Vec<GraphAction> = Vec::new();
        let mut i: usize = 0;
        proof {
            assert(actions.deep_view() =~= Seq::<ActionModel>::empty());
            assert(gs.take(0) =~= Seq::empty());
        }
        while i < groups.len()
            invariant
                i <= gs.len(),
                gs == groups.pairs(),
                rows == records.pairs(),
                before == old(self)@,
                threshold == config.parallel_insert_threshold,
                ascending::<(Option<String>, String), Seq<KeyModel>>(gs),
                self@ == grown(before, rows, gs.take(i as int)),
                actions.deep_view() == slot_actions(before, rows, threshold, gs.take(i as int)),
            decreases gs.len() - i,
        {
            let ghost done = gs.take(i as int);
            let ghost acted = actions.deep_view();
            proof {
                assert(gs.take(i + 1).drop_last() =~= done);
                assert(gs.take(i + 1).last() == gs[i as int]);
                assert forall|q: int| 0 <= q < done.len() implies (#[trigger] done[q]).0
                    != gs[i as int].0 by {
                    if done[q].0 == gs[i as int].0 {
                        assert(done[q] == gs[q]);
                        lemma_ascending_unique::<(Option<String>, String), Seq<KeyModel>>(
                            gs,
                            q,
                            i as int,
                        );
                    }
                }
                lemma_grown_elsewhere(before, rows, done, gs[i as int].0);
            }
            match self.take_in(groups.key_at(i), groups.value_at(i), records, config) {
                Some(a) => {
                    actions.push(a);
                    proof {
                        assert(actions.deep_view() =~= acted.push(a.deep_view()));
                    }
                },
                None => {},
            }
            i += 1;
        }
        proof {
            assert(gs.take(i as int) =~= gs);
            lemma_taken_in(before, rows, nk, threshold, groups@, gs);
        }
        actions
    }
}

proof fn lemma_group_items(
    rows: Seq<(KeyModel, RecordModel)>,
    new_keys: Seq<KeyModel>,
    groups: Map<SlotId, Seq<KeyModel>>,
    gs: Seq<(SlotId, Seq<KeyModel>)>,
)
    requires
        ascending::<(Option<String>, String), Seq<KeyModel>>(gs),
        groups == map_of(gs),
        no_empty(groups),
        forall|s: SlotId| #[trigger]
            group_of(groups, s) == new_items(map_of(rows), new_keys, s),
    ensures
        forall|q: int|
            0 <= q < gs.len() ==> (#[trigger] gs[q]).1 == new_items(map_of(rows), new_keys, gs[q].0)
                && gs[q].1.len() > 0,
{
    assert forall|q: int| 0 <= q < gs.len() implies (#[trigger] gs[q]).1 == new_items(
        map_of(rows),
        new_keys,
        gs[q].0,
    ) && gs[q].1.len() > 0 by {
        lemma_map_of_at::<(Option<String>, String), Seq<KeyModel>>(gs, q);
        assert(groups.contains_key(gs[q].0));
        assert(group_of(groups, gs[q].0) == gs[q].1);
    }
}

proof fn lemma_grown_slot(
    catalog: Catalog,
    rows: Seq<(KeyModel, RecordModel)>,
    new_keys: Seq<KeyModel>,
    groups: Map<SlotId, Seq<KeyModel>>,
    gs: Seq<(SlotId, Seq<KeyModel>)>,
    s: SlotId,
)
    requires
        ascending::<(Option<String>, String), Seq<KeyModel>>(gs),
        groups == map_of(gs),
        no_empty(groups),
        group_of(groups, s) == new_items(map_of(rows), new_keys, s),
    ensures
        grown(catalog, rows, gs).contains_key(s) == incremented(
            catalog,
            rows,
            new_keys,
        ).contains_key(s),
        grown(catalog, rows, gs).contains_key(s) ==> grown(catalog, rows, gs)[s] == incremented(
            catalog,
            rows,
            new_keys,
        )[s],
{
    let items = new_items(map_of(rows), new_keys, s);
    if has_key(gs, s) {
        let p = position_of(gs, s);
        assert(gs[p].0 == s);
        lemma_map_of_at::<(Option<String>, String), Seq<KeyModel>>(gs, p);
        assert(groups.contains_key(s));
        lemma_grown_at(catalog, rows, gs, p);
    } else {
        assert forall|q: int| 0 <= q < gs.len() implies (#[trigger] gs[q]).0 != s by {
            if gs[q].0 == s {
                assert(has_key(gs, s));
            }
        }
        lemma_grown_elsewhere(catalog, rows, gs, s);
        assert(items.len() == 0);
        if catalog.contains_key(s) {
            assert(appended_slot(catalog[s], items).keys =~= catalog[s].keys);
        }
    }
}

/// Taking in the items of each slot in turn is taking in the new records.
proof fn lemma_taken_in(
    catalog: Catalog,
    rows: Seq<(KeyModel, RecordModel)>,
    new_keys: Seq<KeyModel>,
    threshold: nat,
    groups: Map<SlotId, Seq<KeyModel>>,
    gs: Seq<(SlotId, Seq<KeyModel>)>,
)
    requires
        ascending::<(Option<String>, String), Seq<KeyModel>>(gs),
        groups == map_of(gs),
        no_empty(groups),
        forall|s: SlotId| #[trigger]
            group_of(groups, s) == new_items(map_of(rows), new_keys, s),
    ensures
        grown(catalog, rows, gs) == incremented(catalog, rows, new_keys),
        actions_wanted(
            slot_actions(catalog, rows, threshold, gs),
            catalog,
            rows,
            new_keys,
            threshold,
        ),
{
    lemma_group_items(rows, new_keys, groups, gs);
    let out = grown(catalog, rows, gs);
    let want = incremented(catalog, rows, new_keys);
    assert forall|s: SlotId| #[trigger] out.contains_key(s) == want.contains_key(s) by {
        lemma_grown_slot(catalog, rows, new_keys, groups, gs, s);
    }
    assert forall|s: SlotId| #[trigger] out.contains_key(s) implies out[s] == want[s] by {
        lemma_grown_slot(catalog, rows, new_keys, groups, gs, s);
    }
    assert(out =~= want);
    lemma_slot_actions(catalog, rows, threshold, gs);
    let acts = slot_actions(catalog, rows, threshold, gs);
    assert forall|i: int| 0 <= i < acts.len() implies wanted_action(
        catalog,
        rows,
        new_keys,
        threshold,
        action_slot(#[trigger] acts[i]),
    ) == Some(acts[i]) by {
        let q = choose|q: int|
            0 <= q < gs.len() && (#[trigger] gs[q]).0 == action_slot(acts[i]) && slot_action(
                catalog,
                rows,
                threshold,
                gs[q],
            ) == Some(acts[i]);
        assert(gs[q].1.len() > 0);
    }
    assert forall|s: SlotId| #[trigger]
        wanted_action(catalog, rows, new_keys, threshold, s) is Some implies exists|i: int|
        0 <= i < acts.len() && action_slot(#[trigger] acts[i]) == s by {
        assert(group_of(groups, s) == new_items(map_of(rows), new_keys, s));
        assert(has_key(gs, s));
        let p = position_of(gs, s);
        assert(gs[p].0 == s);
        assert(slot_action(catalog, rows, threshold, gs[p]) is Some);
    }
}

/// Whether the dead ids of a graph are ids of the graph.
pub open spec fn slot_valid(s: SlotModel) -> bool {
    &&& s.keys.len() <= usize::MAX
    &&& forall|d: usize| #[trigger] s.dead.contains(d) ==> d < s.keys.len()
}

/// Whether the dead ids of every graph are ids of the graph.
pub open spec fn catalog_valid(catalog: Catalog) -> bool {
    forall|s: SlotId| #[trigger] catalog.contains_key(s) ==> slot_valid(catalog[s])
}

/// Whether every graph holds every record of its slot, not dead.
pub open spec fn covers(catalog: Catalog, records: Map<KeyModel, RecordModel>) -> bool {
    forall|s: SlotId, k: KeyModel|
        #![trigger catalog.contains_key(s), records.contains_key(k)]
        catalog.contains_key(s) && records.contains_key(k) && in_slot(k, records[k], s) ==> alive(
            catalog[s],
            k,
        )
}

/// Rebuilt graphs hold every record of their slots.
pub proof fn law_rebuild_covers(rows: Seq<(KeyModel, RecordModel)>)
    requires
        ascending::<(String, String), RecordModel>(rows),
        rows.len() <= usize::MAX,
    ensures
        covers(rebuilt(rows), map_of(rows)),
        catalog_valid(rebuilt(rows)),
{
    let records = map_of(rows);
    assert forall|s: SlotId, k: KeyModel|
        #![trigger rebuilt(rows).contains_key(s), records.contains_key(k)]
        rebuilt(rows).contains_key(s) && records.contains_key(k) && in_slot(
            k,
            records[k],
            s,
        ) implies alive(rebuilt(rows)[s], k) by {
        let p = position_of(rows, k);
        assert(has_key(rows, k));
        let pred = |q: (KeyModel, RecordModel)| in_slot(q.0, q.1, s);
        rows.lemma_filter_contains(pred, p);
        let kept = rows.filter(pred);
        let i = choose|i: int| 0 <= i < kept.len() && kept[i] == rows[p];
        assert(members(rows, s)[i] == k);
    }
    assert forall|s: SlotId| #[trigger] rebuilt(rows).contains_key(s) implies slot_valid(
        rebuilt(rows)[s],
    ) by {
        rows.lemma_filter_len(|q: (KeyModel, RecordModel)| in_slot(q.0, q.1, s));
    }
}

proof fn lemma_last_position_concat(a: Seq<KeyModel>, b: Seq<KeyModel>, k: KeyModel)
    ensures
        last_position(a + b, k) == if b.contains(k) {
            a.len() + last_position(b, k)
        } else {
            last_position(a, k)
        },
    decreases b.len(),
{
    if b.len() == 0 {
        assert(a + b =~= a);
    } else {
        let t = b.drop_last();
        assert((a + b).drop_last() =~= a + t);
        assert((a + b).last() == b.last());
        lemma_last_position_concat(a, t, k);
        if b.last() == k {
            assert(b[b.len() - 1] == k);
        } else {
            if t.contains(k) {
                let i = choose|i: int| 0 <= i < t.len() && t[i] == k;
                assert(b[i] == k);
            }
            if b.contains(k) {
                let i = choose|i: int| 0 <= i < b.len() && b[i] == k;
                assert(t[i] == k);
            }
        }
    }
}

proof fn lemma_append_alive(s: SlotModel, items: Seq<KeyModel>, k: KeyModel)
    requires
        slot_valid(s),
        s.keys.len() + items.len() <= usize::MAX,
        items.contains(k) || alive(s, k),
    ensures
        alive(appended_slot(s, items), k),
{
    let all = s.keys + items;
    lemma_last_position_concat(s.keys, items, k);
    lemma_last_position(items, k);
    lemma_last_position(s.keys, k);
    lemma_last_position(all, k);
    let p = last_position(all, k);
    if items.contains(k) {
        assert(all[p] == k);
        if s.dead.contains(p as usize) {
            assert(p < s.keys.len());
        }
    } else {
        assert(all[p] == k);
    }
}

/// Taking in new records keeps the graphs complete: what is there of the earlier records has kept
/// its vectors, and everything else is among the new keys.
pub proof fn law_incremental_covers(
    catalog: Catalog,
    before: Map<KeyModel, RecordModel>,
    rows: Seq<(KeyModel, RecordModel)>,
    new_keys: Seq<KeyModel>,
)
    requires
        covers(catalog, before),
        catalog_valid(catalog),
        ascending::<(String, String), RecordModel>(rows),
        rows.len() <= usize::MAX,
        forall|k: KeyModel| #[trigger]
            map_of(rows).contains_key(k) ==> new_keys.contains(k) || (before.contains_key(k)
                && before[k].vectors == map_of(rows)[k].vectors),
        forall|s: SlotId| #[trigger]
            catalog.contains_key(s) ==> catalog[s].keys.len() + new_items(
                map_of(rows),
                new_keys,
                s,
            ).len() <= usize::MAX,
    ensures
        covers(incremented(catalog, rows, new_keys), map_of(rows)),
        catalog_valid(incremented(catalog, rows, new_keys)),
{
    let records = map_of(rows);
    let after = incremented(catalog, rows, new_keys);
    law_rebuild_covers(rows);
    assert forall|s: SlotId, k: KeyModel|
        #![trigger after.contains_key(s), records.contains_key(k)]
        after.contains_key(s) && records.contains_key(k) && in_slot(k, records[k], s) implies alive(
        after[s],
        k,
    ) by {
        let items = new_items(records, new_keys, s);
        if catalog.contains_key(s) {
            if new_keys.contains(k) {
                let i = choose|i: int| 0 <= i < new_keys.len() && new_keys[i] == k;
                new_keys.lemma_filter_contains(
                    |q: KeyModel| records.contains_key(q) && in_slot(q, records[q], s),
                    i,
                );
                assert(items.contains(k));
            } else {
                assert(before.contains_key(k));
                assert(in_slot(k, before[k], s));
            }
            lemma_append_alive(catalog[s], items, k);
        } else {
            assert(rebuilt(rows).contains_key(s));
        }
    }
    assert forall|s: SlotId| #[trigger] after.contains_key(s) implies slot_valid(after[s]) by {
        if !catalog.contains_key(s) {
            assert(rebuilt(rows).contains_key(s));
        }
    }
}

pub(crate) proof fn lemma_buried_keys(s: SlotModel, dead: Seq<KeyModel>)
    ensures
        buried_all(s, dead).keys == s.keys,
    decreases dead.len(),
{
    if dead.len() > 0 {
        lemma_buried_keys(s, dead.drop_last());
    }
}

pub(crate) proof fn lemma_buried(s: SlotModel, dead: Seq<KeyModel>, k: KeyModel)
    requires
        slot_valid(s),
    ensures
        slot_valid(buried_all(s, dead)),
        alive(s, k) && !dead.contains(k) ==> alive(buried_all(s, dead), k),
    decreases dead.len(),
{
    if dead.len() > 0 {
        let t = dead.drop_last();
        lemma_buried(s, t, k);
        lemma_buried_keys(s, t);
        lemma_last_position(s.keys, dead.last());
        lemma_last_position(s.keys, k);
        if alive(s, k) && !dead.contains(k) {
            assert(!t.contains(k)) by {
                if t.contains(k) {
                    let i = choose|i: int| 0 <= i < t.len() && t[i] == k;
                    assert(dead[i] == k);
                }
            }
            assert(dead[dead.len() - 1] != k);
        }
    }
}

/// Declaring deleted keys dead keeps the graphs complete for the records that are left.
pub proof fn law_tombstones_cover(
    catalog: Catalog,
    before: Map<KeyModel, RecordModel>,
    after: Map<KeyModel, RecordModel>,
    dead: Seq<KeyModel>,
)
    requires
        covers(catalog, before),
        catalog_valid(catalog),
        forall|k: KeyModel| #[trigger]
            after.contains_key(k) ==> before.contains_key(k) && before[k] == after[k]
                && !dead.contains(k),
    ensures
        covers(tombstoned(catalog, dead), after),
        catalog_valid(tombstoned(catalog, dead)),
{
    let out = tombstoned(catalog, dead);
    assert forall|s: SlotId, k: KeyModel|
        #![trigger out.contains_key(s), after.contains_key(k)]
        out.contains_key(s) && after.contains_key(k) && in_slot(k, after[k], s) implies alive(
        out[s],
        k,
    ) by {
        assert(catalog.contains_key(s));
        assert(before.contains_key(k));
        lemma_buried(catalog[s], dead, k);
    }
    assert forall|s: SlotId| #[trigger] out.contains_key(s) implies slot_valid(out[s]) by {
        assert(catalog.contains_key(s));
        lemma_buried(catalog[s], dead, (Seq::empty(), Seq::empty()));
    }
}

impl AnnCatalog {
    /// The ids of a graph fit the machine's word.
    pub(crate) proof fn lemma_lengths(self)
        ensures
            forall|s: SlotId| #[trigger] self@.contains_key(s) ==> self@[s].keys.len() <= usize::MAX,
    {
        assert forall|s: SlotId| #[trigger] self@.contains_key(s) implies self@[s].keys.len()
            <= usize::MAX by {
            let p = position_of(self.slots.pairs(), s);
            let keys = self.slots.entries@[p].1.keys;
            assert(keys.len() <= usize::MAX);
        }
    }
}

/// How many candidates a search for `top_k` results considers out of `total`: all of up to 256,
/// and else eight times the wanted number, but no fewer than 64.
pub open spec fn candidates_for(top_k: nat, total: nat) -> nat {
    if total <= 256 {
        total
    } else {
        let wanted = if top_k == 0 {
            8
        } else {
            top_k * 8
        };
        let enough = if wanted < 64 {
            64
        } else {
            wanted
        };
        if enough < total {
            enough
        } else {
            total
        }
    }
}

/// How many candidates a search considers.
pub fn candidate_count(top_k: usize, total: usize) -> (r: usize)
    ensures
        r == candidates_for(top_k as nat, total as nat),
{
    if total <= 256 {
        return total;
    }
    let requested: usize = if top_k == 0 {
        1
    } else {
        top_k
    };
    if requested >= total {
        return total;
    }
    let scaled: usize = if requested > usize::MAX / ANN_OVERSAMPLE {
        usize::MAX
    } else {
        requested * ANN_OVERSAMPLE
    };
    let enough: usize = if scaled < ANN_MIN_CANDIDATES {
        ANN_MIN_CANDIDATES
    } else {
        scaled
    };
    if enough < total {
        enough
    } else {
        total
    }
}

/// How a graph is searched: how many neighbours to keep, how many to fetch, and how wide.
#[derive(Clone, Copy, Debug, PartialEq, Eq, Structural)]
pub struct GraphSearch {
    pub candidate_count: usize,
    pub fetch_count: usize,
    pub ef_search: usize,
}

/// How a graph with `total` ids, `dead` of them dead, is searched. More is fetched, and more
/// widely, to make up for dead neighbours, but never more than the graph has.
pub open spec fn graph_search(
    total: nat,
    dead: nat,
    top_k: nat,
    ef_setting: Option<usize>,
    ef_construction: nat,
) -> Option<(nat, nat, nat)> {
    let live = (total - dead) as nat;
    let count = candidates_for(top_k, live);
    if live < ANN_SEARCH_MIN_POINTS || count == 0 {
        None
    } else {
        let base = match ef_setting {
            Some(ef) => if ef as nat > count {
                ef as nat
            } else {
                count
            },
            None => if count > ef_construction {
                count
            } else {
                ef_construction
            },
        };
        let extra = if dead < base {
            dead
        } else {
            base
        };
        let ef = if dead == 0 {
            base
        } else if base + extra < total {
            base + extra
        } else {
            total
        };
        let more = if dead < count {
            dead
        } else {
            count
        };
        let fetch = if count + more < total {
            count + more
        } else {
            total
        };
        Some((count, fetch, ef))
    }
}

impl AnnIndex {
    /// How the graph is searched for `top_k` results; `None` where it has too few live entries.
    pub fn search_plan(&self, top_k: usize, config: &IndexConfig) -> (r: Option<GraphSearch>)
        ensures
            match graph_search(
                self@.keys.len(),
                self@.dead.len(),
                top_k as nat,
                config.ef_search,
                config.ef_construction as nat,
            ) {
                None => r is None,
                Some((count, fetch, ef)) => r matches Some(p) && p.candidate_count == count
                    && p.fetch_count == fetch && p.ef_search == ef,
            },
    {
        let live: usize = self.live_count();
        if live < ANN_SEARCH_MIN_POINTS {
            return None;
        }
        let count: usize = candidate_count(top_k, live);
        if count == 0 {
            return None;
        }
        let total: usize = self.keys.len();
        let dead: usize = self.tombstones.len();
        let base: usize = match config.ef_search {
            Some(ef) => {
                if ef > count {
                    ef
                } else {
                    count
                }
            },
            None => {
                if count > config.ef_construction {
                    count
                } else {
                    config.ef_construction
                }
            },
        };
        let ef: usize = if dead == 0 {
            base
        } else {
            let extra: usize = if dead < base {
                dead
            } else {
                base
            };
            if base < total && extra < total - base {
                base + extra
            } else {
                total
            }
        };
        let more: usize = if dead < count {
            dead
        } else {
            count
        };
        let fetch: usize = if count < total && more < total - count {
            count + more
        } else {
            total
        };
        Some(GraphSearch { candidate_count: count, fetch_count: fetch, ef_search: ef })
    }
}

} // verus!
