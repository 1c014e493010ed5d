//! Indexes on metadata fields, and the record keys that they single out for a filter.
use vstd::prelude::*;
use crate::codec::{
    enc_text, le_bytes, lemma_parse_le_roundtrip, lemma_parse_text_roundtrip, lemma_pow256_values,
    parse_le, parse_text, text_fits, too_long, write_le, write_len, write_text, Reader,
};
use crate::error::{Failure, VectLiteError};
use crate::filter::{accepts, MetadataFilter};
use crate::float_bits::{number_position, position_of_number};
use crate::metadata::{
    number_of, resolve, resolve_dot_path, values_equal, Metadata, MetadataValue, ValueModel,
};
use crate::order::{same_text, Duplicate, Key};
use crate::ordered_map::{
    ascending, has_key, insert_pair, lemma_insert_last, lemma_map_of_at, lemma_map_of_take, map_of,
    position_of, OrderedMap,
};
use crate::ordered_set::OrderedSet;
use crate::record::{KeyModel, RecordKey, RecordModel};
use crate::snapshot::Records;
use crate::text::{concat2, decimal, decimal_text, lower_text, lowers_to};

verus! {

/// The kind of an index on a metadata field.
#[derive(Clone, Copy, Debug, PartialEq, Eq, Structural)]
pub enum PayloadIndexType {
    /// Finds texts by equality.
    Keyword,
    /// Finds numbers by equality and range.
    Numeric,
}

/// A set of record keys.
pub type KeySet = OrderedSet<(String, String)>;

/// The text of a field, or at the end of a path, that a keyword index holds.
pub open spec fn indexed_text(m: RecordModel, field: Seq<char>) -> Option<Seq<char>> {
    match resolve(m.metadata, field) {
        Some(ValueModel::Text(s)) => Some(s),
        _ => None,
    }
}

/// The position among numbers of the number of a field that a numeric index holds.
pub open spec fn indexed_number(m: RecordModel, field: Seq<char>) -> Option<int> {
    match resolve(m.metadata, field) {
        Some(v) => match number_of(v) {
            Some(bits) => Some(number_position(bits)),
            None => None,
        },
        None => None,
    }
}

/// Texts and the keys of the records that have them.
pub struct KeywordIndex {
    pub(crate) postings: OrderedMap<String, KeySet>,
}

impl KeywordIndex {
    /// The keys of the records with the text `s`.
    pub open(crate) spec fn keys_of(self, s: Seq<char>) -> Set<KeyModel> {
        if self.postings@.contains_key(s) {
            self.postings@[s]
        } else {
            Set::empty()
        }
    }

    /// Whether the index on `field` holds exactly what `records` say.
    pub open(crate) spec fn consistent(
        self,
        field: Seq<char>,
        records: Map<KeyModel, RecordModel>,
    ) -> bool {
        forall|s: Seq<char>, k: KeyModel| #[trigger]
            self.keys_of(s).contains(k) <==> records.contains_key(k) && indexed_text(
                records[k],
                field,
            ) == Some(s)
    }

    /// An empty index.
    pub fn new() -> (r: Self)
        ensures
            forall|s: Seq<char>| #[trigger] r.keys_of(s) == Set::<KeyModel>::empty(),
    {
        KeywordIndex { postings: OrderedMap::new() }
    }

    /// Adds `key` under `value`.
    pub fn insert(&mut self, value: &str, key: RecordKey)
        ensures
            forall|s: Seq<char>| #[trigger]
                final(self).keys_of(s) == if s == value@ {
                    old(self).keys_of(s).insert(key.deep_view())
                } else {
                    old(self).keys_of(s)
                },
    {
        let mut set = match self.postings.remove(value) {
            Some(s) => s,
            None => OrderedSet::new(),
        };
        set.add(key);
        self.postings.insert(value.to_owned(), set);
    }

    /// Removes `key` from under `value`.
    pub fn remove(&mut self, value: &str, key: &RecordKey)
        ensures
            forall|s: Seq<char>| #[trigger]
                final(self).keys_of(s) == if s == value@ {
                    old(self).keys_of(s).remove(key.deep_view())
                } else {
                    old(self).keys_of(s)
                },
    {
        match self.postings.remove(value) {
            Some(mut set) => {
                set.discard(key);
                if !set.is_empty() {
                    self.postings.insert(value.to_owned(), set);
                }
            },
            None => {
                proof {
                    assert(old(self).keys_of(value@) =~= old(self).keys_of(value@).remove(
                        key.deep_view(),
                    ));
                }
            },
        }
    }

    /// The keys under `value`.
    pub fn lookup_eq(&self, value: &str) -> (r: KeySet)
        ensures
            r@ == self.keys_of(value@),
    {
        match self.postings.get(value) {
            Some(set) => set.duplicate(),
            None => OrderedSet::new(),
        }
    }

    /// The keys under any of `values`.
    pub fn lookup_in(&self, values: &Vec<String>) -> (r: KeySet)
        ensures
            forall|k: KeyModel|
                r@.contains(k) <==> exists|i: int|
                    0 <= i < values@.len() && self.keys_of((#[trigger] values@[i])@).contains(k),
    {
        let mut out: KeySet = OrderedSet::new();
        let mut i: usize = 0;
        while i < values.len()
            invariant
                i <= values@.len(),
                forall|k: KeyModel|
                    out@.contains(k) <==> exists|j: int|
                        0 <= j < i && self.keys_of((#[trigger] values@[j])@).contains(k),
            decreases values@.len() - i,
        {
            let ghost before = out@;
            let set = self.lookup_eq(values[i].as_str());
            out.extend(&set);
            proof {
                assert forall|k: KeyModel|
                    out@.contains(k) <==> exists|j: int|
                        0 <= j < i + 1 && self.keys_of((#[trigger] values@[j])@).contains(k) by {
                    if set@.contains(k) {
                        assert(self.keys_of(values@[i as int]@).contains(k));
                    }
                    if before.contains(k) {
                        let j = choose|j: int|
                            0 <= j < i && self.keys_of((#[trigger] values@[j])@).contains(k);
                        assert(0 <= j < i + 1 && self.keys_of(values@[j]@).contains(k));
                    }
                }
            }
            i += 1;
        }
        out
    }
}

/// Numbers, by their position, and the keys of the records that have them.
pub struct NumericIndex {
    pub(crate) tree: OrderedMap<u64, KeySet>,
}

impl NumericIndex {
    /// The keys of the records whose number is at the position `t`.
    pub open(crate) spec fn keys_at(self, t: int) -> Set<KeyModel> {
        if 0 <= t <= u64::MAX && self.tree@.contains_key(t as u64) {
            self.tree@[t as u64]
        } else {
            Set::empty()
        }
    }

    /// Whether the index on `field` holds exactly what `records` say.
    pub open(crate) spec fn consistent(
        self,
        field: Seq<char>,
        records: Map<KeyModel, RecordModel>,
    ) -> bool {
        forall|t: int, k: KeyModel| #[trigger]
            self.keys_at(t).contains(k) <==> records.contains_key(k) && indexed_number(
                records[k],
                field,
            ) == Some(t)
    }

    /// An empty index.
    pub fn new() -> (r: Self)
        ensures
            forall|t: int| #[trigger] r.keys_at(t) == Set::<KeyModel>::empty(),
    {
        NumericIndex { tree: OrderedMap::new() }
    }

    /// Adds `key` under the number `value`.
    pub fn insert(&mut self, value: u64, key: RecordKey)
        ensures
            forall|t: int| #[trigger]
                final(self).keys_at(t) == if t == number_position(value) {
                    old(self).keys_at(t).insert(key.deep_view())
                } else {
                    old(self).keys_at(t)
                },
    {
        let at: u64 = position_of_number(value);
        let mut set = match self.tree.take(&at) {
            Some(s) => s,
            None => OrderedSet::new(),
        };
        set.add(key);
        self.tree.put(at, set);
    }

    /// Removes `key` from under the number `value`.
    pub fn remove(&mut self, value: u64, key: &RecordKey)
        ensures
            forall|t: int| #[trigger]
                final(self).keys_at(t) == if t == number_position(value) {
                    old(self).keys_at(t).remove(key.deep_view())
                } else {
                    old(self).keys_at(t)
                },
    {
        let at: u64 = position_of_number(value);
        match self.tree.take(&at) {
            Some(mut set) => {
                set.discard(key);
                if !set.is_empty() {
                    self.tree.put(at, set);
                }
            },
            None => {
                proof {
                    assert(old(self).keys_at(at as int) =~= old(self).keys_at(at as int).remove(
                        key.deep_view(),
                    ));
                }
            },
        }
    }

    /// The keys under the number `target`.
    pub fn lookup_eq(&self, target: u64) -> (r: KeySet)
        ensures
            r@ == self.keys_at(number_position(target)),
    {
        let at: u64 = position_of_number(target);
        match self.tree.lookup(&at) {
            Some(set) => set.duplicate(),
            None => OrderedSet::new(),
        }
    }

    /// The keys at the positions from `lo` to `hi`.
    fn between(&self, lo: u64, hi: u64) -> (r: KeySet)
        ensures
            forall|k: KeyModel|
                r@.contains(k) <==> exists|t: int|
                    lo <= t <= hi && (#[trigger] self.keys_at(t)).contains(k),
    {
        proof {
            use_type_invariant(&self.tree);
            self.tree.lemma_pairs_ascending();
        }
        let ghost pairs = self.tree.pairs();
        let (_, start) = self.tree.locate(&lo);
        let mut out: KeySet = OrderedSet::new();
        let mut i: usize = start;
        proof {
            assert forall|j: int| 0 <= j < start implies (#[trigger] pairs[j]).0 < lo by {
                if start < pairs.len() && pairs[start as int].0 == lo {
                    assert(<u64 as Key>::before(pairs[j].0, pairs[start as int].0));
                } else {
                    assert(self.tree.entries@[j].0.deep_view() == pairs[j].0);
                }
            }
            assert forall|j: int| start <= j < pairs.len() implies (#[trigger] pairs[j]).0
                >= lo by {
                if pairs[start as int].0 == lo {
                    if j > start {
                        assert(<u64 as Key>::before(pairs[start as int].0, pairs[j].0));
                    }
                } else {
                    assert(self.tree.entries@[j].0.deep_view() == pairs[j].0);
                }
            }
        }
        while i < self.tree.len() && *self.tree.key_at(i) <= hi
            invariant
                start <= i <= pairs.len(),
                pairs == self.tree.pairs(),
                ascending::<u64, Set<KeyModel>>(pairs),
                forall|j: int| start <= j < i ==> (#[trigger] pairs[j]).0 <= hi,
                forall|k: KeyModel|
                    out@.contains(k) <==> exists|j: int|
                        start <= j < i && (#[trigger] pairs[j]).1.contains(k),
            decreases pairs.len() - i,
        {
            let ghost before = out@;
            let set = self.tree.value_at(i);
            out.extend(set);
            proof {
                assert forall|k: KeyModel|
                    out@.contains(k) <==> exists|j: int|
                        start <= j < i + 1 && (#[trigger] pairs[j]).1.contains(k) by {
                    if set@.contains(k) {
                        assert(pairs[i as int].1.contains(k));
                    }
                    if before.contains(k) {
                        let j = choose|j: int|
                            start <= j < i && (#[trigger] pairs[j]).1.contains(k);
                        assert(start <= j < i + 1 && pairs[j].1.contains(k));
                    }
                }
            }
            i += 1;
        }
        proof {
            assert forall|k: KeyModel|
                out@.contains(k) <==> exists|t: int|
                    lo <= t <= hi && (#[trigger] self.keys_at(t)).contains(k) by {
                if out@.contains(k) {
                    let j = choose|j: int| start <= j < i && (#[trigger] pairs[j]).1.contains(k);
                    lemma_map_of_at::<u64, Set<KeyModel>>(pairs, j);
                    let t = pairs[j].0 as int;
                    assert(self.keys_at(t) == pairs[j].1);
                }
                if exists|t: int| lo <= t <= hi && (#[trigger] self.keys_at(t)).contains(k) {
                    let t = choose|t: int|
                        lo <= t <= hi && (#[trigger] self.keys_at(t)).contains(k);
                    assert(has_key(pairs, t as u64));
                    let j = position_of(pairs, t as u64);
                    lemma_map_of_at::<u64, Set<KeyModel>>(pairs, j);
                    if j >= i {
                        if j > i {
                            assert(<u64 as Key>::before(pairs[i as int].0, pairs[j].0));
                        }
                    }
                    assert(start <= j < i);
                    assert(pairs[j].1.contains(k));
                }
            }
        }
        out
    }

    /// The keys whose number is greater than `threshold`.
    pub fn range_gt(&self, threshold: u64) -> (r: KeySet)
        ensures
            forall|k: KeyModel|
                r@.contains(k) <==> exists|t: int|
                    t > number_position(threshold) && (#[trigger] self.keys_at(t)).contains(k),
    {
        let at: u64 = position_of_number(threshold);
        if at == u64::MAX {
            return OrderedSet::new();
        }
        self.between(at + 1, u64::MAX)
    }

    /// The keys whose number is `threshold` or comes after it.
    pub fn range_gte(&self, threshold: u64) -> (r: KeySet)
        ensures
            forall|k: KeyModel|
                r@.contains(k) <==> exists|t: int|
                    t >= number_position(threshold) && (#[trigger] self.keys_at(t)).contains(k),
    {
        let at: u64 = position_of_number(threshold);
        self.between(at, u64::MAX)
    }

    /// The keys whose number comes before `threshold`.
    pub fn range_lt(&self, threshold: u64) -> (r: KeySet)
        ensures
            forall|k: KeyModel|
                r@.contains(k) <==> exists|t: int|
                    t < number_position(threshold) && (#[trigger] self.keys_at(t)).contains(k),
    {
        let at: u64 = position_of_number(threshold);
        if at == 0 {
            return OrderedSet::new();
        }
        self.between(0, at - 1)
    }

    /// The keys whose number is `threshold` or comes before it.
    pub fn range_lte(&self, threshold: u64) -> (r: KeySet)
        ensures
            forall|k: KeyModel|
                r@.contains(k) <==> exists|t: int|
                    t <= number_position(threshold) && (#[trigger] self.keys_at(t)).contains(k),
    {
        let at: u64 = position_of_number(threshold);
        self.between(0, at)
    }
}

/// An index with its contents.
pub enum PayloadIndexData {
    Keyword(KeywordIndex),
    Numeric(NumericIndex),
}

impl DeepView for PayloadIndexData {
    type V = PayloadIndexData;

    open spec fn deep_view(&self) -> PayloadIndexData {
        *self
    }
}

impl PayloadIndexData {
    pub open spec fn kind(self) -> PayloadIndexType {
        match self {
            PayloadIndexData::Keyword(_) => PayloadIndexType::Keyword,
            PayloadIndexData::Numeric(_) => PayloadIndexType::Numeric,
        }
    }

    /// Whether the index on `field` holds exactly what `records` say.
    pub open(crate) spec fn consistent(
        self,
        field: Seq<char>,
        records: Map<KeyModel, RecordModel>,
    ) -> bool {
        match self {
            PayloadIndexData::Keyword(kw) => kw.consistent(field, records),
            PayloadIndexData::Numeric(num) => num.consistent(field, records),
        }
    }

    /// An empty index.
    fn empty(kind: PayloadIndexType) -> (r: Self)
        ensures
            r.kind() == kind,
            forall|field: Seq<char>| #[trigger]
                r.consistent(field, Map::<KeyModel, RecordModel>::empty()),
    {
        match kind {
            PayloadIndexType::Keyword => PayloadIndexData::Keyword(KeywordIndex::new()),
            PayloadIndexType::Numeric => PayloadIndexData::Numeric(NumericIndex::new()),
        }
    }

    /// The kind of the index.
    pub fn index_type(&self) -> (r: PayloadIndexType)
        ensures
            r == self.kind(),
    {
        match self {
            PayloadIndexData::Keyword(_) => PayloadIndexType::Keyword,
            PayloadIndexData::Numeric(_) => PayloadIndexType::Numeric,
        }
    }

    /// Takes a record that is not indexed yet into the index.
    fn add(
        &mut self,
        field: &str,
        key: &RecordKey,
        metadata: &Metadata,
        Ghost(records): Ghost<Map<KeyModel, RecordModel>>,
    )
        requires
            old(self).consistent(field@, records),
            !records.contains_key(key.deep_view()),
        ensures
            final(self).kind() == old(self).kind(),
            forall|m: RecordModel|
                m.metadata == metadata.pairs() ==> #[trigger] final(self).consistent(
                    field@,
                    records.insert(key.deep_view(), m),
                ),
    {
        match self {
            PayloadIndexData::Keyword(kw) => {
                if let Some(MetadataValue::String(val)) = resolve_dot_path(metadata, field) {
                    kw.insert(val.as_str(), key.duplicate());
                }
            },
            PayloadIndexData::Numeric(num) => {
                if let Some(v) = resolve_dot_path(metadata, field) {
                    if let Some(n) = v.as_number() {
                        num.insert(n, key.duplicate());
                    }
                }
            },
        }
    }

    /// Takes a record out of the index.
    fn drop(
        &mut self,
        field: &str,
        key: &RecordKey,
        metadata: &Metadata,
        Ghost(records): Ghost<Map<KeyModel, RecordModel>>,
    )
        requires
            old(self).consistent(field@, records),
            records.contains_key(key.deep_view()),
            records[key.deep_view()].metadata == metadata.pairs(),
        ensures
            final(self).kind() == old(self).kind(),
            final(self).consistent(field@, records.remove(key.deep_view())),
    {
        match self {
            PayloadIndexData::Keyword(kw) => {
                if let Some(MetadataValue::String(val)) = resolve_dot_path(metadata, field) {
                    kw.remove(val.as_str(), key);
                }
            },
            PayloadIndexData::Numeric(num) => {
                if let Some(v) = resolve_dot_path(metadata, field) {
                    if let Some(n) = v.as_number() {
                        num.remove(n, key);
                    }
                }
            },
        }
    }
}

/// The indexes of a database by field.
pub struct PayloadIndexes {
    pub(crate) indexes: OrderedMap<String, PayloadIndexData>,
}

impl PayloadIndexes {
    /// The kind of each index by its field.
    pub open(crate) spec fn kinds(self) -> Map<Seq<char>, PayloadIndexType> {
        Map::new(
            |f: Seq<char>| self.indexes@.contains_key(f),
            |f: Seq<char>| self.indexes@[f].kind(),
        )
    }

    /// The fields in ascending order with the kinds of their indexes.
    pub open(crate) spec fn defs(self) -> Seq<(Seq<char>, PayloadIndexType)> {
        Seq::new(
            self.indexes.pairs().len(),
            |i: int| (self.indexes.pairs()[i].0, self.indexes.pairs()[i].1.kind()),
        )
    }

    /// Whether every index holds exactly what `records` say.
    pub open(crate) spec fn consistent(self, records: Map<KeyModel, RecordModel>) -> bool {
        forall|i: int|
            0 <= i < self.indexes.pairs().len() ==> (#[trigger] self.indexes.pairs()[i]).1.consistent(
                self.indexes.pairs()[i].0,
                records,
            )
    }

    proof fn lemma_consistent_at(self, field: Seq<char>, records: Map<KeyModel, RecordModel>)
        requires
            self.consistent(records),
            self.indexes@.contains_key(field),
        ensures
            self.indexes@[field].consistent(field, records),
    {
        let i = position_of(self.indexes.pairs(), field);
        assert(has_key(self.indexes.pairs(), field));
        assert(self.indexes.pairs()[i].0 == field);
    }

    /// Indexes depend on the metadata of records only.
    pub(crate) proof fn lemma_same_metadata(
        self,
        records: Map<KeyModel, RecordModel>,
        k: KeyModel,
        m: RecordModel,
    )
        requires
            self.consistent(records),
            records.contains_key(k),
            records[k].metadata == m.metadata,
        ensures
            self.consistent(records.insert(k, m)),
    {
        let after = records.insert(k, m);
        assert forall|i: int| 0 <= i < self.indexes.pairs().len() implies (
        #[trigger] self.indexes.pairs()[i]).1.consistent(self.indexes.pairs()[i].0, after) by {
            let field = self.indexes.pairs()[i].0;
            let data = self.indexes.pairs()[i].1;
            assert(data.consistent(field, records));
            match data {
                PayloadIndexData::Keyword(kw) => {
                    assert(kw.consistent(field, after));
                },
                PayloadIndexData::Numeric(num) => {
                    assert(num.consistent(field, after));
                },
            }
        }
    }

    /// The definitions are ascending and give the kinds.
    pub(crate) proof fn lemma_kinds(self)
        requires
            self.indexes.wf(),
        ensures
            ascending::<String, PayloadIndexType>(self.defs()),
            map_of(self.defs()) == self.kinds(),
    {
        self.indexes.lemma_pairs_ascending();
        let pairs = self.indexes.pairs();
        let defs = self.defs();
        assert forall|i: int, j: int|
            #![trigger defs[i], defs[j]]
            0 <= i < j < defs.len() implies <String as Key>::before(defs[i].0, defs[j].0) by {
            assert(<String as Key>::before(pairs[i].0, pairs[j].0));
        }
        assert forall|f: Seq<char>| #[trigger] map_of(defs).contains_key(f)
            == self.kinds().contains_key(f) by {
            if has_key(defs, f) {
                let i = position_of(defs, f);
                assert(pairs[i].0 == f);
                assert(has_key(pairs, f));
            }
            if has_key(pairs, f) {
                let i = position_of(pairs, f);
                assert(defs[i].0 == f);
                assert(has_key(defs, f));
            }
        }
        assert forall|f: Seq<char>| #[trigger] map_of(defs).contains_key(f) implies map_of(defs)[f]
            == self.kinds()[f] by {
            let i = position_of(defs, f);
            lemma_map_of_at::<String, PayloadIndexData>(pairs, i);
        }
        assert(map_of(defs) =~= self.kinds());
    }

    /// No indexes.
    pub fn new() -> (r: Self)
        ensures
            r.defs() == Seq::<(Seq<char>, PayloadIndexType)>::empty(),
            r.kinds() == Map::<Seq<char>, PayloadIndexType>::empty(),
            forall|records: Map<KeyModel, RecordModel>| #[trigger] r.consistent(records),
    {
        let r = PayloadIndexes { indexes: OrderedMap::new() };
        proof {
            assert(r.defs() =~= Seq::<(Seq<char>, PayloadIndexType)>::empty());
            assert(r.kinds() =~= Map::<Seq<char>, PayloadIndexType>::empty());
        }
        r
    }

    /// Whether there is no index.
    pub fn is_empty(&self) -> (r: bool)
        ensures
            r == (self.kinds() == Map::<Seq<char>, PayloadIndexType>::empty()),
            r == (self.defs().len() == 0),
    {
        let r = self.indexes.is_empty();
        proof {
            if r {
                assert(self.kinds() =~= Map::<Seq<char>, PayloadIndexType>::empty());
            } else {
                let f = self.indexes.pairs()[0].0;
                assert(has_key(self.indexes.pairs(), f));
                assert(self.kinds().contains_key(f));
            }
        }
        r
    }

    /// Whether there is an index on `field`.
    pub fn has_field(&self, field: &str) -> (r: bool)
        ensures
            r == self.kinds().contains_key(field@),
    {
        self.indexes.contains_key(field)
    }

    /// The fields and the kinds of their indexes.
    pub fn list(&self) -> (r: Vec<(String, PayloadIndexType)>)
        ensures
            r@.len() == self.defs().len(),
            forall|i: int|
                0 <= i < r@.len() ==> (#[trigger] r@[i]).0@ == self.defs()[i].0 && r@[i].1
                    == self.defs()[i].1,
    {
        let mut out: Vec<(String, PayloadIndexType)> = Vec::new();
        let mut i: usize = 0;
        while i < self.indexes.len()
            invariant
                i <= self.indexes.pairs().len(),
                out@.len() == i,
                forall|j: int|
                    0 <= j < i ==> (#[trigger] out@[j]).0@ == self.defs()[j].0 && out@[j].1
                        == self.defs()[j].1,
            decreases self.indexes.pairs().len() - i,
        {
            out.push((self.indexes.key_at(i).clone(), self.indexes.value_at(i).index_type()));
            i += 1;
        }
        out
    }

    /// Takes a new record into every index.
    pub(crate) fn add_record(
        &mut self,
        key: &RecordKey,
        metadata: &Metadata,
        Ghost(records): Ghost<Map<KeyModel, RecordModel>>,
    )
        requires
            old(self).consistent(records),
            !records.contains_key(key.deep_view()),
        ensures
            final(self).defs() == old(self).defs(),
            final(self).kinds() == old(self).kinds(),
            forall|m: RecordModel|
                m.metadata == metadata.pairs() ==> #[trigger] final(self).consistent(
                    records.insert(key.deep_view(), m),
                ),
    {
        let ghost before = *self;
        proof {
            use_type_invariant(&self.indexes);
        }
        let mut i: usize = 0;
        while i < self.indexes.len()
            invariant
                i <= self.indexes.pairs().len(),
                self.indexes.pairs().len() == before.indexes.pairs().len(),
                !records.contains_key(key.deep_view()),
                forall|j: int|
                    0 <= j < self.indexes.pairs().len() ==> (#[trigger] self.indexes.pairs()[j]).0
                        == before.indexes.pairs()[j].0 && self.indexes.pairs()[j].1.kind()
                        == before.indexes.pairs()[j].1.kind(),
                forall|j: int, m: RecordModel|
                    0 <= j < i && m.metadata == metadata.pairs()
                        ==> #[trigger] self.indexes.pairs()[j].1.consistent(
                        self.indexes.pairs()[j].0,
                        records.insert(key.deep_view(), m),
                    ),
                forall|j: int|
                    i <= j < self.indexes.pairs().len() ==> (#[trigger] self.indexes.pairs()[
                        j
                    ]).1.consistent(self.indexes.pairs()[j].0, records),
            decreases self.indexes.pairs().len() - i,
        {
            let field = self.indexes.key_at(i).clone();
            let placeholder = PayloadIndexData::empty(PayloadIndexType::Keyword);
            let ghost start = self.indexes.pairs();
            let mut data = self.indexes.exchange(i, placeholder);
            proof {
                assert(start[i as int].1 == data);
            }
            data.add(field.as_str(), key, metadata, Ghost(records));
            self.indexes.exchange(i, data);
            proof {
                assert(self.indexes.pairs() =~= start.update(i as int, (field@, data)));
                assert forall|j: int, m: RecordModel|
                    0 <= j < i + 1 && m.metadata
                        == metadata.pairs() implies #[trigger] self.indexes.pairs()[j].1.consistent(
                    self.indexes.pairs()[j].0,
                    records.insert(key.deep_view(), m),
                ) by {
                    if j < i {
                        assert(self.indexes.pairs()[j] == start[j]);
                    } else {
                        assert(data.consistent(field@, records.insert(key.deep_view(), m)));
                    }
                }
            }
            i += 1;
        }
        proof {
            use_type_invariant(&self.indexes);
            self.lemma_same_defs(before);
        }
    }

    proof fn lemma_same_defs(self, before: PayloadIndexes)
        requires
            self.indexes.wf(),
            before.indexes.wf(),
            self.indexes.pairs().len() == before.indexes.pairs().len(),
            forall|j: int|
                0 <= j < self.indexes.pairs().len() ==> (#[trigger] self.indexes.pairs()[j]).0
                    == before.indexes.pairs()[j].0 && self.indexes.pairs()[j].1.kind()
                    == before.indexes.pairs()[j].1.kind(),
        ensures
            self.defs() == before.defs(),
            self.kinds() == before.kinds(),
    {
        assert(self.defs() =~= before.defs());
        let a = self.indexes.pairs();
        let b = before.indexes.pairs();
        assert forall|f: Seq<char>| has_key(a, f) == has_key(b, f) by {
            if has_key(a, f) {
                let i = position_of(a, f);
                assert(b[i].0 == f);
            }
            if has_key(b, f) {
                let i = position_of(b, f);
                assert(a[i].0 == f);
            }
        }
        self.indexes.lemma_pairs_ascending();
        before.indexes.lemma_pairs_ascending();
        assert forall|f: Seq<char>| has_key(a, f) implies map_of(a)[f].kind()
            == #[trigger] map_of(b)[f].kind() by {
            let i = position_of(a, f);
            lemma_map_of_at::<String, PayloadIndexData>(a, i);
            assert(b[i].0 == f);
            lemma_map_of_at::<String, PayloadIndexData>(b, i);
        }
        assert(self.kinds() =~= before.kinds());
    }

    /// Takes a record out of every index.
    pub(crate) fn drop_record(
        &mut self,
        key: &RecordKey,
        metadata: &Metadata,
        Ghost(records): Ghost<Map<KeyModel, RecordModel>>,
    )
        requires
            old(self).consistent(records),
            records.contains_key(key.deep_view()),
            records[key.deep_view()].metadata == metadata.pairs(),
        ensures
            final(self).defs() == old(self).defs(),
            final(self).kinds() == old(self).kinds(),
            final(self).consistent(records.remove(key.deep_view())),
    {
        let ghost before = *self;
        proof {
            use_type_invariant(&self.indexes);
        }
        let mut i: usize = 0;
        while i < self.indexes.len()
            invariant
                i <= self.indexes.pairs().len(),
                self.indexes.pairs().len() == before.indexes.pairs().len(),
                records.contains_key(key.deep_view()),
                records[key.deep_view()].metadata == metadata.pairs(),
                forall|j: int|
                    0 <= j < self.indexes.pairs().len() ==> (#[trigger] self.indexes.pairs()[j]).0
                        == before.indexes.pairs()[j].0 && self.indexes.pairs()[j].1.kind()
                        == before.indexes.pairs()[j].1.kind(),
                forall|j: int|
                    0 <= j < i ==> (#[trigger] self.indexes.pairs()[j]).1.consistent(
                        self.indexes.pairs()[j].0,
                        records.remove(key.deep_view()),
                    ),
                forall|j: int|
                    i <= j < self.indexes.pairs().len() ==> (#[trigger] self.indexes.pairs()[
                        j
                    ]).1.consistent(self.indexes.pairs()[j].0, records),
            decreases self.indexes.pairs().len() - i,
        {
            let field = self.indexes.key_at(i).clone();
            let placeholder = PayloadIndexData::empty(PayloadIndexType::Keyword);
            let ghost start = self.indexes.pairs();
            let mut data = self.indexes.exchange(i, placeholder);
            proof {
                assert(start[i as int].1 == data);
            }
            data.drop(field.as_str(), key, metadata, Ghost(records));
            self.indexes.exchange(i, data);
            proof {
                assert(self.indexes.pairs() =~= start.update(i as int, (field@, data)));
            }
            i += 1;
        }
        proof {
            use_type_invariant(&self.indexes);
            self.lemma_same_defs(before);
        }
    }
}

impl PayloadIndexes {
    fn build(field: &str, kind: PayloadIndexType, records: &Records) -> (r: PayloadIndexData)
        ensures
            r.kind() == kind,
            r.consistent(field@, records@),
    {
        proof {
            use_type_invariant(records);
            records.lemma_pairs_ascending();
        }
        let ghost pairs = records.pairs();
        let mut data = PayloadIndexData::empty(kind);
        let mut i: usize = 0;
        proof {
            assert(map_of(pairs.take(0)) =~= Map::<KeyModel, RecordModel>::empty());
        }
        while i < records.len()
            invariant
                i <= pairs.len(),
                pairs == records.pairs(),
                ascending::<(String, String), RecordModel>(pairs),
                data.kind() == kind,
                data.consistent(field@, map_of(pairs.take(i as int))),
            decreases pairs.len() - i,
        {
            let record = records.value_at(i);
            proof {
                lemma_map_of_take::<(String, String), RecordModel>(pairs, i as int);
            }
            data.add(
                field,
                records.key_at(i),
                &record.metadata,
                Ghost(map_of(pairs.take(i as int))),
            );
            proof {
                let m = pairs[i as int].1;
                assert(m.metadata == record.metadata.pairs());
                assert(data.consistent(
                    field@,
                    map_of(pairs.take(i as int)).insert(pairs[i as int].0, m),
                ));
            }
            i += 1;
        }
        proof {
            assert(pairs.take(i as int) =~= pairs);
        }
        data
    }

    /// Creates or replaces the index on `field`.
    pub(crate) fn create(&mut self, field: &str, kind: PayloadIndexType, records: &Records)
        requires
            old(self).consistent(records@),
        ensures
            final(self).consistent(records@),
            final(self).kinds() == old(self).kinds().insert(field@, kind),
    {
        let data = PayloadIndexes::build(field, kind, records);
        let ghost before = *self;
        proof {
            use_type_invariant(&self.indexes);
            self.indexes.lemma_pairs_ascending();
        }
        self.indexes.insert(field.to_owned(), data);
        proof {
            use_type_invariant(&self.indexes);
            self.indexes.lemma_pairs_ascending();
            assert(self.kinds() =~= before.kinds().insert(field@, kind));
            let pairs = self.indexes.pairs();
            assert forall|i: int| 0 <= i < pairs.len() implies (#[trigger] pairs[i]).1.consistent(
                pairs[i].0,
                records@,
            ) by {
                lemma_map_of_at::<String, PayloadIndexData>(pairs, i);
                if pairs[i].0 != field@ {
                    before.lemma_consistent_at(pairs[i].0, records@);
                }
            }
        }
    }

    /// Removes the index on `field`.
    pub(crate) fn delete(&mut self, field: &str, Ghost(records): Ghost<Map<KeyModel, RecordModel>>)
        requires
            old(self).consistent(records),
        ensures
            final(self).consistent(records),
            final(self).kinds() == old(self).kinds().remove(field@),
    {
        let ghost before = *self;
        proof {
            use_type_invariant(&self.indexes);
            self.indexes.lemma_pairs_ascending();
        }
        self.indexes.remove(field);
        proof {
            use_type_invariant(&self.indexes);
            self.indexes.lemma_pairs_ascending();
            assert(self.kinds() =~= before.kinds().remove(field@));
            let pairs = self.indexes.pairs();
            assert forall|i: int| 0 <= i < pairs.len() implies (#[trigger] pairs[i]).1.consistent(
                pairs[i].0,
                records,
            ) by {
                lemma_map_of_at::<String, PayloadIndexData>(pairs, i);
                before.lemma_consistent_at(pairs[i].0, records);
            }
        }
    }
}

/// Whether a key is in a namespace, where one is given.
pub open spec fn key_in(namespace: Option<Seq<char>>, k: KeyModel) -> bool {
    match namespace {
        Some(n) => k.0 == n,
        None => true,
    }
}

/// The keys in a namespace of the records whose keyword field has the text `s`.
pub open spec fn keyed_by_text(
    records: Map<KeyModel, RecordModel>,
    namespace: Option<Seq<char>>,
    field: Seq<char>,
    s: Seq<char>,
) -> Set<KeyModel> {
    Set::new(
        |k: KeyModel|
            records.contains_key(k) && key_in(namespace, k) && indexed_text(records[k], field)
                == Some(s),
    )
}

/// The keys in a namespace of the records whose numeric field is at a position from `lo` to `hi`.
pub open spec fn keyed_by_number(
    records: Map<KeyModel, RecordModel>,
    namespace: Option<Seq<char>>,
    field: Seq<char>,
    lo: int,
    hi: int,
) -> Set<KeyModel> {
    Set::new(
        |k: KeyModel|
            records.contains_key(k) && key_in(namespace, k) && (indexed_number(
                records[k],
                field,
            ) matches Some(t) && lo <= t <= hi),
    )
}

/// Whether values are all texts.
pub open spec fn all_texts(values: Seq<ValueModel>) -> bool {
    forall|i: int| 0 <= i < values.len() ==> (#[trigger] values[i]) is Text
}

/// The keys that indexes of the given kinds single out for a filter; `None` where they do not
/// help. A conjunction takes what its helped parts have in common, a disjunction needs all parts
/// helped.
pub open(crate) spec fn candidates(
    kinds: Map<Seq<char>, PayloadIndexType>,
    records: Map<KeyModel, RecordModel>,
    filter: MetadataFilter,
    namespace: Option<Seq<char>>,
) -> Option<Set<KeyModel>>
    decreases filter,
{
    match filter {
        MetadataFilter::Eq { key, value } => if !kinds.contains_key(key@) {
            None
        } else {
            match (kinds[key@], value@) {
                (PayloadIndexType::Keyword, ValueModel::Text(s)) => Some(
                    keyed_by_text(records, namespace, key@, s),
                ),
                (PayloadIndexType::Numeric, v) => match number_of(v) {
                    Some(n) => Some(
                        keyed_by_number(
                            records,
                            namespace,
                            key@,
                            number_position(n),
                            number_position(n),
                        ),
                    ),
                    None => None,
                },
                _ => None,
            }
        },
        MetadataFilter::In { key, values } => if kinds.contains_key(key@) && kinds[key@]
            == PayloadIndexType::Keyword && all_texts(values.deep_view()) {
            Some(
                Set::new(
                    |k: KeyModel|
                        exists|i: int|
                            0 <= i < values.deep_view().len() && keyed_by_text(
                                records,
                                namespace,
                                key@,
                                (#[trigger] values.deep_view()[i])->Text_0,
                            ).contains(k),
                ),
            )
        } else {
            None
        },
        MetadataFilter::GreaterThan { key, value } => if kinds.contains_key(key@) && kinds[key@]
            == PayloadIndexType::Numeric {
            Some(
                keyed_by_number(
                    records,
                    namespace,
                    key@,
                    number_position(value) + 1,
                    u64::MAX as int,
                ),
            )
        } else {
            None
        },
        MetadataFilter::GreaterThanOrEqual { key, value } => if kinds.contains_key(key@)
            && kinds[key@] == PayloadIndexType::Numeric {
            Some(
                keyed_by_number(
                    records,
                    namespace,
                    key@,
                    number_position(value),
                    u64::MAX as int,
                ),
            )
        } else {
            None
        },
        MetadataFilter::LessThan { key, value } => if kinds.contains_key(key@) && kinds[key@]
            == PayloadIndexType::Numeric {
            Some(keyed_by_number(records, namespace, key@, 0, number_position(value) - 1))
        } else {
            None
        },
        MetadataFilter::LessThanOrEqual { key, value } => if kinds.contains_key(key@) && kinds[key@]
            == PayloadIndexType::Numeric {
            Some(keyed_by_number(records, namespace, key@, 0, number_position(value)))
        } else {
            None
        },
        MetadataFilter::And(filters) => if exists|i: int|
            0 <= i < filters@.len() && candidates(
                kinds,
                records,
                #[trigger] filters@[i],
                namespace,
            ) is Some {
            Some(
                Set::new(
                    |k: KeyModel|
                        forall|i: int|
                            0 <= i < filters@.len() ==> (candidates(
                                kinds,
                                records,
                                #[trigger] filters@[i],
                                namespace,
                            ) matches Some(s) ==> s.contains(k)),
                ),
            )
        } else {
            None
        },
        MetadataFilter::Or(filters) => if forall|i: int|
            0 <= i < filters@.len() ==> candidates(
                kinds,
                records,
                #[trigger] filters@[i],
                namespace,
            ) is Some {
            Some(
                Set::new(
                    |k: KeyModel|
                        exists|i: int|
                            0 <= i < filters@.len() && (candidates(
                                kinds,
                                records,
                                #[trigger] filters@[i],
                                namespace,
                            ) matches Some(s) && s.contains(k)),
                ),
            )
        } else {
            None
        },
        _ => None,
    }
}

/// Keeps the keys of a namespace, where one is given.
fn filter_by_namespace(keys: KeySet, namespace: Option<&str>) -> (r: KeySet)
    ensures
        forall|k: KeyModel| #[trigger]
            r@.contains(k) <==> keys@.contains(k) && key_in(opt_text(namespace), k),
{
    match namespace {
        None => keys,
        Some(ns) => {
            let mut out: KeySet = OrderedSet::new();
            let mut i: usize = 0;
            while i < keys.len()
                invariant
                    i <= keys.items().len(),
                    forall|k: KeyModel|
                        out@.contains(k) <==> k.0 == ns@ && exists|j: int|
                            0 <= j < i && #[trigger] keys.items()[j] == k,
                decreases keys.items().len() - i,
            {
                let ghost before = out@;
                let key = keys.at(i);
                let keep: bool = same_text(key.0.as_str(), ns);
                if keep {
                    out.add(key.duplicate());
                }
                proof {
                    assert forall|k: KeyModel|
                        out@.contains(k) <==> k.0 == ns@ && exists|j: int|
                            0 <= j < i + 1 && #[trigger] keys.items()[j] == k by {
                        if k == key.deep_view() {
                            assert(keys.items()[i as int] == k);
                        } else if exists|j: int| 0 <= j < i + 1 && #[trigger] keys.items()[j] == k {
                            let j = choose|j: int|
                                0 <= j < i + 1 && #[trigger] keys.items()[j] == k;
                            assert(j < i);
                        }
                    }
                }
                i += 1;
            }
            proof {
                assert forall|k: KeyModel| out@.contains(k) <==> keys@.contains(k) && k.0 == ns@ by {
                    if keys@.contains(k) {
                        keys.lemma_position(k);
                    }
                    if exists|j: int| 0 <= j < i && #[trigger] keys.items()[j] == k {
                        let j = choose|j: int| 0 <= j < i && #[trigger] keys.items()[j] == k;
                        assert(has_key(keys.map.pairs(), keys.map.pairs()[j].0));
                    }
                }
            }
            out
        },
    }
}

/// The mathematical value of an optional text.
pub open spec fn opt_text(s: Option<&str>) -> Option<Seq<char>> {
    match s {
        Some(t) => Some(t@),
        None => None,
    }
}

fn texts_of(values: &Vec<MetadataValue>) -> (r: Option<Vec<String>>)
    ensures
        r is Some == all_texts(values.deep_view()),
        r matches Some(t) ==> t@.len() == values@.len() && forall|i: int|
            0 <= i < t@.len() ==> ValueModel::Text((#[trigger] t@[i])@) == values.deep_view()[i],
{
    let mut out: Vec<String> = Vec::new();
    let mut i: usize = 0;
    while i < values.len()
        invariant
            i <= values@.len(),
            out@.len() == i,
            forall|j: int|
                0 <= j < i ==> ValueModel::Text((#[trigger] out@[j])@) == values.deep_view()[j],
        decreases values@.len() - i,
    {
        match &values[i] {
            MetadataValue::String(s) => {
                out.push(s.clone());
            },
            _ => {
                proof {
                    assert(!(values.deep_view()[i as int] is Text));
                }
                return None;
            },
        }
        i += 1;
    }
    proof {
        assert forall|j: int| 0 <= j < values.deep_view().len() implies (
        #[trigger] values.deep_view()[j]) is Text by {
            assert(ValueModel::Text(out@[j]@) == values.deep_view()[j]);
        }
    }
    Some(out)
}

/// What a numeric index holds, as a set of keys.
proof fn lemma_number_range(
    num: NumericIndex,
    field: Seq<char>,
    records: Map<KeyModel, RecordModel>,
    lo: int,
    hi: int,
    set: Set<KeyModel>,
)
    requires
        num.consistent(field, records),
        forall|k: KeyModel|
            set.contains(k) <==> exists|t: int|
                lo <= t <= hi && (#[trigger] num.keys_at(t)).contains(k),
    ensures
        forall|k: KeyModel|
            set.contains(k) <==> keyed_by_number(records, None, field, lo, hi).contains(k),
{
    assert forall|k: KeyModel|
        set.contains(k) <==> keyed_by_number(records, None, field, lo, hi).contains(k) by {
        if set.contains(k) {
            let t = choose|t: int| lo <= t <= hi && (#[trigger] num.keys_at(t)).contains(k);
            assert(num.keys_at(t).contains(k));
        }
        if keyed_by_number(records, None, field, lo, hi).contains(k) {
            let t = indexed_number(records[k], field)->Some_0;
            assert(num.keys_at(t).contains(k));
        }
    }
}

impl PayloadIndexes {
    fn numeric_index(&self, field: &str, Ghost(records): Ghost<Map<KeyModel, RecordModel>>) -> (r:
        Option<&NumericIndex>)
        requires
            self.consistent(records),
        ensures
            r is Some == (self.kinds().contains_key(field@) && self.kinds()[field@]
                == PayloadIndexType::Numeric),
            r matches Some(num) ==> num.consistent(field@, records),
    {
        match self.indexes.get(field) {
            Some(PayloadIndexData::Numeric(num)) => {
                proof {
                    self.lemma_consistent_at(field@, records);
                }
                Some(num)
            },
            _ => None,
        }
    }

    fn keyword_index(&self, field: &str, Ghost(records): Ghost<Map<KeyModel, RecordModel>>) -> (r:
        Option<&KeywordIndex>)
        requires
            self.consistent(records),
        ensures
            r is Some == (self.kinds().contains_key(field@) && self.kinds()[field@]
                == PayloadIndexType::Keyword),
            r matches Some(kw) ==> kw.consistent(field@, records),
    {
        match self.indexes.get(field) {
            Some(PayloadIndexData::Keyword(kw)) => {
                proof {
                    self.lemma_consistent_at(field@, records);
                }
                Some(kw)
            },
            _ => None,
        }
    }

    /// The keys that the indexes single out for a filter.
    pub(crate) fn candidates_inner(
        &self,
        filter: &MetadataFilter,
        namespace: Option<&str>,
        Ghost(records): Ghost<Map<KeyModel, RecordModel>>,
    ) -> (r: Option<KeySet>)
        requires
            self.consistent(records),
        ensures
            match candidates(self.kinds(), records, *filter, opt_text(namespace)) {
                Some(s) => r matches Some(x) && x@ == s,
                None => r is None,
            },
        decreases filter,
    {
        let ghost ns = opt_text(namespace);
        let ghost expected = candidates(self.kinds(), records, *filter, ns);
        match filter {
            MetadataFilter::Eq { key, value } => {
                if let Some(kw) = self.keyword_index(key.as_str(), Ghost(records)) {
                    if let MetadataValue::String(s) = value {
                        let set = kw.lookup_eq(s.as_str());
                        let out = filter_by_namespace(set, namespace);
                        proof {
                            assert forall|k: KeyModel|
                                out@.contains(k) <==> expected->Some_0.contains(k) by {
                                assert(kw.keys_of(s@).contains(k) == set@.contains(k));
                            }
                            assert(out@ =~= expected->Some_0);
                        }
                        return Some(out);
                    }
                }
                if let Some(num) = self.numeric_index(key.as_str(), Ghost(records)) {
                    if let Some(v) = value.as_number() {
                        let set = num.lookup_eq(v);
                        let out = filter_by_namespace(set, namespace);
                        proof {
                            let t = number_position(v);
                            assert forall|k: KeyModel|
                                out@.contains(k) <==> expected->Some_0.contains(k) by {
                                assert(num.keys_at(t).contains(k) == set@.contains(k));
                            }
                            assert(out@ =~= expected->Some_0);
                        }
                        return Some(out);
                    }
                }
                None
            },
            MetadataFilter::In { key, values } => {
                if let Some(kw) = self.keyword_index(key.as_str(), Ghost(records)) {
                    if let Some(texts) = texts_of(values) {
                        let set = kw.lookup_in(&texts);
                        let out = filter_by_namespace(set, namespace);
                        proof {
                            let all = values.deep_view();
                            let want = expected->Some_0;
                            assert forall|k: KeyModel| out@.contains(k) <==> want.contains(k) by {
                                if out@.contains(k) {
                                    let i = choose|i: int|
                                        0 <= i < texts@.len() && kw.keys_of((#[trigger] texts@[i])@).contains(k);
                                    assert(keyed_by_text(
                                        records,
                                        ns,
                                        key@,
                                        all[i]->Text_0,
                                    ).contains(k));
                                }
                                if want.contains(k) {
                                    let i = choose|i: int|
                                        0 <= i < all.len() && keyed_by_text(
                                            records,
                                            ns,
                                            key@,
                                            (#[trigger] all[i])->Text_0,
                                        ).contains(k);
                                    assert(ValueModel::Text(texts@[i]@) == all[i]);
                                    assert(kw.keys_of(texts@[i]@).contains(k));
                                }
                            }
                            assert(out@ =~= want);
                        }
                        return Some(out);
                    }
                }
                None
            },
            MetadataFilter::GreaterThan { key, value } => {
                if let Some(num) = self.numeric_index(key.as_str(), Ghost(records)) {
                    let set = num.range_gt(*value);
                    proof {
                        assert(forall|t: int, k: KeyModel| t > u64::MAX ==> !(#[trigger] num.keys_at(t).contains(k)));
                        lemma_number_range(
                            *num,
                            key@,
                            records,
                            number_position(*value) + 1,
                            u64::MAX as int,
                            set@,
                        );
                    }
                    let out = filter_by_namespace(set, namespace);
                    proof {
                        assert(out@ =~= expected->Some_0);
                    }
                    return Some(out);
                }
                None
            },
            MetadataFilter::GreaterThanOrEqual { key, value } => {
                if let Some(num) = self.numeric_index(key.as_str(), Ghost(records)) {
                    let set = num.range_gte(*value);
                    proof {
                        assert(forall|t: int, k: KeyModel| t > u64::MAX ==> !(#[trigger] num.keys_at(t).contains(k)));
                        lemma_number_range(
                            *num,
                            key@,
                            records,
                            number_position(*value),
                            u64::MAX as int,
                            set@,
                        );
                    }
                    let out = filter_by_namespace(set, namespace);
                    proof {
                        assert(out@ =~= expected->Some_0);
                    }
                    return Some(out);
                }
                None
            },
            MetadataFilter::LessThan { key, value } => {
                if let Some(num) = self.numeric_index(key.as_str(), Ghost(records)) {
                    let set = num.range_lt(*value);
                    proof {
                        assert(forall|t: int, k: KeyModel| t < 0 ==> !(#[trigger] num.keys_at(t).contains(k)));
                        lemma_number_range(
                            *num,
                            key@,
                            records,
                            0,
                            number_position(*value) - 1,
                            set@,
                        );
                    }
                    let out = filter_by_namespace(set, namespace);
                    proof {
                        assert(out@ =~= expected->Some_0);
                    }
                    return Some(out);
                }
                None
            },
            MetadataFilter::LessThanOrEqual { key, value } => {
                if let Some(num) = self.numeric_index(key.as_str(), Ghost(records)) {
                    let set = num.range_lte(*value);
                    proof {
                        assert(forall|t: int, k: KeyModel| t < 0 ==> !(#[trigger] num.keys_at(t).contains(k)));
                        lemma_number_range(*num, key@, records, 0, number_position(*value), set@);
                    }
                    let out = filter_by_namespace(set, namespace);
                    proof {
                        assert(out@ =~= expected->Some_0);
                    }
                    return Some(out);
                }
                None
            },
            MetadataFilter::And(filters) => {
                let mut result: Option<KeySet> = None;
                let mut i: usize = 0;
                while i < filters.len()
                    invariant
                        i <= filters@.len(),
                        *filter == MetadataFilter::And(*filters),
                        self.consistent(records),
                        ns == opt_text(namespace),
                        result is Some <==> exists|j: int|
                            0 <= j < i && candidates(
                                self.kinds(),
                                records,
                                #[trigger] filters@[j],
                                ns,
                            ) is Some,
                        result matches Some(set) ==> forall|k: KeyModel|
                            set@.contains(k) <==> forall|j: int|
                                0 <= j < i ==> (candidates(
                                    self.kinds(),
                                    records,
                                    #[trigger] filters@[j],
                                    ns,
                                ) matches Some(s) ==> s.contains(k)),
                    decreases filters@.len() - i,
                {
                    let sub = &filters[i];
                    proof {
                        assert(decreases_to!(*filter => filter->And_0@[i as int]));
                    }
                    let ghost before = result;
                    if let Some(sub_set) = self.candidates_inner(sub, namespace, Ghost(records)) {
                        result = Some(
                            match result {
                                Some(existing) => existing.intersection(&sub_set),
                                None => sub_set,
                            },
                        );
                        proof {
                            assert(candidates(self.kinds(), records, filters@[i as int], ns)
                                is Some);
                            let set = result->Some_0;
                            assert forall|k: KeyModel|
                                set@.contains(k) <==> forall|j: int|
                                    0 <= j < i + 1 ==> (candidates(
                                        self.kinds(),
                                        records,
                                        #[trigger] filters@[j],
                                        ns,
                                    ) matches Some(s) ==> s.contains(k)) by {
                                if set@.contains(k) {
                                    assert forall|j: int| 0 <= j < i + 1 implies (candidates(
                                        self.kinds(),
                                        records,
                                        #[trigger] filters@[j],
                                        ns,
                                    ) matches Some(s) ==> s.contains(k)) by {
                                        if j < i && before is Some {
                                            assert(before->Some_0@.contains(k));
                                        }
                                    }
                                }
                                if forall|j: int|
                                    0 <= j < i + 1 ==> (candidates(
                                        self.kinds(),
                                        records,
                                        #[trigger] filters@[j],
                                        ns,
                                    ) matches Some(s) ==> s.contains(k)) {
                                    assert(sub_set@.contains(k)) by {
                                        assert(filters@[i as int] == *sub);
                                    }
                                }
                            }
                        }
                    }
                    i += 1;
                }
                proof {
                    if result is Some {
                        assert(result->Some_0@ =~= expected->Some_0);
                    }
                }
                result
            },
            MetadataFilter::Or(filters) => {
                let mut result: KeySet = OrderedSet::new();
                let mut i: usize = 0;
                while i < filters.len()
                    invariant
                        i <= filters@.len(),
                        *filter == MetadataFilter::Or(*filters),
                        self.consistent(records),
                        ns == opt_text(namespace),
                        forall|j: int|
                            0 <= j < i ==> candidates(
                                self.kinds(),
                                records,
                                #[trigger] filters@[j],
                                ns,
                            ) is Some,
                        forall|k: KeyModel|
                            result@.contains(k) <==> exists|j: int|
                                0 <= j < i && (candidates(
                                    self.kinds(),
                                    records,
                                    #[trigger] filters@[j],
                                    ns,
                                ) matches Some(s) && s.contains(k)),
                    decreases filters@.len() - i,
                {
                    let sub = &filters[i];
                    proof {
                        assert(decreases_to!(*filter => filter->Or_0@[i as int]));
                    }
                    let ghost before = result@;
                    match self.candidates_inner(sub, namespace, Ghost(records)) {
                        Some(sub_set) => {
                            result.extend(&sub_set);
                            proof {
                                assert forall|k: KeyModel|
                                    result@.contains(k) <==> exists|j: int|
                                        0 <= j < i + 1 && (candidates(
                                            self.kinds(),
                                            records,
                                            #[trigger] filters@[j],
                                            ns,
                                        ) matches Some(s) && s.contains(k)) by {
                                    if before.contains(k) {
                                        let j = choose|j: int|
                                            0 <= j < i && (candidates(
                                                self.kinds(),
                                                records,
                                                #[trigger] filters@[j],
                                                ns,
                                            ) matches Some(s) && s.contains(k));
                                        assert(0 <= j < i + 1 && filters@[j] == filters@[j]);
                                    }
                                    if sub_set@.contains(k) {
                                        assert(filters@[i as int] == *sub);
                                    }
                                }
                            }
                        },
                        None => {
                            return None;
                        },
                    }
                    i += 1;
                }
                proof {
                    assert(result@ =~= expected->Some_0);
                }
                Some(result)
            },
            _ => None,
        }
    }

    /// The keys that the indexes single out for a filter; `None` where they do not help.
    pub(crate) fn candidates(
        &self,
        filter: &MetadataFilter,
        namespace: Option<&str>,
        Ghost(records): Ghost<Map<KeyModel, RecordModel>>,
    ) -> (r: Option<KeySet>)
        requires
            self.consistent(records),
        ensures
            match index_candidates(self.kinds(), records, *filter, opt_text(namespace)) {
                Some(s) => r matches Some(x) && x@ == s,
                None => r is None,
            },
    {
        if self.is_empty() {
            return None;
        }
        self.candidates_inner(filter, namespace, Ghost(records))
    }
}

/// The keys that indexes single out for a filter: nothing where there is no index at all.
pub open(crate) spec fn index_candidates(
    kinds: Map<Seq<char>, PayloadIndexType>,
    records: Map<KeyModel, RecordModel>,
    filter: MetadataFilter,
    namespace: Option<Seq<char>>,
) -> Option<Set<KeyModel>> {
    if kinds == Map::<Seq<char>, PayloadIndexType>::empty() {
        None
    } else {
        candidates(kinds, records, filter, namespace)
    }
}

/// Indexes never hide a match: a record of the namespace that satisfies the filter is among the
/// keys that they single out.
pub proof fn law_candidates_complete(
    kinds: Map<Seq<char>, PayloadIndexType>,
    records: Map<KeyModel, RecordModel>,
    filter: MetadataFilter,
    namespace: Option<Seq<char>>,
    k: KeyModel,
)
    requires
        records.contains_key(k),
        key_in(namespace, k),
        accepts(filter, records[k].metadata),
    ensures
        candidates(kinds, records, filter, namespace) matches Some(s) ==> s.contains(k),
    decreases filter,
{
    let m = records[k];
    match filter {
        MetadataFilter::In { key, values } => {
            if kinds.contains_key(key@) && kinds[key@] == PayloadIndexType::Keyword && all_texts(
                values.deep_view(),
            ) {
                let all = values.deep_view();
                let v = resolve(m.metadata, key@)->Some_0;
                let i = choose|i: int| 0 <= i < all.len() && values_equal(#[trigger] all[i], v);
                assert(keyed_by_text(records, namespace, key@, all[i]->Text_0).contains(k));
            }
        },
        MetadataFilter::And(filters) => {
            reveal_with_fuel(accepts, 2);
            reveal_with_fuel(candidates, 2);
            assert forall|i: int| 0 <= i < filters@.len() implies (candidates(
                kinds,
                records,
                #[trigger] filters@[i],
                namespace,
            ) matches Some(s) ==> s.contains(k)) by {
                assert(decreases_to!(filter => filter->And_0@[i]));
                law_candidates_complete(kinds, records, filters@[i], namespace, k);
            }
        },
        MetadataFilter::Or(filters) => {
            reveal_with_fuel(accepts, 2);
            reveal_with_fuel(candidates, 2);
            let i = choose|i: int|
                0 <= i < filters@.len() && accepts(#[trigger] filters@[i], m.metadata);
            assert(decreases_to!(filter => filter->Or_0@[i]));
            law_candidates_complete(kinds, records, filters@[i], namespace, k);
        },
        _ => {},
    }
}

/// The tag byte of a kind of index.
pub open spec fn index_tag(kind: PayloadIndexType) -> u8 {
    match kind {
        PayloadIndexType::Keyword => 1,
        PayloadIndexType::Numeric => 2,
    }
}

/// The kind of index with a tag byte.
pub open spec fn index_of_tag(tag: nat) -> Result<PayloadIndexType, Failure> {
    if tag == 1 {
        Ok(PayloadIndexType::Keyword)
    } else if tag == 2 {
        Ok(PayloadIndexType::Numeric)
    } else {
        Err(Failure::InvalidFormat("unknown payload index type tag: "@ + decimal(tag)))
    }
}

/// The name of a kind of index.
pub open spec fn index_name(kind: PayloadIndexType) -> Seq<char> {
    match kind {
        PayloadIndexType::Keyword => "keyword"@,
        PayloadIndexType::Numeric => "numeric"@,
    }
}

/// A text in quotes with its special characters escaped, as std's debug format writes it.
pub uninterp spec fn quoted_text(s: Seq<char>) -> Seq<char>;

/// Writes a text through the debug format of `str`, whose result depends on the text alone.
#[verifier::external_body]
fn quoted(s: &str) -> (r: String)
    ensures
        r@ == quoted_text(s@),
{
    format!("{:?}", s)
}

/// The kind of index that a name stands for; the case of ASCII letters does not matter.
pub open spec fn index_of_name(name: Seq<char>) -> Result<PayloadIndexType, Failure> {
    let lower = lower_text(name);
    if lower == "keyword"@ || lower == "string"@ || lower == "text"@ {
        Ok(PayloadIndexType::Keyword)
    } else if lower == "numeric"@ || lower == "number"@ || lower == "int"@ || lower == "float"@
        || lower == "integer"@ {
        Ok(PayloadIndexType::Numeric)
    } else {
        Err(Failure::InvalidFormat("unknown payload index type: "@ + quoted_text(name)))
    }
}

impl PayloadIndexType {
    /// The tag byte in the file format.
    pub fn tag(&self) -> (r: u8)
        ensures
            r == index_tag(*self),
    {
        match self {
            PayloadIndexType::Keyword => 1,
            PayloadIndexType::Numeric => 2,
        }
    }

    /// The kind with a tag byte.
    pub fn from_tag(tag: u8) -> (r: Result<PayloadIndexType, VectLiteError>)
        ensures
            match index_of_tag(tag as nat) {
                Ok(k) => r matches Ok(x) && x == k,
                Err(e) => r matches Err(x) && x@ == e,
            },
    {
        match tag {
            1 => Ok(PayloadIndexType::Keyword),
            2 => Ok(PayloadIndexType::Numeric),
            _ => {
                let d = decimal_text(tag as u64);
                Err(
                    VectLiteError::InvalidFormat(
                        concat2("unknown payload index type tag: ", d.as_str()),
                    ),
                )
            },
        }
    }

    /// The name of the kind.
    pub fn name(&self) -> (r: &'static str)
        ensures
            r@ == index_name(*self),
    {
        match self {
            PayloadIndexType::Keyword => "keyword",
            PayloadIndexType::Numeric => "numeric",
        }
    }

    /// The kind with a name or one of its aliases.
    pub fn from_name(name: &str) -> (r: Result<PayloadIndexType, VectLiteError>)
        ensures
            match index_of_name(name@) {
                Ok(k) => r matches Ok(x) && x == k,
                Err(e) => r matches Err(x) && x@ == e,
            },
    {
        if lowers_to(name, "keyword") || lowers_to(name, "string") || lowers_to(name, "text") {
            Ok(PayloadIndexType::Keyword)
        } else if lowers_to(name, "numeric") || lowers_to(name, "number") || lowers_to(name, "int")
            || lowers_to(name, "float") || lowers_to(name, "integer") {
            Ok(PayloadIndexType::Numeric)
        } else {
            let q = quoted(name);
            Err(
                VectLiteError::InvalidFormat(concat2("unknown payload index type: ", q.as_str())),
            )
        }
    }
}

/// The bytes of index definitions, each a field and a tag.
pub open spec fn enc_defs(defs: Seq<(Seq<char>, PayloadIndexType)>) -> Seq<u8>
    decreases defs.len(),
{
    if defs.len() == 0 {
        Seq::empty()
    } else {
        enc_text(defs[0].0) + le_bytes(index_tag(defs[0].1) as nat, 1) + enc_defs(
            defs.drop_first(),
        )
    }
}

/// The bytes of the file of index definitions.
pub open spec fn enc_def_file(defs: Seq<(Seq<char>, PayloadIndexType)>) -> Seq<u8> {
    le_bytes(defs.len(), 4) + enc_defs(defs)
}

/// Whether every length in index definitions fits its length field.
pub open spec fn defs_fit(defs: Seq<(Seq<char>, PayloadIndexType)>) -> bool {
    defs.len() <= 0xffff_ffff && forall|i: int|
        0 <= i < defs.len() ==> text_fits((#[trigger] defs[i]).0)
}

/// Reads `n` more index definitions into `acc`; `None` where one cannot be read.
pub open spec fn parse_defs(n: nat, acc: Seq<(Seq<char>, PayloadIndexType)>, b: Seq<u8>) -> Option<
    Seq<(Seq<char>, PayloadIndexType)>,
>
    decreases n,
{
    if n == 0 {
        Some(acc)
    } else {
        match parse_text(b) {
            Err(_) => None,
            Ok((field, b1)) => match parse_le(b1, 1) {
                Err(_) => None,
                Ok((tag, rest)) => match index_of_tag(tag) {
                    Err(_) => None,
                    Ok(kind) => parse_defs(
                        (n - 1) as nat,
                        insert_pair::<String, PayloadIndexType>(acc, field, kind),
                        rest,
                    ),
                },
            },
        }
    }
}

/// The index definitions of a file; `None` where the file cannot be read.
pub open spec fn parse_def_file(b: Seq<u8>) -> Option<Seq<(Seq<char>, PayloadIndexType)>> {
    match parse_le(b, 4) {
        Err(_) => None,
        Ok((n, rest)) => parse_defs(n, Seq::empty(), rest),
    }
}

proof fn lemma_defs_roundtrip(
    defs: Seq<(Seq<char>, PayloadIndexType)>,
    acc: Seq<(Seq<char>, PayloadIndexType)>,
)
    requires
        ascending::<String, PayloadIndexType>(acc + defs),
        forall|i: int| 0 <= i < defs.len() ==> text_fits((#[trigger] defs[i]).0),
    ensures
        parse_defs(defs.len(), acc, enc_defs(defs)) == Some(acc + defs),
    decreases defs.len(),
{
    if defs.len() == 0 {
        assert(acc + defs =~= acc);
    } else {
        lemma_pow256_values();
        let more = defs.drop_first();
        let (field, kind) = defs[0];
        let b1 = le_bytes(index_tag(kind) as nat, 1) + enc_defs(more);
        assert(enc_defs(defs) =~= enc_text(field) + b1);
        lemma_parse_text_roundtrip(field, b1);
        lemma_parse_le_roundtrip(index_tag(kind) as nat, 1, enc_defs(more));
        let all = acc + defs;
        assert forall|i: int| 0 <= i < acc.len() implies <String as Key>::before(
            (#[trigger] acc[i]).0,
            field,
        ) by {
            assert(all[i] == acc[i]);
            assert(all[acc.len() as int] == defs[0]);
        }
        lemma_insert_last::<String, PayloadIndexType>(acc, field, kind);
        assert forall|i: int| 0 <= i < more.len() implies text_fits((#[trigger] more[i]).0) by {
            assert(more[i] == defs[i + 1]);
        }
        assert(acc.push(defs[0]) + more =~= all);
        lemma_defs_roundtrip(more, acc.push(defs[0]));
    }
}

/// Written index definitions are read back.
pub proof fn law_defs_roundtrip(defs: Seq<(Seq<char>, PayloadIndexType)>)
    requires
        defs_fit(defs),
        ascending::<String, PayloadIndexType>(defs),
    ensures
        parse_def_file(enc_def_file(defs)) == Some(defs),
{
    lemma_pow256_values();
    lemma_parse_le_roundtrip(defs.len(), 4, enc_defs(defs));
    assert(Seq::<(Seq<char>, PayloadIndexType)>::empty() + defs =~= defs);
    lemma_defs_roundtrip(defs, Seq::empty());
}

impl PayloadIndexes {
    /// The bytes of the file of index definitions.
    pub fn encode_defs(&self) -> (r: Result<Vec<u8>, VectLiteError>)
        ensures
            defs_fit(self.defs()) ==> (r matches Ok(b) && b@ == enc_def_file(self.defs())),
            !defs_fit(self.defs()) ==> (r matches Err(e) && e@ == too_long()),
    {
        let ghost all = self.defs();
        let mut out: Vec<u8> = Vec::new();
        match write_len(&mut out, self.indexes.len()) {
            Ok(()) => {},
            Err(e) => {
                return Err(e);
            },
        }
        let ghost head = out@;
        let mut i: usize = 0;
        proof {
            assert(head =~= le_bytes(all.len(), 4));
            assert(all.skip(0) =~= all);
        }
        while i < self.indexes.len()
            invariant
                i <= all.len(),
                all == self.defs(),
                all.len() <= 0xffff_ffff,
                out@ + enc_defs(all.skip(i as int)) == head + enc_defs(all),
                forall|k: int| 0 <= k < i ==> text_fits((#[trigger] all[k]).0),
            decreases all.len() - i,
        {
            let ghost before = out@;
            match write_text(&mut out, self.indexes.key_at(i).as_str()) {
                Ok(()) => {},
                Err(e) => {
                    proof {
                        assert(!text_fits(all[i as int].0));
                    }
                    return Err(e);
                },
            }
            let tag: u8 = self.indexes.value_at(i).index_type().tag();
            write_le(&mut out, tag as u64, 1);
            proof {
                assert(all.skip(i as int).drop_first() =~= all.skip(i + 1));
                assert(before + (enc_text(all[i as int].0) + le_bytes(
                    index_tag(all[i as int].1) as nat,
                    1,
                ) + enc_defs(all.skip(i + 1))) =~= out@ + enc_defs(all.skip(i + 1)));
            }
            i += 1;
        }
        proof {
            assert(out@ + enc_defs(all.skip(i as int)) =~= out@);
        }
        Ok(out)
    }
}

/// Definitions of indexes by field.
pub type IndexDefs = OrderedMap<String, PayloadIndexType>;

impl DeepView for PayloadIndexType {
    type V = PayloadIndexType;

    open spec fn deep_view(&self) -> PayloadIndexType {
        *self
    }
}

/// Reads the file of index definitions.
pub fn decode_defs(bytes: &[u8]) -> (r: Option<IndexDefs>)
    ensures
        match parse_def_file(bytes@) {
            Some(defs) => r matches Some(x) && x.pairs() == defs,
            None => r is None,
        },
{
    let mut reader = Reader::new(bytes);
    let n: u32 = match reader.u32() {
        Ok(n) => n,
        Err(_) => {
            return None;
        },
    };
    let ghost from = reader.rest();
    let mut defs: IndexDefs = OrderedMap::new();
    let mut i: u32 = 0;
    while i < n
        invariant
            reader.wf(),
            i <= n,
            parse_defs((n - i) as nat, defs.pairs(), reader.rest()) == parse_defs(
                n as nat,
                Seq::empty(),
                from,
            ),
            parse_def_file(bytes@) == parse_defs(n as nat, Seq::empty(), from),
        decreases n - i,
    {
        let field = match reader.text() {
            Ok(s) => s,
            Err(_) => {
                return None;
            },
        };
        let tag: u8 = match reader.u8() {
            Ok(t) => t,
            Err(_) => {
                return None;
            },
        };
        match PayloadIndexType::from_tag(tag) {
            Ok(kind) => {
                defs.insert(field, kind);
            },
            Err(_) => {
                return None;
            },
        }
        i += 1;
    }
    Some(defs)
}

impl PayloadIndexes {
    /// Indexes of the given definitions over `records`.
    pub(crate) fn rebuild(defs: &IndexDefs, records: &Records) -> (r: PayloadIndexes)
        ensures
            r.consistent(records@),
            r.kinds() == defs@,
    {
        let mut out = PayloadIndexes::new();
        proof {
            use_type_invariant(defs);
            defs.lemma_pairs_ascending();
        }
        let ghost pairs = defs.pairs();
        let mut i: usize = 0;
        proof {
            assert(map_of(pairs.take(0)) =~= Map::<Seq<char>, PayloadIndexType>::empty());
        }
        while i < defs.len()
            invariant
                i <= pairs.len(),
                pairs == defs.pairs(),
                ascending::<String, PayloadIndexType>(pairs),
                out.consistent(records@),
                out.kinds() == map_of(pairs.take(i as int)),
            decreases pairs.len() - i,
        {
            proof {
                lemma_map_of_take::<String, PayloadIndexType>(pairs, i as int);
            }
            out.create(defs.key_at(i).as_str(), *defs.value_at(i), records);
            i += 1;
        }
        proof {
            assert(pairs.take(i as int) =~= pairs);
        }
        out
    }
}

} // verus!
