//! Records and their keys.
use vstd::prelude::*;
use crate::float_bits::{double_le, less_or_equal};
use crate::metadata::{Metadata, ValueModel};
use crate::order::{order_text, text_before, Duplicate, Key, Order};
use crate::ordered_map::OrderedMap;

verus! {

/// The weights of sparse terms, as single-precision bit patterns.
pub type SparseVector = OrderedMap<String, u32>;

/// Named dense vectors, as single-precision bit patterns.
pub type NamedVectors = OrderedMap<String, Vec<u32>>;

/// Named spaces of token vectors.
pub type MultiVectors = OrderedMap<String, Vec<Vec<u32>>>;

/// A namespace and an id.
pub type RecordKey = (String, String);

/// The mathematical value of a record key.
pub type KeyModel = (Seq<char>, Seq<char>);

/// A stored record. Floating-point numbers are bit patterns.
pub struct Record {
    pub namespace: String,
    pub id: String,
    pub vector: Vec<u32>,
    pub vectors: NamedVectors,
    pub sparse: SparseVector,
    pub metadata: Metadata,
    pub multi_vectors: MultiVectors,
    /// The time, in seconds since the epoch, from which on the record is expired.
    pub expires_at: Option<u64>,
}

/// The mathematical value of a record.
#[verifier::ext_equal]
pub struct RecordModel {
    pub namespace: Seq<char>,
    pub id: Seq<char>,
    pub vector: Seq<u32>,
    pub vectors: Seq<(Seq<char>, Seq<u32>)>,
    pub sparse: Seq<(Seq<char>, u32)>,
    pub metadata: Seq<(Seq<char>, ValueModel)>,
    pub multi_vectors: Seq<(Seq<char>, Seq<Seq<u32>>)>,
    pub expires_at: Option<u64>,
}

impl RecordModel {
    pub open spec fn key(self) -> KeyModel {
        (self.namespace, self.id)
    }

    /// Whether the record is expired at the time `now`.
    pub open spec fn expired(self, now: u64) -> bool {
        match self.expires_at {
            Some(t) => double_le(t, now),
            None => false,
        }
    }
}

impl DeepView for Record {
    type V = RecordModel;

    open spec fn deep_view(&self) -> RecordModel {
        RecordModel {
            namespace: self.namespace@,
            id: self.id@,
            vector: self.vector.deep_view(),
            vectors: self.vectors.deep_view(),
            sparse: self.sparse.deep_view(),
            metadata: self.metadata.deep_view(),
            multi_vectors: self.multi_vectors.deep_view(),
            expires_at: self.expires_at,
        }
    }
}

impl Duplicate for Record {
    fn duplicate(&self) -> (r: Self) {
        Record {
            namespace: self.namespace.duplicate(),
            id: self.id.duplicate(),
            vector: self.vector.duplicate(),
            vectors: self.vectors.duplicate(),
            sparse: self.sparse.duplicate(),
            metadata: self.metadata.duplicate(),
            multi_vectors: self.multi_vectors.duplicate(),
            expires_at: self.expires_at,
        }
    }
}

impl Record {
    pub open spec fn view(&self) -> RecordModel {
        self.deep_view()
    }

    /// The key of the record.
    pub fn key(&self) -> (r: RecordKey)
        ensures
            r.deep_view() == self@.key(),
    {
        (self.namespace.clone(), self.id.clone())
    }

    /// Whether the record is expired at the time `now`.
    pub fn is_expired_at(&self, now: u64) -> (r: bool)
        ensures
            r == self@.expired(now),
    {
        match self.expires_at {
            Some(t) => less_or_equal(t, now),
            None => false,
        }
    }

    /// The dense vector of a name; no name and the empty name stand for the main vector.
    pub fn vector_for(&self, vector_name: Option<&str>) -> (r: Option<&Vec<u32>>)
        ensures
            match vector_name {
                Some(name) if name@.len() > 0 => r is Some == self.vectors@.contains_key(name@)
                    && (r matches Some(v) ==> v.deep_view() == self.vectors@[name@]),
                _ => r == Some(&self.vector),
            },
    {
        match vector_name {
            Some(name) => {
                if name.is_empty() {
                    Some(&self.vector)
                } else {
                    self.vectors.get(name)
                }
            },
            None => Some(&self.vector),
        }
    }
}

/// The order of record keys: by namespace, then by id.
pub open spec fn key_before(a: KeyModel, b: KeyModel) -> bool {
    text_before(a.0, b.0) || (a.0 == b.0 && text_before(a.1, b.1))
}

impl Duplicate for (String, String) {
    fn duplicate(&self) -> (r: Self) {
        (self.0.clone(), self.1.clone())
    }
}

impl Key for (String, String) {
    open spec fn before(a: KeyModel, b: KeyModel) -> bool {
        key_before(a, b)
    }

    proof fn lemma_irreflexive(a: KeyModel) {
        <String as Key>::lemma_irreflexive(a.0);
        <String as Key>::lemma_irreflexive(a.1);
    }

    proof fn lemma_transitive(a: KeyModel, b: KeyModel, c: KeyModel) {
        if text_before(a.0, b.0) && text_before(b.0, c.0) {
            <String as Key>::lemma_transitive(a.0, b.0, c.0);
        }
        if text_before(a.1, b.1) && text_before(b.1, c.1) {
            <String as Key>::lemma_transitive(a.1, b.1, c.1);
        }
    }

    proof fn lemma_total(a: KeyModel, b: KeyModel) {
        <String as Key>::lemma_total(a.0, b.0);
        <String as Key>::lemma_total(a.1, b.1);
    }

    fn order(&self, other: &Self) -> (r: Order) {
        match order_text(self.0.as_str(), other.0.as_str()) {
            Order::Less => Order::Less,
            Order::Greater => Order::Greater,
            Order::Equal => order_text(self.1.as_str(), other.1.as_str()),
        }
    }
}

} // verus!
