//! Predicates on metadata.
use vstd::prelude::*;
use crate::float_bits::{double_le, double_lt, less, less_or_equal};
use crate::metadata::{
    lemma_list_view, lemma_map_view, number_of, resolve, resolve_dot_path, values_equal, Metadata,
    MetadataValue, ValueModel,
};
use crate::order::Duplicate;
use crate::ordered_map::OrderedMap;
use crate::text::{contains_text, occurs_in};

verus! {

#[allow(inconsistent_fields)]
/// A predicate on metadata. Keys are dot-separated paths; numbers are double bit patterns.
pub enum MetadataFilter {
    Eq { key: String, value: MetadataValue },
    NotEq { key: String, value: MetadataValue },
    In { key: String, values: Vec<MetadataValue> },
    NotIn { key: String, values: Vec<MetadataValue> },
    Contains { key: String, needle: String },
    GreaterThan { key: String, value: u64 },
    GreaterThanOrEqual { key: String, value: u64 },
    LessThan { key: String, value: u64 },
    LessThanOrEqual { key: String, value: u64 },
    Exists { key: String },
    /// Some element of a list satisfies `filter`.
    ElemMatch { key: String, filter: Box<MetadataFilter> },
    /// A list has exactly `size` elements.
    Size { key: String, size: usize },
    Not(Box<MetadataFilter>),
    And(Vec<MetadataFilter>),
    Or(Vec<MetadataFilter>),
}

/// Whether `values` holds a value equal to `v`.
pub open spec fn among(values: Seq<ValueModel>, v: ValueModel) -> bool {
    exists|i: int| 0 <= i < values.len() && values_equal(#[trigger] values[i], v)
}

/// The metadata that the element of a list stands for: the entries of a map, and any other value
/// under the key `_`.
pub open spec fn element_pairs(v: ValueModel) -> Seq<(Seq<char>, ValueModel)> {
    match v {
        ValueModel::Object(pairs) => pairs,
        _ => seq![("_"@, v)],
    }
}

/// Whether metadata satisfies a filter.
pub open(crate) spec fn accepts(filter: MetadataFilter, pairs: Seq<(Seq<char>, ValueModel)>) -> bool
    decreases filter,
{
    match filter {
        MetadataFilter::Eq { key, value } => match resolve(pairs, key@) {
            Some(v) => values_equal(v, value@),
            None => false,
        },
        MetadataFilter::NotEq { key, value } => match resolve(pairs, key@) {
            Some(v) => !values_equal(v, value@),
            None => false,
        },
        MetadataFilter::In { key, values } => match resolve(pairs, key@) {
            Some(v) => among(values.deep_view(), v),
            None => false,
        },
        MetadataFilter::NotIn { key, values } => match resolve(pairs, key@) {
            Some(v) => !among(values.deep_view(), v),
            None => false,
        },
        MetadataFilter::Contains { key, needle } => match resolve(pairs, key@) {
            Some(ValueModel::Text(s)) => occurs_in(needle@, s),
            _ => false,
        },
        MetadataFilter::GreaterThan { key, value } => match numeric_at(pairs, key@) {
            Some(n) => double_lt(value, n),
            None => false,
        },
        MetadataFilter::GreaterThanOrEqual { key, value } => match numeric_at(pairs, key@) {
            Some(n) => double_le(value, n),
            None => false,
        },
        MetadataFilter::LessThan { key, value } => match numeric_at(pairs, key@) {
            Some(n) => double_lt(n, value),
            None => false,
        },
        MetadataFilter::LessThanOrEqual { key, value } => match numeric_at(pairs, key@) {
            Some(n) => double_le(n, value),
            None => false,
        },
        MetadataFilter::Exists { key } => resolve(pairs, key@) is Some,
        MetadataFilter::ElemMatch { key, filter } => match resolve(pairs, key@) {
            Some(ValueModel::List(items)) => exists|i: int|
                0 <= i < items.len() && accepts(*filter, element_pairs(#[trigger] items[i])),
            _ => false,
        },
        MetadataFilter::Size { key, size } => match resolve(pairs, key@) {
            Some(ValueModel::List(items)) => items.len() == size,
            _ => false,
        },
        MetadataFilter::Not(inner) => !accepts(*inner, pairs),
        MetadataFilter::And(filters) => forall|i: int|
            0 <= i < filters@.len() ==> accepts(#[trigger] filters@[i], pairs),
        MetadataFilter::Or(filters) => exists|i: int|
            0 <= i < filters@.len() && accepts(#[trigger] filters@[i], pairs),
    }
}

/// The number that a key names.
pub open spec fn numeric_at(pairs: Seq<(Seq<char>, ValueModel)>, key: Seq<char>) -> Option<u64> {
    match resolve(pairs, key) {
        Some(v) => number_of(v),
        None => None,
    }
}

fn number_at(metadata: &Metadata, key: &str) -> (r: Option<u64>)
    ensures
        r == numeric_at(metadata.pairs(), key@),
{
    match resolve_dot_path(metadata, key) {
        Some(v) => v.as_number(),
        None => None,
    }
}

fn is_among(values: &Vec<MetadataValue>, v: &MetadataValue) -> (r: bool)
    ensures
        r == among(values.deep_view(), v@),
{
    let mut i: usize = 0;
    while i < values.len()
        invariant
            i <= values@.len(),
            forall|k: int| 0 <= k < i ==> !values_equal(#[trigger] values.deep_view()[k], v@),
        decreases values@.len() - i,
    {
        if values[i].same(v) {
            proof {
                assert(values_equal(values.deep_view()[i as int], v@));
            }
            return true;
        }
        i += 1;
    }
    false
}

/// Metadata with the single entry `_`.
fn single(v: MetadataValue) -> (r: Metadata)
    ensures
        r.pairs() == seq![("_"@, v@)],
{
    let mut entries: Vec<(String, MetadataValue)> = Vec::new();
    entries.push(("_".to_owned(), v));
    let m = OrderedMap { entries };
    proof {
        assert(m.pairs() =~= seq![("_"@, v@)]);
    }
    m
}

pub(crate) proof fn lemma_element_accepted(
    filter: MetadataFilter,
    pairs: Seq<(Seq<char>, ValueModel)>,
    items: Seq<ValueModel>,
    i: int,
)
    requires
        filter is ElemMatch,
        resolve(pairs, filter->ElemMatch_key@) == Some(ValueModel::List(items)),
        0 <= i < items.len(),
        accepts(*filter->ElemMatch_filter, element_pairs(items[i])),
    ensures
        accepts(filter, pairs),
{
    reveal_with_fuel(accepts, 2);
    let inner = *filter->ElemMatch_filter;
    assert(accepts(inner, element_pairs(items[i])));
    let found = resolve(pairs, filter->ElemMatch_key@);
    assert(found is Some);
    assert(found->Some_0 is List);
    assert(found->Some_0->List_0 == items);
    assert(found->Some_0->List_0[i] == items[i]);
    assert(exists|k: int|
        0 <= k < items.len() && accepts(inner, element_pairs(#[trigger] items[k])));
}

impl MetadataFilter {
    /// The key has a value equal to `value`.
    pub fn eq(key: &str, value: MetadataValue) -> (r: Self)
        ensures
            r matches MetadataFilter::Eq { key: k, value: v } && k@ == key@ && v == value,
    {
        MetadataFilter::Eq { key: key.to_owned(), value }
    }

    /// The key has a value that differs from `value`.
    pub fn ne(key: &str, value: MetadataValue) -> (r: Self)
        ensures
            r matches MetadataFilter::NotEq { key: k, value: v } && k@ == key@ && v == value,
    {
        MetadataFilter::NotEq { key: key.to_owned(), value }
    }

    /// The key has one of `values`.
    pub fn is_in(key: &str, values: Vec<MetadataValue>) -> (r: Self)
        ensures
            r matches MetadataFilter::In { key: k, values: v } && k@ == key@ && v == values,
    {
        MetadataFilter::In { key: key.to_owned(), values }
    }

    /// The key has a value that is none of `values`.
    pub fn nin(key: &str, values: Vec<MetadataValue>) -> (r: Self)
        ensures
            r matches MetadataFilter::NotIn { key: k, values: v } && k@ == key@ && v == values,
    {
        MetadataFilter::NotIn { key: key.to_owned(), values }
    }

    /// The key has a text that contains `needle`.
    pub fn contains(key: &str, needle: &str) -> (r: Self)
        ensures
            r matches MetadataFilter::Contains { key: k, needle: n } && k@ == key@ && n@
                == needle@,
    {
        MetadataFilter::Contains { key: key.to_owned(), needle: needle.to_owned() }
    }

    /// The key has a number greater than `value`.
    pub fn gt(key: &str, value: u64) -> (r: Self)
        ensures
            r matches MetadataFilter::GreaterThan { key: k, value: v } && k@ == key@ && v == value,
    {
        MetadataFilter::GreaterThan { key: key.to_owned(), value }
    }

    /// The key has a number of at least `value`.
    pub fn gte(key: &str, value: u64) -> (r: Self)
        ensures
            r matches MetadataFilter::GreaterThanOrEqual { key: k, value: v } && k@ == key@ && v
                == value,
    {
        MetadataFilter::GreaterThanOrEqual { key: key.to_owned(), value }
    }

    /// The key has a number less than `value`.
    pub fn lt(key: &str, value: u64) -> (r: Self)
        ensures
            r matches MetadataFilter::LessThan { key: k, value: v } && k@ == key@ && v == value,
    {
        MetadataFilter::LessThan { key: key.to_owned(), value }
    }

    /// The key has a number of at most `value`.
    pub fn lte(key: &str, value: u64) -> (r: Self)
        ensures
            r matches MetadataFilter::LessThanOrEqual { key: k, value: v } && k@ == key@ && v
                == value,
    {
        MetadataFilter::LessThanOrEqual { key: key.to_owned(), value }
    }

    /// The key has a value.
    pub fn exists_key(key: &str) -> (r: Self)
        ensures
            r matches MetadataFilter::Exists { key: k } && k@ == key@,
    {
        MetadataFilter::Exists { key: key.to_owned() }
    }

    /// The key has a list with an element that satisfies `filter`.
    pub fn elem_match(key: &str, filter: MetadataFilter) -> (r: Self)
        ensures
            r matches MetadataFilter::ElemMatch { key: k, filter: f } && k@ == key@ && *f
                == filter,
    {
        MetadataFilter::ElemMatch { key: key.to_owned(), filter: Box::new(filter) }
    }

    /// The key has a list of `size` elements.
    pub fn size(key: &str, size: usize) -> (r: Self)
        ensures
            r matches MetadataFilter::Size { key: k, size: n } && k@ == key@ && n == size,
    {
        MetadataFilter::Size { key: key.to_owned(), size }
    }

    /// `filter` does not hold.
    pub fn not(filter: MetadataFilter) -> (r: Self)
        ensures
            r == MetadataFilter::Not(Box::new(filter)),
    {
        MetadataFilter::Not(Box::new(filter))
    }

    /// All of `filters` hold.
    pub fn and(filters: Vec<MetadataFilter>) -> (r: Self)
        ensures
            r == MetadataFilter::And(filters),
    {
        MetadataFilter::And(filters)
    }

    /// One of `filters` holds.
    pub fn or(filters: Vec<MetadataFilter>) -> (r: Self)
        ensures
            r == MetadataFilter::Or(filters),
    {
        MetadataFilter::Or(filters)
    }

    /// Whether `metadata` satisfies the filter.
    pub fn matches(&self, metadata: &Metadata) -> (r: bool)
        ensures
            r == accepts(*self, metadata.pairs()),
        decreases self,
    {
        match self {
            MetadataFilter::Eq { key, value } => {
                match resolve_dot_path(metadata, key.as_str()) {
                    Some(v) => v.same(value),
                    None => false,
                }
            },
            MetadataFilter::NotEq { key, value } => {
                match resolve_dot_path(metadata, key.as_str()) {
                    Some(v) => !v.same(value),
                    None => false,
                }
            },
            MetadataFilter::In { key, values } => {
                match resolve_dot_path(metadata, key.as_str()) {
                    Some(v) => is_among(values, v),
                    None => false,
                }
            },
            MetadataFilter::NotIn { key, values } => {
                match resolve_dot_path(metadata, key.as_str()) {
                    Some(v) => !is_among(values, v),
                    None => false,
                }
            },
            MetadataFilter::Contains { key, needle } => {
                match resolve_dot_path(metadata, key.as_str()) {
                    Some(MetadataValue::String(s)) => contains_text(s.as_str(), needle.as_str()),
                    _ => false,
                }
            },
            MetadataFilter::GreaterThan { key, value } => {
                match number_at(metadata, key.as_str()) {
                    Some(n) => less(*value, n),
                    None => false,
                }
            },
            MetadataFilter::GreaterThanOrEqual { key, value } => {
                match number_at(metadata, key.as_str()) {
                    Some(n) => less_or_equal(*value, n),
                    None => false,
                }
            },
            MetadataFilter::LessThan { key, value } => {
                match number_at(metadata, key.as_str()) {
                    Some(n) => less(n, *value),
                    None => false,
                }
            },
            MetadataFilter::LessThanOrEqual { key, value } => {
                match number_at(metadata, key.as_str()) {
                    Some(n) => less_or_equal(n, *value),
                    None => false,
                }
            },
            MetadataFilter::Exists { key } => resolve_dot_path(metadata, key.as_str()).is_some(),
            MetadataFilter::ElemMatch { key, filter } => {
                match resolve_dot_path(metadata, key.as_str()) {
                    Some(MetadataValue::List(items)) => {
                        proof {
                            lemma_list_view(*items);
                        }
                        let mut i: usize = 0;
                        while i < items.len()
                            invariant
                                i <= items@.len(),
                                self matches MetadataFilter::ElemMatch { filter: f, .. } && f
                                    == *filter,
                                resolve(metadata.pairs(), key@) == Some(
                                    ValueModel::List(items.deep_view()),
                                ),
                                *self == (MetadataFilter::ElemMatch { key: *key, filter: *filter }),
                                forall|k: int|
                                    0 <= k < i ==> !accepts(
                                        **filter,
                                        element_pairs(#[trigger] items.deep_view()[k]),
                                    ),
                            decreases items@.len() - i,
                        {
                            let item = &items[i];
                            proof {
                                assert(items.deep_view()[i as int] == item@);
                                assert(decreases_to!(*self => *self->ElemMatch_filter));
                            }
                            let hit: bool = match item {
                                MetadataValue::Object(map) => {
                                    proof {
                                        lemma_map_view(*map);
                                    }
                                    filter.matches(map)
                                },
                                _ => {
                                    let m = single(item.duplicate());
                                    filter.matches(&m)
                                },
                            };
                            if hit {
                                proof {
                                    lemma_element_accepted(
                                        *self,
                                        metadata.pairs(),
                                        items.deep_view(),
                                        i as int,
                                    );
                                }
                                return true;
                            }
                            i += 1;
                        }
                        false
                    },
                    _ => false,
                }
            },
            MetadataFilter::Size { key, size } => {
                match resolve_dot_path(metadata, key.as_str()) {
                    Some(MetadataValue::List(items)) => {
                        proof {
                            lemma_list_view(*items);
                        }
                        items.len() == *size
                    },
                    _ => false,
                }
            },
            MetadataFilter::Not(inner) => !inner.matches(metadata),
            MetadataFilter::And(filters) => {
                let mut i: usize = 0;
                while i < filters.len()
                    invariant
                        i <= filters@.len(),
                        *self == MetadataFilter::And(*filters),
                        forall|k: int|
                            0 <= k < i ==> accepts(#[trigger] filters@[k], metadata.pairs()),
                    decreases filters@.len() - i,
                {
                    proof {
                        assert(decreases_to!(*self => self->And_0@[i as int]));
                    }
                    if !filters[i].matches(metadata) {
                        return false;
                    }
                    i += 1;
                }
                true
            },
            MetadataFilter::Or(filters) => {
                let mut i: usize = 0;
                while i < filters.len()
                    invariant
                        i <= filters@.len(),
                        *self == MetadataFilter::Or(*filters),
                        forall|k: int|
                            0 <= k < i ==> !accepts(#[trigger] filters@[k], metadata.pairs()),
                    decreases filters@.len() - i,
                {
                    proof {
                        assert(decreases_to!(*self => self->Or_0@[i as int]));
                    }
                    if filters[i].matches(metadata) {
                        return true;
                    }
                    i += 1;
                }
                false
            },
        }
    }
}

} // verus!
