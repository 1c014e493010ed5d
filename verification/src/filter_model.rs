//! The mathematical value of a filter.
use vstd::prelude::*;
use crate::filter::MetadataFilter;
use crate::metadata::ValueModel;

verus! {

/// The mathematical value of a filter.
pub enum FilterModel {
    Eq(Seq<char>, ValueModel),
    NotEq(Seq<char>, ValueModel),
    In(Seq<char>, Seq<ValueModel>),
    NotIn(Seq<char>, Seq<ValueModel>),
    Contains(Seq<char>, Seq<char>),
    GreaterThan(Seq<char>, u64),
    GreaterThanOrEqual(Seq<char>, u64),
    LessThan(Seq<char>, u64),
    LessThanOrEqual(Seq<char>, u64),
    Exists(Seq<char>),
    ElemMatch(Seq<char>, Box<FilterModel>),
    Size(Seq<char>, usize),
    Not(Box<FilterModel>),
    And(Seq<FilterModel>),
    Or(Seq<FilterModel>),
}

/// The mathematical value of a filter.
pub open(crate) spec fn filter_of(f: MetadataFilter) -> FilterModel
    decreases f,
{
    match f {
        MetadataFilter::Eq { key, value } => FilterModel::Eq(key@, value@),
        MetadataFilter::NotEq { key, value } => FilterModel::NotEq(key@, value@),
        MetadataFilter::In { key, values } => FilterModel::In(key@, values.deep_view()),
        MetadataFilter::NotIn { key, values } => FilterModel::NotIn(key@, values.deep_view()),
        MetadataFilter::Contains { key, needle } => FilterModel::Contains(key@, needle@),
        MetadataFilter::GreaterThan { key, value } => FilterModel::GreaterThan(key@, value),
        MetadataFilter::GreaterThanOrEqual { key, value } => FilterModel::GreaterThanOrEqual(
            key@,
            value,
        ),
        MetadataFilter::LessThan { key, value } => FilterModel::LessThan(key@, value),
        MetadataFilter::LessThanOrEqual { key, value } => FilterModel::LessThanOrEqual(key@, value),
        MetadataFilter::Exists { key } => FilterModel::Exists(key@),
        MetadataFilter::ElemMatch { key, filter } => FilterModel::ElemMatch(
            key@,
            Box::new(filter_of(*filter)),
        ),
        MetadataFilter::Size { key, size } => FilterModel::Size(key@, size),
        MetadataFilter::Not(filter) => FilterModel::Not(Box::new(filter_of(*filter))),
        MetadataFilter::And(filters) => FilterModel::And(
            Seq::new(
                filters@.len(),
                |i: int|
                    if 0 <= i < filters@.len() {
                        filter_of(filters@[i])
                    } else {
                        FilterModel::And(Seq::empty())
                    },
            ),
        ),
        MetadataFilter::Or(filters) => FilterModel::Or(
            Seq::new(
                filters@.len(),
                |i: int|
                    if 0 <= i < filters@.len() {
                        filter_of(filters@[i])
                    } else {
                        FilterModel::And(Seq::empty())
                    },
            ),
        ),
    }
}

impl DeepView for MetadataFilter {
    type V = FilterModel;

    open(crate) spec fn deep_view(&self) -> FilterModel {
        filter_of(*self)
    }
}

pub(crate) proof fn lemma_and_view(filters: Vec<MetadataFilter>)
    ensures
        MetadataFilter::And(filters).deep_view() == FilterModel::And(filters.deep_view()),
{
    let f = MetadataFilter::And(filters);
    assert(filter_of(f)->And_0 =~= filters.deep_view());
}

pub(crate) proof fn lemma_or_view(filters: Vec<MetadataFilter>)
    ensures
        MetadataFilter::Or(filters).deep_view() == FilterModel::Or(filters.deep_view()),
{
    let f = MetadataFilter::Or(filters);
    assert(filter_of(f)->Or_0 =~= filters.deep_view());
}

/// Filters taken together: none have no value, one stands for itself, and more are all to hold.
pub open spec fn collapsed(filters: Seq<FilterModel>) -> Option<FilterModel> {
    if filters.len() == 0 {
        None
    } else if filters.len() == 1 {
        Some(filters[0])
    } else {
        Some(FilterModel::And(filters))
    }
}

/// Takes filters together.
pub fn collapse(filters: Vec<MetadataFilter>) -> (r: Option<MetadataFilter>)
    ensures
        r.deep_view() == collapsed(filters.deep_view()),
{
    let mut filters = filters;
    if filters.len() == 0 {
        return None;
    }
    if filters.len() == 1 {
        let ghost only = filters.deep_view()[0];
        proof {
            assert(filters@[0].deep_view() == only);
        }
        return filters.pop();
    }
    proof {
        lemma_and_view(filters);
    }
    Some(MetadataFilter::and(filters))
}

} // verus!
