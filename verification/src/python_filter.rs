//! Filters from Python dictionaries.
use vstd::prelude::*;
use crate::filter::MetadataFilter;
use crate::filter_model::{collapse, collapsed, lemma_and_view, lemma_or_view, FilterModel};
use crate::float_bits::{double_from_integer, double_of_int};
use crate::metadata::{MetadataValue, ValueModel};
use crate::order::same_text;
use crate::python_values::{
    conforms, extract_metadata_items, lemma_python_dict, lemma_python_list, metadata_python,
    py_to_metadata_value, python_items, PythonError, PythonFailure, PythonModel, PythonType,
    PythonValue,
};
use crate::text::{chars_of, concat2};

verus! {

/// The entries of a dictionary; a key that is no text is missing.
pub type Entries = Vec<(Option<String>, PythonValue)>;

/// The exception of a conversion that does not fit.
pub open spec fn unfit<T>(t: PythonType) -> Result<T, PythonFailure> {
    Err(PythonFailure::Mismatch(t))
}

/// The error for no filters at all, or for none of a field.
pub open spec fn nothing_message(field: bool) -> Seq<char> {
    if field {
        "field filter cannot be empty"@
    } else {
        "filter cannot be empty"@
    }
}

/// Filters taken together, of which there has to be one.
pub open spec fn all_of(filters: Seq<FilterModel>, field: bool) -> Result<
    FilterModel,
    PythonFailure,
> {
    match collapsed(filters) {
        Some(f) => Ok(f),
        None => Err(PythonFailure::Value(nothing_message(field))),
    }
}

/// The filter of a dictionary: all of its entries are to hold.
pub open spec fn dict_filter(v: PythonModel) -> Result<FilterModel, PythonFailure>
    decreases v, 1nat,
{
    match v {
        PythonModel::Dict(entries) => match dict_filters(entries, entries.len()) {
            Err(m) => Err(m),
            Ok(filters) => all_of(filters, false),
        },
        _ => unfit(PythonType::Dict),
    }
}

/// The filters of the first `n` entries.
pub open spec fn dict_filters(entries: Seq<(Option<Seq<char>>, PythonModel)>, n: nat) -> Result<
    Seq<FilterModel>,
    PythonFailure,
>
    decreases entries, n,
{
    if n == 0 || n > entries.len() {
        Ok(Seq::empty())
    } else {
        match dict_filters(entries, (n - 1) as nat) {
            Err(m) => Err(m),
            Ok(v) => match entries[n - 1].0 {
                None => unfit(PythonType::Text),
                Some(key) => match dict_entry(key, entries[n - 1].1) {
                    Err(m) => Err(m),
                    Ok(f) => Ok(v.push(f)),
                },
            },
        }
    }
}

/// The filter of an entry: a logical operator with its operand, or a field.
pub open spec fn dict_entry(key: Seq<char>, v: PythonModel) -> Result<FilterModel, PythonFailure>
    decreases v, 2nat,
{
    if key == "$and"@ {
        match v {
            PythonModel::List(items) => match list_filters(items, items.len()) {
                Err(m) => Err(m),
                Ok(v) => Ok(FilterModel::And(v)),
            },
            _ => unfit(PythonType::List),
        }
    } else if key == "$or"@ {
        match v {
            PythonModel::List(items) => match list_filters(items, items.len()) {
                Err(m) => Err(m),
                Ok(v) => Ok(FilterModel::Or(v)),
            },
            _ => unfit(PythonType::List),
        }
    } else if key == "$not"@ {
        match dict_filter(v) {
            Err(m) => Err(m),
            Ok(f) => Ok(FilterModel::Not(Box::new(f))),
        }
    } else {
        named_filter(key, v)
    }
}

/// The filters of the first `n` items.
pub open spec fn list_filters(items: Seq<PythonModel>, n: nat) -> Result<
    Seq<FilterModel>,
    PythonFailure,
>
    decreases items, n,
{
    if n == 0 || n > items.len() {
        Ok(Seq::empty())
    } else {
        match list_filters(items, (n - 1) as nat) {
            Err(m) => Err(m),
            Ok(v) => match dict_filter(items[n - 1]) {
                Err(m) => Err(m),
                Ok(f) => Ok(v.push(f)),
            },
        }
    }
}

/// The filter of a field: its operators, or the value that it has to equal.
pub open spec fn named_filter(key: Seq<char>, v: PythonModel) -> Result<FilterModel, PythonFailure>
    decreases v, 1nat,
{
    match v {
        PythonModel::Dict(ops) => match condition_filters(key, ops, ops.len()) {
            Err(m) => Err(m),
            Ok(filters) => all_of(filters, true),
        },
        _ => match metadata_python(v) {
            Err(m) => Err(m),
            Ok(x) => Ok(FilterModel::Eq(key, x)),
        },
    }
}

/// The filters of the first `n` operators of a field.
pub open spec fn condition_filters(
    key: Seq<char>,
    ops: Seq<(Option<Seq<char>>, PythonModel)>,
    n: nat,
) -> Result<Seq<FilterModel>, PythonFailure>
    decreases ops, n,
{
    if n == 0 || n > ops.len() {
        Ok(Seq::empty())
    } else {
        match condition_filters(key, ops, (n - 1) as nat) {
            Err(m) => Err(m),
            Ok(v) => match ops[n - 1].0 {
                None => unfit(PythonType::Text),
                Some(op) => match condition_filter(key, op, ops[n - 1].1) {
                    Err(m) => Err(m),
                    Ok(f) => Ok(v.push(f)),
                },
            },
        }
    }
}

/// Whether a key is an operator.
pub open spec fn names_operator(key: Option<Seq<char>>) -> bool {
    key matches Some(k) && k.len() > 0 && k[0] == '$'
}

/// Whether the keys of all entries are operators.
pub open spec fn names_operators(entries: Seq<(Option<Seq<char>>, PythonModel)>) -> bool {
    forall|i: int| 0 <= i < entries.len() ==> names_operator((#[trigger] entries[i]).0)
}

/// The values of a list.
pub open spec fn list_operand(v: PythonModel) -> Result<Seq<ValueModel>, PythonFailure> {
    match v {
        PythonModel::List(items) => python_items(items, items.len()),
        _ => unfit(PythonType::List),
    }
}

/// The bound of a comparison.
pub open spec fn numeric_operand(v: PythonModel) -> Result<u64, PythonFailure> {
    match v {
        PythonModel::Bool(_) => Err(
            PythonFailure::Type("boolean values are not valid numeric filter operands"@),
        ),
        PythonModel::Int { small: Some(i), .. } => Ok(double_of_int(i as int) as u64),
        PythonModel::Int { small: None, .. } => unfit(PythonType::Integer),
        PythonModel::Float(f) => Ok(f),
        _ => Err(PythonFailure::Type("numeric filter operands must be int or float"@)),
    }
}

/// A text.
pub open spec fn text_operand(v: PythonModel) -> Result<Seq<char>, PythonFailure> {
    match v {
        PythonModel::Text(s) => Ok(s),
        _ => unfit(PythonType::Text),
    }
}

/// A truth value.
pub open spec fn truth_operand(v: PythonModel) -> Result<bool, PythonFailure> {
    match v {
        PythonModel::Bool(b) => Ok(b),
        PythonModel::Other { truth: Some(b), .. } => Ok(b),
        _ => unfit(PythonType::Bool),
    }
}

/// A size. The truth values are the integers zero and one.
pub open spec fn size_operand(v: PythonModel) -> Result<usize, PythonFailure> {
    match v {
        PythonModel::Bool(b) => Ok(
            if b {
                1
            } else {
                0
            },
        ),
        PythonModel::Int { size: Some(n), .. } => Ok(n),
        PythonModel::Other { size: Some(n), .. } => Ok(n),
        _ => unfit(PythonType::Size),
    }
}

/// The filter of the elements of a list: conditions on the element itself, or on its entries.
pub open spec fn element_filter(v: PythonModel) -> Result<FilterModel, PythonFailure>
    decreases v, 2nat,
{
    match v {
        PythonModel::Dict(entries) => if names_operators(entries) {
            named_filter("_"@, v)
        } else {
            dict_filter(v)
        },
        _ => unfit(PythonType::Dict),
    }
}

/// The filter of an operator of a field.
pub open spec fn condition_filter(key: Seq<char>, op: Seq<char>, v: PythonModel) -> Result<
    FilterModel,
    PythonFailure,
>
    decreases v, 3nat,
{
    if op == "$eq"@ {
        match metadata_python(v) {
            Err(m) => Err(m),
            Ok(x) => Ok(FilterModel::Eq(key, x)),
        }
    } else     if op == "$ne"@ {
        match metadata_python(v) {
            Err(m) => Err(m),
            Ok(x) => Ok(FilterModel::NotEq(key, x)),
        }
    } else     if op == "$in"@ {
        match list_operand(v) {
            Err(m) => Err(m),
            Ok(x) => Ok(FilterModel::In(key, x)),
        }
    } else     if op == "$nin"@ {
        match list_operand(v) {
            Err(m) => Err(m),
            Ok(x) => Ok(FilterModel::NotIn(key, x)),
        }
    } else     if op == "$not"@ {
        match named_filter(key, v) {
            Err(m) => Err(m),
            Ok(x) => Ok(FilterModel::Not(Box::new(x))),
        }
    } else     if op == "$contains"@ {
        match text_operand(v) {
            Err(m) => Err(m),
            Ok(x) => Ok(FilterModel::Contains(key, x)),
        }
    } else     if op == "$gt"@ {
        match numeric_operand(v) {
            Err(m) => Err(m),
            Ok(x) => Ok(FilterModel::GreaterThan(key, x)),
        }
    } else     if op == "$gte"@ {
        match numeric_operand(v) {
            Err(m) => Err(m),
            Ok(x) => Ok(FilterModel::GreaterThanOrEqual(key, x)),
        }
    } else     if op == "$lt"@ {
        match numeric_operand(v) {
            Err(m) => Err(m),
            Ok(x) => Ok(FilterModel::LessThan(key, x)),
        }
    } else     if op == "$lte"@ {
        match numeric_operand(v) {
            Err(m) => Err(m),
            Ok(x) => Ok(FilterModel::LessThanOrEqual(key, x)),
        }
    } else     if op == "$exists"@ {
        match truth_operand(v) {
            Err(m) => Err(m),
            Ok(x) => Ok(if x {
                FilterModel::Exists(key)
            } else {
                FilterModel::Not(Box::new(FilterModel::Exists(key)))
            }),
        }
    } else     if op == "$elemMatch"@ {
        match element_filter(v) {
            Err(m) => Err(m),
            Ok(x) => Ok(FilterModel::ElemMatch(key, Box::new(x))),
        }
    } else     if op == "$size"@ {
        match size_operand(v) {
            Err(m) => Err(m),
            Ok(x) => Ok(FilterModel::Size(key, x)),
        }
    } else {
        Err(PythonFailure::Value("unsupported filter operator: "@ + op))
    }
}

proof fn lemma_entries_fail(entries: Seq<(Option<Seq<char>>, PythonModel)>, k: nat, n: nat)
    requires
        k <= n <= entries.len(),
        dict_filters(entries, k) is Err,
    ensures
        dict_filters(entries, n) == dict_filters(entries, k),
    decreases n - k,
{
    if k < n {
        lemma_entries_fail(entries, k, (n - 1) as nat);
    }
}

proof fn lemma_group_fails(items: Seq<PythonModel>, k: nat, n: nat)
    requires
        k <= n <= items.len(),
        list_filters(items, k) is Err,
    ensures
        list_filters(items, n) == list_filters(items, k),
    decreases n - k,
{
    if k < n {
        lemma_group_fails(items, k, (n - 1) as nat);
    }
}

proof fn lemma_conditions_fail(
    key: Seq<char>,
    ops: Seq<(Option<Seq<char>>, PythonModel)>,
    k: nat,
    n: nat,
)
    requires
        k <= n <= ops.len(),
        condition_filters(key, ops, k) is Err,
    ensures
        condition_filters(key, ops, n) == condition_filters(key, ops, k),
    decreases n - k,
{
    if k < n {
        lemma_conditions_fail(key, ops, k, (n - 1) as nat);
    }
}

fn collapse_filters(filters: Vec<MetadataFilter>, field: bool) -> (r: Result<
    MetadataFilter,
    PythonError,
>)
    ensures
        conforms(r, all_of(filters.deep_view(), field)),
{
    match collapse(filters) {
        Some(f) => Ok(f),
        None => if field {
            Err(PythonError::Value("field filter cannot be empty".to_owned()))
        } else {
            Err(PythonError::Value("filter cannot be empty".to_owned()))
        },
    }
}

/// The bound of a comparison.
pub fn extract_numeric(v: &PythonValue) -> (r: Result<u64, PythonError>)
    ensures
        match numeric_operand(v.deep_view()) {
            Ok(n) => r matches Ok(x) && x == n,
            Err(f) => r matches Err(e) && e@ == f,
        },
{
    match v {
        PythonValue::Bool(_) => Err(
            PythonError::Type("boolean values are not valid numeric filter operands".to_owned()),
        ),
        PythonValue::Int { small, .. } => match small {
            Some(i) => Ok(double_from_integer(*i)),
            None => Err(PythonError::Mismatch(PythonType::Integer)),
        },
        PythonValue::Float(f) => Ok(*f),
        _ => Err(PythonError::Type("numeric filter operands must be int or float".to_owned())),
    }
}

/// The values of a list.
pub fn extract_metadata_values(v: &PythonValue) -> (r: Result<Vec<MetadataValue>, PythonError>)
    ensures
        conforms(r, list_operand(v.deep_view())),
{
    match v {
        PythonValue::List(items) => {
            proof {
                lemma_python_list(*items);
            }
            extract_metadata_items(items)
        },
        _ => Err(PythonError::Mismatch(PythonType::List)),
    }
}

fn extract_truth(v: &PythonValue) -> (r: Result<bool, PythonError>)
    ensures
        match truth_operand(v.deep_view()) {
            Ok(b) => r matches Ok(x) && x == b,
            Err(f) => r matches Err(e) && e@ == f,
        },
{
    match v {
        PythonValue::Bool(b) => Ok(*b),
        PythonValue::Other { truth, .. } => match truth {
            Some(b) => Ok(*b),
            None => Err(PythonError::Mismatch(PythonType::Bool)),
        },
        _ => Err(PythonError::Mismatch(PythonType::Bool)),
    }
}

fn extract_size(v: &PythonValue) -> (r: Result<usize, PythonError>)
    ensures
        match size_operand(v.deep_view()) {
            Ok(n) => r matches Ok(x) && x == n,
            Err(f) => r matches Err(e) && e@ == f,
        },
{
    let found: Option<usize> = match v {
        PythonValue::Bool(b) => Some(
            if *b {
                1
            } else {
                0
            },
        ),
        PythonValue::Int { size, .. } => *size,
        PythonValue::Other { size, .. } => *size,
        _ => None,
    };
    match found {
        Some(n) => Ok(n),
        None => Err(PythonError::Mismatch(PythonType::Size)),
    }
}

fn only_operators(entries: &Entries) -> (r: bool)
    ensures
        r == names_operators(entries.deep_view()),
{
    let ghost all = entries.deep_view();
    let mut i: usize = 0;
    while i < entries.len()
        invariant
            i <= entries@.len(),
            all == entries.deep_view(),
            forall|k: int| 0 <= k < i ==> names_operator((#[trigger] all[k]).0),
        decreases entries@.len() - i,
    {
        proof {
            assert(all[i as int] == entries@[i as int].deep_view());
        }
        let operator: bool = match &entries[i].0 {
            None => false,
            Some(key) => {
                let chars = chars_of(key.as_str());
                chars.len() > 0 && chars[0] == '$'
            },
        };
        if !operator {
            proof {
                assert(!names_operator(all[i as int].0));
            }
            return false;
        }
        i += 1;
    }
    true
}

/// The filter of a dictionary.
pub fn parse_filter_dict(v: &PythonValue) -> (r: Result<MetadataFilter, PythonError>)
    ensures
        conforms(r, dict_filter(v.deep_view())),
    decreases v, 1nat,
{
    match v {
        PythonValue::Dict(entries) => {
            let ghost all = entries.deep_view();
            let mut out: Vec<MetadataFilter> = Vec::new();
            let mut i: usize = 0;
            proof {
                lemma_python_dict(*entries);
                assert(out.deep_view() =~= Seq::<FilterModel>::empty());
            }
            while i < entries.len()
                invariant
                    *v == PythonValue::Dict(*entries),
                    v.deep_view() == PythonModel::Dict(all),
                    i <= entries@.len(),
                    all == entries.deep_view(),
                    dict_filters(all, i as nat) == Ok::<Seq<FilterModel>, PythonFailure>(
                        out.deep_view(),
                    ),
                decreases entries@.len() - i,
            {
                let ghost before = out.deep_view();
                proof {
                    assert(all[i as int] == entries@[i as int].deep_view());
                    assert(decreases_to!(*v => entries@[i as int]));
                    assert(decreases_to!(entries@[i as int] => entries@[i as int].1));
                }
                let found = match &entries[i].0 {
                    None => Err(PythonError::Mismatch(PythonType::Text)),
                    Some(key) => parse_entry_filter(key.as_str(), &entries[i].1),
                };
                match found {
                    Ok(f) => {
                        out.push(f);
                        proof {
                            assert(out.deep_view() =~= before.push(f.deep_view()));
                        }
                    },
                    Err(e) => {
                        proof {
                            lemma_entries_fail(all, (i + 1) as nat, all.len());
                        }
                        return Err(e);
                    },
                }
                i += 1;
            }
            collapse_filters(out, false)
        },
        _ => Err(PythonError::Mismatch(PythonType::Dict)),
    }
}

fn parse_filter_group(v: &PythonValue) -> (r: Result<Vec<MetadataFilter>, PythonError>)
    ensures
        conforms(
            r,
            match v.deep_view() {
                PythonModel::List(items) => list_filters(items, items.len()),
                _ => unfit(PythonType::List),
            },
        ),
    decreases v, 1nat,
{
    match v {
        PythonValue::List(items) => {
            let ghost all = items.deep_view();
            let mut out: Vec<MetadataFilter> = Vec::new();
            let mut i: usize = 0;
            proof {
                lemma_python_list(*items);
                assert(out.deep_view() =~= Seq::<FilterModel>::empty());
            }
            while i < items.len()
                invariant
                    *v == PythonValue::List(*items),
                    v.deep_view() == PythonModel::List(all),
                    i <= items@.len(),
                    all == items.deep_view(),
                    list_filters(all, i as nat) == Ok::<Seq<FilterModel>, PythonFailure>(
                        out.deep_view(),
                    ),
                decreases items@.len() - i,
            {
                let ghost before = out.deep_view();
                proof {
                    assert(all[i as int] == items@[i as int].deep_view());
                    assert(decreases_to!(*v => items@[i as int]));
                }
                match parse_filter_dict(&items[i]) {
                    Ok(f) => {
                        out.push(f);
                        proof {
                            assert(out.deep_view() =~= before.push(f.deep_view()));
                        }
                    },
                    Err(e) => {
                        proof {
                            lemma_group_fails(all, (i + 1) as nat, all.len());
                        }
                        return Err(e);
                    },
                }
                i += 1;
            }
            Ok(out)
        },
        _ => Err(PythonError::Mismatch(PythonType::List)),
    }
}

fn parse_entry_filter(key: &str, v: &PythonValue) -> (r: Result<MetadataFilter, PythonError>)
    ensures
        conforms(r, dict_entry(key@, v.deep_view())),
    decreases v, 2nat,
{
    if same_text(key, "$and") {
        return match parse_filter_group(v) {
            Ok(group) => {
                proof {
                    lemma_and_view(group);
                }
                Ok(MetadataFilter::and(group))
            },
            Err(e) => Err(e),
        };
    }
    if same_text(key, "$or") {
        return match parse_filter_group(v) {
            Ok(group) => {
                proof {
                    lemma_or_view(group);
                }
                Ok(MetadataFilter::or(group))
            },
            Err(e) => Err(e),
        };
    }
    if same_text(key, "$not") {
        return match parse_filter_dict(v) {
            Ok(f) => Ok(MetadataFilter::not(f)),
            Err(e) => Err(e),
        };
    }
    parse_field_filter(key, v)
}

/// The filter of a field.
pub fn parse_field_filter(key: &str, v: &PythonValue) -> (r: Result<MetadataFilter, PythonError>)
    ensures
        conforms(r, named_filter(key@, v.deep_view())),
    decreases v, 1nat,
{
    match v {
        PythonValue::Dict(ops) => {
            let ghost all = ops.deep_view();
            let mut out: Vec<MetadataFilter> = Vec::new();
            let mut i: usize = 0;
            proof {
                lemma_python_dict(*ops);
                assert(out.deep_view() =~= Seq::<FilterModel>::empty());
            }
            while i < ops.len()
                invariant
                    *v == PythonValue::Dict(*ops),
                    v.deep_view() == PythonModel::Dict(all),
                    i <= ops@.len(),
                    all == ops.deep_view(),
                    condition_filters(key@, all, i as nat) == Ok::<
                        Seq<FilterModel>,
                        PythonFailure,
                    >(out.deep_view()),
                decreases ops@.len() - i,
            {
                let ghost before = out.deep_view();
                proof {
                    assert(all[i as int] == ops@[i as int].deep_view());
                    assert(decreases_to!(*v => ops@[i as int]));
                    assert(decreases_to!(ops@[i as int] => ops@[i as int].1));
                }
                let found = match &ops[i].0 {
                    None => Err(PythonError::Mismatch(PythonType::Text)),
                    Some(op) => parse_condition(key, op.as_str(), &ops[i].1),
                };
                match found {
                    Ok(f) => {
                        out.push(f);
                        proof {
                            assert(out.deep_view() =~= before.push(f.deep_view()));
                        }
                    },
                    Err(e) => {
                        proof {
                            lemma_conditions_fail(key@, all, (i + 1) as nat, all.len());
                        }
                        return Err(e);
                    },
                }
                i += 1;
            }
            collapse_filters(out, true)
        },
        _ => match py_to_metadata_value(v) {
            Ok(x) => Ok(MetadataFilter::eq(key, x)),
            Err(e) => Err(e),
        },
    }
}

fn parse_element_filter(v: &PythonValue) -> (r: Result<MetadataFilter, PythonError>)
    ensures
        conforms(r, element_filter(v.deep_view())),
    decreases v, 2nat,
{
    match v {
        PythonValue::Dict(entries) => {
            proof {
                lemma_python_dict(*entries);
            }
            if only_operators(entries) {
                parse_field_filter("_", v)
            } else {
                parse_filter_dict(v)
            }
        },
        _ => Err(PythonError::Mismatch(PythonType::Dict)),
    }
}

fn parse_condition(key: &str, op: &str, v: &PythonValue) -> (r: Result<
    MetadataFilter,
    PythonError,
>)
    ensures
        conforms(r, condition_filter(key@, op@, v.deep_view())),
    decreases v, 3nat,
{
    if same_text(op, "$eq") {
        return match py_to_metadata_value(v) {
            Ok(x) => Ok(MetadataFilter::eq(key, x)),
            Err(e) => Err(e),
        };
    }
    if same_text(op, "$ne") {
        return match py_to_metadata_value(v) {
            Ok(x) => Ok(MetadataFilter::ne(key, x)),
            Err(e) => Err(e),
        };
    }
    if same_text(op, "$in") {
        return match extract_metadata_values(v) {
            Ok(x) => Ok(MetadataFilter::is_in(key, x)),
            Err(e) => Err(e),
        };
    }
    if same_text(op, "$nin") {
        return match extract_metadata_values(v) {
            Ok(x) => Ok(MetadataFilter::nin(key, x)),
            Err(e) => Err(e),
        };
    }
    if same_text(op, "$not") {
        return match parse_field_filter(key, v) {
            Ok(x) => Ok(MetadataFilter::not(x)),
            Err(e) => Err(e),
        };
    }
    if same_text(op, "$contains") {
        return match v {
            PythonValue::Text(s) => Ok(MetadataFilter::contains(key, s.as_str())),
            _ => Err(PythonError::Mismatch(PythonType::Text)),
        };
    }
    if same_text(op, "$gt") {
        return match extract_numeric(v) {
            Ok(x) => Ok(MetadataFilter::gt(key, x)),
            Err(e) => Err(e),
        };
    }
    if same_text(op, "$gte") {
        return match extract_numeric(v) {
            Ok(x) => Ok(MetadataFilter::gte(key, x)),
            Err(e) => Err(e),
        };
    }
    if same_text(op, "$lt") {
        return match extract_numeric(v) {
            Ok(x) => Ok(MetadataFilter::lt(key, x)),
            Err(e) => Err(e),
        };
    }
    if same_text(op, "$lte") {
        return match extract_numeric(v) {
            Ok(x) => Ok(MetadataFilter::lte(key, x)),
            Err(e) => Err(e),
        };
    }
    if same_text(op, "$exists") {
        return match extract_truth(v) {
            Ok(x) => {
                let present = MetadataFilter::exists_key(key);
                proof {
                    assert(present.deep_view() == FilterModel::Exists(key@));
                }
                if x {
                    Ok(present)
                } else {
                    Ok(MetadataFilter::not(present))
                }
            },
            Err(e) => Err(e),
        };
    }
    if same_text(op, "$elemMatch") {
        return match parse_element_filter(v) {
            Ok(x) => Ok(MetadataFilter::elem_match(key, x)),
            Err(e) => Err(e),
        };
    }
    if same_text(op, "$size") {
        return match extract_size(v) {
            Ok(x) => Ok(MetadataFilter::size(key, x)),
            Err(e) => Err(e),
        };
    }
    Err(PythonError::Value(concat2("unsupported filter operator: ", op)))
}

} // verus!
