//! Filters in JSON.
use vstd::prelude::*;
use crate::filter::MetadataFilter;
use crate::filter_model::{collapse, collapsed, lemma_and_view, lemma_or_view, FilterModel};
use crate::json::{lemma_array_view, lemma_object_view, Json, JsonModel};
use crate::json_values::{
    agrees_with, json_to_metadata_value, metadata_items, metadata_json, Dialect,
};
use crate::metadata::{MetadataValue, ValueModel};
use crate::order::same_text;
use crate::text::{chars_of, concat2};

verus! {

/// The error for a group of filters that is no array.
pub open spec fn group_message(d: Dialect, all: bool) -> Seq<char> {
    match (d, all) {
        (Dialect::Node, _) => "logical filter groups must be JSON arrays"@,
        (Dialect::Foreign, true) => "$and must be an array"@,
        (Dialect::Foreign, false) => "$or must be an array"@,
    }
}

/// The error for a list of values that is no array.
pub open spec fn list_message(d: Dialect) -> Seq<char> {
    match d {
        Dialect::Node => "list filter operands must be JSON arrays"@,
        Dialect::Foreign => "$in/$nin expects an array"@,
    }
}

/// The error for a bound that is no number.
pub open spec fn bound_message(d: Dialect) -> Seq<char> {
    match d {
        Dialect::Node => "numeric filter operands must be numbers"@,
        Dialect::Foreign => "numeric operator expects a number"@,
    }
}

/// The error for a size that is no natural number.
pub open spec fn size_message(d: Dialect) -> Seq<char> {
    match d {
        Dialect::Node => "$size must be an unsigned integer"@,
        Dialect::Foreign => "$size expects a positive integer"@,
    }
}

/// The error for no filters at all, or for none of a field.
pub open spec fn empty_message(d: Dialect, field: bool) -> Seq<char> {
    match (d, field) {
        (Dialect::Node, true) => "field filter cannot be empty"@,
        _ => "filter cannot be empty"@,
    }
}

/// Filters taken together, of which there has to be one.
pub open spec fn together(filters: Seq<FilterModel>, message: Seq<char>) -> Result<
    FilterModel,
    Seq<char>,
> {
    match collapsed(filters) {
        Some(f) => Ok(f),
        None => Err(message),
    }
}

/// The filter of a document: all of its entries are to hold.
pub open spec fn filter_json(d: Dialect, j: JsonModel) -> Result<FilterModel, Seq<char>>
    decreases j, 1nat,
{
    match j {
        JsonModel::Object(entries) => match entry_filters(d, entries, entries.len()) {
            Err(m) => Err(m),
            Ok(filters) => together(filters, empty_message(d, false)),
        },
        _ => Err("filter must be a JSON object"@),
    }
}

/// The filters of the first `n` entries.
pub open spec fn entry_filters(d: Dialect, entries: Seq<(Seq<char>, JsonModel)>, n: nat) -> Result<
    Seq<FilterModel>,
    Seq<char>,
>
    decreases entries, n,
{
    if n == 0 || n > entries.len() {
        Ok(Seq::empty())
    } else {
        match entry_filters(d, entries, (n - 1) as nat) {
            Err(m) => Err(m),
            Ok(v) => match entry_filter(d, entries[n - 1].0, entries[n - 1].1) {
                Err(m) => Err(m),
                Ok(f) => Ok(v.push(f)),
            },
        }
    }
}

/// The filter of an entry: a logical operator with its operand, or a field.
pub open spec fn entry_filter(d: Dialect, key: Seq<char>, j: JsonModel) -> Result<
    FilterModel,
    Seq<char>,
>
    decreases j, 2nat,
{
    if key == "$and"@ {
        match j {
            JsonModel::Array(items) => match group_filters(d, items, items.len()) {
                Err(m) => Err(m),
                Ok(v) => Ok(FilterModel::And(v)),
            },
            _ => Err(group_message(d, true)),
        }
    } else if key == "$or"@ {
        match j {
            JsonModel::Array(items) => match group_filters(d, items, items.len()) {
                Err(m) => Err(m),
                Ok(v) => Ok(FilterModel::Or(v)),
            },
            _ => Err(group_message(d, false)),
        }
    } else if key == "$not"@ {
        match filter_json(d, j) {
            Err(m) => Err(m),
            Ok(f) => Ok(FilterModel::Not(Box::new(f))),
        }
    } else {
        field_filter(d, key, j)
    }
}

/// The filters of the first `n` items.
pub open spec fn group_filters(d: Dialect, items: Seq<JsonModel>, n: nat) -> Result<
    Seq<FilterModel>,
    Seq<char>,
>
    decreases items, n,
{
    if n == 0 || n > items.len() {
        Ok(Seq::empty())
    } else {
        match group_filters(d, items, (n - 1) as nat) {
            Err(m) => Err(m),
            Ok(v) => match filter_json(d, items[n - 1]) {
                Err(m) => Err(m),
                Ok(f) => Ok(v.push(f)),
            },
        }
    }
}

/// The filter of a field: its operators, or the value that it has to equal.
pub open spec fn field_filter(d: Dialect, key: Seq<char>, j: JsonModel) -> Result<
    FilterModel,
    Seq<char>,
>
    decreases j, 1nat,
{
    match j {
        JsonModel::Object(ops) => match operator_filters(d, key, ops, ops.len()) {
            Err(m) => Err(m),
            Ok(filters) => together(filters, empty_message(d, true)),
        },
        _ => match metadata_json(d, j) {
            Err(m) => Err(m),
            Ok(v) => Ok(FilterModel::Eq(key, v)),
        },
    }
}

/// The filters of the first `n` operators of a field.
pub open spec fn operator_filters(
    d: Dialect,
    key: Seq<char>,
    ops: Seq<(Seq<char>, JsonModel)>,
    n: nat,
) -> Result<Seq<FilterModel>, Seq<char>>
    decreases ops, n,
{
    if n == 0 || n > ops.len() {
        Ok(Seq::empty())
    } else {
        match operator_filters(d, key, ops, (n - 1) as nat) {
            Err(m) => Err(m),
            Ok(v) => match operator_filter(d, key, ops[n - 1].0, ops[n - 1].1) {
                Err(m) => Err(m),
                Ok(f) => Ok(v.push(f)),
            },
        }
    }
}

/// Whether a document is an object whose keys are all operators.
pub open spec fn all_operators(j: JsonModel) -> bool {
    match j {
        JsonModel::Object(entries) => operator_keys(entries),
        _ => false,
    }
}

/// Whether the keys of all entries are operators.
pub open spec fn operator_keys(entries: Seq<(Seq<char>, JsonModel)>) -> bool {
    forall|i: int| 0 <= i < entries.len() ==> is_operator((#[trigger] entries[i]).0)
}

/// Whether a key is an operator.
pub open spec fn is_operator(key: Seq<char>) -> bool {
    key.len() > 0 && key[0] == '$'
}

/// The values of a list.
pub open spec fn list_values(d: Dialect, j: JsonModel) -> Result<Seq<ValueModel>, Seq<char>> {
    match j {
        JsonModel::Array(items) => metadata_items(d, items, items.len()),
        _ => Err(list_message(d)),
    }
}

/// The bound of a comparison.
pub open spec fn bound_of(d: Dialect, j: JsonModel) -> Result<u64, Seq<char>> {
    match j {
        JsonModel::Number(n) => match n.double {
            Some(f) => Ok(f),
            None => Err(bound_message(d)),
        },
        _ => Err(bound_message(d)),
    }
}

/// The filter of an operator of a field.
pub open spec fn operator_filter(
    d: Dialect,
    key: Seq<char>,
    op: Seq<char>,
    j: JsonModel,
) -> Result<FilterModel, Seq<char>>
    decreases j, 2nat,
{
    if op == "$eq"@ {
        match metadata_json(d, j) {
            Err(m) => Err(m),
            Ok(v) => Ok(FilterModel::Eq(key, v)),
        }
    } else if op == "$ne"@ {
        match metadata_json(d, j) {
            Err(m) => Err(m),
            Ok(v) => Ok(FilterModel::NotEq(key, v)),
        }
    } else if op == "$in"@ {
        match list_values(d, j) {
            Err(m) => Err(m),
            Ok(v) => Ok(FilterModel::In(key, v)),
        }
    } else if op == "$nin"@ {
        match list_values(d, j) {
            Err(m) => Err(m),
            Ok(v) => Ok(FilterModel::NotIn(key, v)),
        }
    } else if op == "$not"@ {
        match field_filter(d, key, j) {
            Err(m) => Err(m),
            Ok(f) => Ok(FilterModel::Not(Box::new(f))),
        }
    } else if op == "$contains"@ {
        match j {
            JsonModel::Text(s) => Ok(FilterModel::Contains(key, s)),
            _ => Err("$contains expects a string"@),
        }
    } else if op == "$gt"@ {
        match bound_of(d, j) {
            Err(m) => Err(m),
            Ok(v) => Ok(FilterModel::GreaterThan(key, v)),
        }
    } else if op == "$gte"@ {
        match bound_of(d, j) {
            Err(m) => Err(m),
            Ok(v) => Ok(FilterModel::GreaterThanOrEqual(key, v)),
        }
    } else if op == "$lt"@ {
        match bound_of(d, j) {
            Err(m) => Err(m),
            Ok(v) => Ok(FilterModel::LessThan(key, v)),
        }
    } else if op == "$lte"@ {
        match bound_of(d, j) {
            Err(m) => Err(m),
            Ok(v) => Ok(FilterModel::LessThanOrEqual(key, v)),
        }
    } else if op == "$exists"@ {
        match j {
            JsonModel::Bool(true) => Ok(FilterModel::Exists(key)),
            JsonModel::Bool(false) => Ok(FilterModel::Not(Box::new(FilterModel::Exists(key)))),
            _ => Err("$exists expects a boolean"@),
        }
    } else if op == "$elemMatch"@ {
        if d == Dialect::Node && !(j is Object) {
            Err("$elemMatch expects a JSON object"@)
        } else {
            let inner = if all_operators(j) {
                field_filter(d, "_"@, j)
            } else {
                filter_json(d, j)
            };
            match inner {
                Err(m) => Err(m),
                Ok(f) => Ok(FilterModel::ElemMatch(key, Box::new(f))),
            }
        }
    } else if op == "$size"@ {
        match j {
            JsonModel::Number(n) => match n.natural {
                Some(v) => Ok(FilterModel::Size(key, v as usize)),
                None => Err(size_message(d)),
            },
            _ => Err(size_message(d)),
        }
    } else {
        Err("unsupported filter operator: "@ + op)
    }
}

proof fn lemma_entries_fail(
    d: Dialect,
    entries: Seq<(Seq<char>, JsonModel)>,
    k: nat,
    n: nat,
)
    requires
        k <= n <= entries.len(),
        entry_filters(d, entries, k) is Err,
    ensures
        entry_filters(d, entries, n) == entry_filters(d, entries, k),
    decreases n - k,
{
    if k < n {
        lemma_entries_fail(d, entries, k, (n - 1) as nat);
    }
}

proof fn lemma_group_fails(d: Dialect, items: Seq<JsonModel>, k: nat, n: nat)
    requires
        k <= n <= items.len(),
        group_filters(d, items, k) is Err,
    ensures
        group_filters(d, items, n) == group_filters(d, items, k),
    decreases n - k,
{
    if k < n {
        lemma_group_fails(d, items, k, (n - 1) as nat);
    }
}

proof fn lemma_operators_fail(
    d: Dialect,
    key: Seq<char>,
    ops: Seq<(Seq<char>, JsonModel)>,
    k: nat,
    n: nat,
)
    requires
        k <= n <= ops.len(),
        operator_filters(d, key, ops, k) is Err,
    ensures
        operator_filters(d, key, ops, n) == operator_filters(d, key, ops, k),
    decreases n - k,
{
    if k < n {
        lemma_operators_fail(d, key, ops, k, (n - 1) as nat);
    }
}

fn group_error(d: Dialect, all: bool) -> (r: String)
    ensures
        r@ == group_message(d, all),
{
    match (d, all) {
        (Dialect::Node, _) => "logical filter groups must be JSON arrays".to_owned(),
        (Dialect::Foreign, true) => "$and must be an array".to_owned(),
        (Dialect::Foreign, false) => "$or must be an array".to_owned(),
    }
}

fn empty_error(d: Dialect, field: bool) -> (r: String)
    ensures
        r@ == empty_message(d, field),
{
    match (d, field) {
        (Dialect::Node, true) => "field filter cannot be empty".to_owned(),
        _ => "filter cannot be empty".to_owned(),
    }
}

fn take_together(filters: Vec<MetadataFilter>, d: Dialect, field: bool) -> (r: Result<
    MetadataFilter,
    String,
>)
    ensures
        agrees_with(r, together(filters.deep_view(), empty_message(d, field))),
{
    match collapse(filters) {
        Some(f) => Ok(f),
        None => Err(empty_error(d, field)),
    }
}

fn read_bound(d: Dialect, j: &Json) -> (r: Result<u64, String>)
    ensures
        match bound_of(d, j.deep_view()) {
            Ok(v) => r matches Ok(x) && x == v,
            Err(m) => r matches Err(e) && e@ == m,
        },
{
    if let Json::Number(n) = j {
        if let Some(f) = n.double {
            return Ok(f);
        }
    }
    match d {
        Dialect::Node => Err("numeric filter operands must be numbers".to_owned()),
        Dialect::Foreign => Err("numeric operator expects a number".to_owned()),
    }
}

fn read_list(d: Dialect, j: &Json) -> (r: Result<Vec<MetadataValue>, String>)
    ensures
        agrees_with(r, list_values(d, j.deep_view())),
{
    match j {
        Json::Array(items) => {
            proof {
                lemma_array_view(*items);
            }
            match json_to_metadata_value(d, j) {
                Ok(MetadataValue::List(values)) => {
                    proof {
                        crate::metadata::lemma_list_view(values);
                    }
                    Ok(values)
                },
                Ok(_) => Ok(Vec::new()),
                Err(m) => Err(m),
            }
        },
        _ => match d {
            Dialect::Node => Err("list filter operands must be JSON arrays".to_owned()),
            Dialect::Foreign => Err("$in/$nin expects an array".to_owned()),
        },
    }
}

fn only_operators(j: &Json) -> (r: bool)
    ensures
        r == all_operators(j.deep_view()),
{
    match j {
        Json::Object(entries) => {
            let ghost all = entries.deep_view();
            proof {
                lemma_object_view(*entries);
            }
            let mut i: usize = 0;
            while i < entries.len()
                invariant
                    i <= entries@.len(),
                    all == entries.deep_view(),
                    j.deep_view() == JsonModel::Object(all),
                    forall|k: int| 0 <= k < i ==> is_operator((#[trigger] all[k]).0),
                decreases entries@.len() - i,
            {
                let chars = chars_of(entries[i].0.as_str());
                proof {
                    assert(all[i as int] == entries@[i as int].deep_view());
                }
                if chars.len() == 0 || chars[0] != '$' {
                    proof {
                        assert(!is_operator(all[i as int].0));
                        assert(!operator_keys(all));
                    }
                    return false;
                }
                i += 1;
            }
            true
        },
        _ => false,
    }
}

/// The filter of a document.
pub fn json_to_filter(d: Dialect, j: &Json) -> (r: Result<MetadataFilter, String>)
    ensures
        agrees_with(r, filter_json(d, j.deep_view())),
    decreases j, 1nat,
{
    match j {
        Json::Object(entries) => {
            let ghost all = entries.deep_view();
            let mut out: Vec<MetadataFilter> = Vec::new();
            let mut i: usize = 0;
            proof {
                lemma_object_view(*entries);
                assert(out.deep_view() =~= Seq::<FilterModel>::empty());
            }
            while i < entries.len()
                invariant
                    *j == Json::Object(*entries),
                    j.deep_view() == JsonModel::Object(all),
                    i <= entries@.len(),
                    all == entries.deep_view(),
                    entry_filters(d, all, i as nat) == Ok::<Seq<FilterModel>, Seq<char>>(
                        out.deep_view(),
                    ),
                decreases entries@.len() - i,
            {
                let ghost before = out.deep_view();
                proof {
                    assert(all[i as int] == entries@[i as int].deep_view());
                    assert(decreases_to!(*j => entries@[i as int]));
                    assert(decreases_to!(entries@[i as int] => entries@[i as int].1));
                }
                match json_entry_filter(d, entries[i].0.as_str(), &entries[i].1) {
                    Ok(f) => {
                        out.push(f);
                        proof {
                            assert(out.deep_view() =~= before.push(f.deep_view()));
                        }
                    },
                    Err(m) => {
                        proof {
                            lemma_entries_fail(d, all, (i + 1) as nat, all.len());
                        }
                        return Err(m);
                    },
                }
                i += 1;
            }
            take_together(out, d, false)
        },
        _ => Err("filter must be a JSON object".to_owned()),
    }
}

fn json_group(d: Dialect, j: &Json, all_of: bool) -> (r: Result<Vec<MetadataFilter>, String>)
    ensures
        agrees_with(
            r,
            match j.deep_view() {
                JsonModel::Array(items) => group_filters(d, items, items.len()),
                _ => Err(group_message(d, all_of)),
            },
        ),
    decreases j, 1nat,
{
    match j {
        Json::Array(items) => {
            let ghost all = items.deep_view();
            let mut out: Vec<MetadataFilter> = Vec::new();
            let mut i: usize = 0;
            proof {
                lemma_array_view(*items);
                assert(out.deep_view() =~= Seq::<FilterModel>::empty());
            }
            while i < items.len()
                invariant
                    *j == Json::Array(*items),
                    j.deep_view() == JsonModel::Array(all),
                    i <= items@.len(),
                    all == items.deep_view(),
                    group_filters(d, all, i as nat) == Ok::<Seq<FilterModel>, Seq<char>>(
                        out.deep_view(),
                    ),
                decreases items@.len() - i,
            {
                let ghost before = out.deep_view();
                proof {
                    assert(all[i as int] == items@[i as int].deep_view());
                    assert(decreases_to!(*j => items@[i as int]));
                }
                match json_to_filter(d, &items[i]) {
                    Ok(f) => {
                        out.push(f);
                        proof {
                            assert(out.deep_view() =~= before.push(f.deep_view()));
                        }
                    },
                    Err(m) => {
                        proof {
                            lemma_group_fails(d, all, (i + 1) as nat, all.len());
                        }
                        return Err(m);
                    },
                }
                i += 1;
            }
            Ok(out)
        },
        _ => Err(group_error(d, all_of)),
    }
}

fn json_entry_filter(d: Dialect, key: &str, j: &Json) -> (r: Result<MetadataFilter, String>)
    ensures
        agrees_with(r, entry_filter(d, key@, j.deep_view())),
    decreases j, 2nat,
{
    if same_text(key, "$and") {
        return match json_group(d, j, true) {
            Ok(group) => {
                proof {
                    lemma_and_view(group);
                }
                Ok(MetadataFilter::and(group))
            },
            Err(m) => Err(m),
        };
    }
    if same_text(key, "$or") {
        return match json_group(d, j, false) {
            Ok(group) => {
                proof {
                    lemma_or_view(group);
                }
                Ok(MetadataFilter::or(group))
            },
            Err(m) => Err(m),
        };
    }
    if same_text(key, "$not") {
        return match json_to_filter(d, j) {
            Ok(f) => Ok(MetadataFilter::not(f)),
            Err(m) => Err(m),
        };
    }
    json_field_filter(d, key, j)
}

fn json_field_filter(d: Dialect, key: &str, j: &Json) -> (r: Result<MetadataFilter, String>)
    ensures
        agrees_with(r, field_filter(d, key@, j.deep_view())),
    decreases j, 1nat,
{
    match j {
        Json::Object(ops) => {
            let ghost all = ops.deep_view();
            let mut out: Vec<MetadataFilter> = Vec::new();
            let mut i: usize = 0;
            proof {
                lemma_object_view(*ops);
                assert(out.deep_view() =~= Seq::<FilterModel>::empty());
            }
            while i < ops.len()
                invariant
                    *j == Json::Object(*ops),
                    j.deep_view() == JsonModel::Object(all),
                    i <= ops@.len(),
                    all == ops.deep_view(),
                    operator_filters(d, key@, all, i as nat) == Ok::<
                        Seq<FilterModel>,
                        Seq<char>,
                    >(out.deep_view()),
                decreases ops@.len() - i,
            {
                let ghost before = out.deep_view();
                proof {
                    assert(all[i as int] == ops@[i as int].deep_view());
                    assert(decreases_to!(*j => ops@[i as int]));
                    assert(decreases_to!(ops@[i as int] => ops@[i as int].1));
                }
                match json_operator_filter(d, key, ops[i].0.as_str(), &ops[i].1) {
                    Ok(f) => {
                        out.push(f);
                        proof {
                            assert(out.deep_view() =~= before.push(f.deep_view()));
                        }
                    },
                    Err(m) => {
                        proof {
                            lemma_operators_fail(d, key@, all, (i + 1) as nat, all.len());
                        }
                        return Err(m);
                    },
                }
                i += 1;
            }
            take_together(out, d, true)
        },
        _ => match json_to_metadata_value(d, j) {
            Ok(v) => Ok(MetadataFilter::eq(key, v)),
            Err(m) => Err(m),
        },
    }
}

fn json_operator_filter(d: Dialect, key: &str, op: &str, j: &Json) -> (r: Result<
    MetadataFilter,
    String,
>)
    ensures
        agrees_with(r, operator_filter(d, key@, op@, j.deep_view())),
    decreases j, 2nat,
{
    if same_text(op, "$eq") {
        return match json_to_metadata_value(d, j) {
            Ok(v) => Ok(MetadataFilter::eq(key, v)),
            Err(m) => Err(m),
        };
    }
    if same_text(op, "$ne") {
        return match json_to_metadata_value(d, j) {
            Ok(v) => Ok(MetadataFilter::ne(key, v)),
            Err(m) => Err(m),
        };
    }
    if same_text(op, "$in") {
        return match read_list(d, j) {
            Ok(v) => Ok(MetadataFilter::is_in(key, v)),
            Err(m) => Err(m),
        };
    }
    if same_text(op, "$nin") {
        return match read_list(d, j) {
            Ok(v) => Ok(MetadataFilter::nin(key, v)),
            Err(m) => Err(m),
        };
    }
    if same_text(op, "$not") {
        return match json_field_filter(d, key, j) {
            Ok(f) => Ok(MetadataFilter::not(f)),
            Err(m) => Err(m),
        };
    }
    if same_text(op, "$contains") {
        return match j {
            Json::Text(s) => Ok(MetadataFilter::contains(key, s.as_str())),
            _ => Err("$contains expects a string".to_owned()),
        };
    }
    if same_text(op, "$gt") {
        return match read_bound(d, j) {
            Ok(v) => Ok(MetadataFilter::gt(key, v)),
            Err(m) => Err(m),
        };
    }
    if same_text(op, "$gte") {
        return match read_bound(d, j) {
            Ok(v) => Ok(MetadataFilter::gte(key, v)),
            Err(m) => Err(m),
        };
    }
    if same_text(op, "$lt") {
        return match read_bound(d, j) {
            Ok(v) => Ok(MetadataFilter::lt(key, v)),
            Err(m) => Err(m),
        };
    }
    if same_text(op, "$lte") {
        return match read_bound(d, j) {
            Ok(v) => Ok(MetadataFilter::lte(key, v)),
            Err(m) => Err(m),
        };
    }
    if same_text(op, "$exists") {
        return match j {
            Json::Bool(b) => {
                if *b {
                    Ok(MetadataFilter::exists_key(key))
                } else {
                    let present = MetadataFilter::exists_key(key);
                    proof {
                        assert(present.deep_view() == FilterModel::Exists(key@));
                    }
                    Ok(MetadataFilter::not(present))
                }
            },
            _ => Err("$exists expects a boolean".to_owned()),
        };
    }
    if same_text(op, "$elemMatch") {
        let is_object: bool = match j {
            Json::Object(_) => true,
            _ => false,
        };
        if !is_object {
            match d {
                Dialect::Node => {
                    return Err("$elemMatch expects a JSON object".to_owned());
                },
                Dialect::Foreign => {},
            }
        }
        let inner = if only_operators(j) {
            json_field_filter(d, "_", j)
        } else {
            json_to_filter(d, j)
        };
        return match inner {
            Ok(f) => Ok(MetadataFilter::elem_match(key, f)),
            Err(m) => Err(m),
        };
    }
    if same_text(op, "$size") {
        if let Json::Number(n) = j {
            if let Some(v) = n.natural {
                return Ok(MetadataFilter::size(key, v as usize));
            }
        }
        return match d {
            Dialect::Node => Err("$size must be an unsigned integer".to_owned()),
            Dialect::Foreign => Err("$size expects a positive integer".to_owned()),
        };
    }
    Err(concat2("unsupported filter operator: ", op))
}

} // verus!
