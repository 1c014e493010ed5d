//! Vectors in JSON.
use vstd::prelude::*;
use crate::float_bits::{double_finite, double_is_finite, narrow, narrowed};
use crate::json::{lemma_array_view, lemma_object_view, Json, JsonModel};
use crate::json_values::{agrees_with, Dialect};
use crate::order::Duplicate;
use crate::ordered_map::{insert_pair, OrderedMap};
use crate::record::{MultiVectors, NamedVectors, SparseVector};
use crate::text::concat2;

verus! {

/// The single-precision number of a document.
pub open spec fn single_json(j: JsonModel) -> Option<u32> {
    match j {
        JsonModel::Number(n) => match n.double {
            Some(f) => Some(narrowed(f)),
            None => None,
        },
        _ => None,
    }
}

/// The single-precision numbers of the first `n` items, where all are numbers.
pub open spec fn singles_json(items: Seq<JsonModel>, n: nat) -> Option<Seq<u32>>
    decreases n,
{
    if n == 0 || n > items.len() {
        Some(Seq::empty())
    } else {
        match (singles_json(items, (n - 1) as nat), single_json(items[n - 1])) {
            (Some(v), Some(x)) => Some(v.push(x)),
            _ => None,
        }
    }
}

/// The error for a vector that is no array.
pub open spec fn array_message(d: Dialect, label: Seq<char>) -> Seq<char> {
    match d {
        Dialect::Node => label + " must be a JSON array of numbers"@,
        Dialect::Foreign => "vector must be an array"@,
    }
}

/// The error for a component that is no number.
pub open spec fn component_message(d: Dialect, label: Seq<char>) -> Seq<char> {
    match d {
        Dialect::Node => label + " must contain numeric values"@,
        Dialect::Foreign => "vector elements must be numbers"@,
    }
}

/// The vector of a document.
pub open spec fn vector_json(d: Dialect, label: Seq<char>, j: JsonModel) -> Result<
    Seq<u32>,
    Seq<char>,
> {
    match j {
        JsonModel::Array(items) => match singles_json(items, items.len()) {
            Some(v) => Ok(v),
            None => Err(component_message(d, label)),
        },
        _ => Err(array_message(d, label)),
    }
}

pub(crate) proof fn lemma_singles_fail(items: Seq<JsonModel>, k: nat, n: nat)
    requires
        k <= n <= items.len(),
        singles_json(items, k) is None,
    ensures
        singles_json(items, n) is None,
    decreases n - k,
{
    if k < n {
        lemma_singles_fail(items, k, (n - 1) as nat);
    }
}

/// The single-precision number of a document.
pub fn json_to_single(j: &Json) -> (r: Option<u32>)
    ensures
        r == single_json(j.deep_view()),
{
    if let Json::Number(n) = j {
        if let Some(f) = n.double {
            return Some(narrow(f));
        }
    }
    None
}

/// The vector of a document.
pub fn json_to_vector(d: Dialect, label: &str, j: &Json) -> (r: Result<Vec<u32>, String>)
    ensures
        agrees_with(r, vector_json(d, label@, j.deep_view())),
{
    match j {
        Json::Array(items) => {
            let ghost all = items.deep_view();
            let mut out: Vec<u32> = Vec::new();
            let mut i: usize = 0;
            proof {
                lemma_array_view(*items);
            }
            while i < items.len()
                invariant
                    j.deep_view() == JsonModel::Array(all),
                    i <= items@.len(),
                    all == items.deep_view(),
                    singles_json(all, i as nat) == Some(out@),
                decreases items@.len() - i,
            {
                proof {
                    assert(all[i as int] == items@[i as int].deep_view());
                }
                match json_to_single(&items[i]) {
                    Some(x) => {
                        out.push(x);
                    },
                    None => {
                        proof {
                            lemma_singles_fail(all, (i + 1) as nat, all.len());
                        }
                        return match d {
                            Dialect::Node => Err(concat2(label, " must contain numeric values")),
                            Dialect::Foreign => Err("vector elements must be numbers".to_owned()),
                        };
                    },
                }
                i += 1;
            }
            proof {
                assert(out.deep_view() =~= out@);
            }
            Ok(out)
        },
        _ => match d {
            Dialect::Node => Err(concat2(label, " must be a JSON array of numbers")),
            Dialect::Foreign => Err("vector must be an array".to_owned()),
        },
    }
}

/// The vector of JavaScript numbers, all of which have to be finite.
pub open spec fn vector_of_doubles(label: Seq<char>, values: Seq<u64>) -> Result<
    Seq<u32>,
    Seq<char>,
> {
    if forall|i: int| 0 <= i < values.len() ==> double_is_finite(#[trigger] values[i]) {
        Ok(values.map_values(|v: u64| narrowed(v)))
    } else {
        Err(label + " must contain finite numeric values"@)
    }
}

/// The vector of JavaScript numbers.
pub fn js_vector_to_core(values: &Vec<u64>, label: &str) -> (r: Result<Vec<u32>, String>)
    ensures
        match vector_of_doubles(label@, values@) {
            Ok(v) => r matches Ok(x) && x@ == v,
            Err(m) => r matches Err(e) && e@ == m,
        },
{
    let mut out: Vec<u32> = Vec::new();
    let mut i: usize = 0;
    while i < values.len()
        invariant
            i <= values@.len(),
            forall|k: int| 0 <= k < i ==> double_is_finite(#[trigger] values@[k]),
            out@ == values@.take(i as int).map_values(|v: u64| narrowed(v)),
        decreases values@.len() - i,
    {
        if !double_finite(values[i]) {
            return Err(concat2(label, " must contain finite numeric values"));
        }
        out.push(narrow(values[i]));
        i += 1;
        proof {
            assert(out@ =~= values@.take(i as int).map_values(|v: u64| narrowed(v)));
        }
    }
    proof {
        assert(values@.take(i as int) =~= values@);
    }
    Ok(out)
}

/// The sparse vector of the first `n` entries, where all weights are numbers.
pub open spec fn sparse_entries(entries: Seq<(Seq<char>, JsonModel)>, n: nat) -> Option<
    Seq<(Seq<char>, u32)>,
>
    decreases n,
{
    if n == 0 || n > entries.len() {
        Some(Seq::empty())
    } else {
        match (sparse_entries(entries, (n - 1) as nat), single_json(entries[n - 1].1)) {
            (Some(v), Some(x)) => Some(insert_pair::<String, u32>(v, entries[n - 1].0, x)),
            _ => None,
        }
    }
}

/// The error for a sparse vector that is no object; `part` says whether it is part of a record.
pub open spec fn sparse_message(d: Dialect, part: bool) -> Seq<char> {
    match (d, part) {
        (Dialect::Foreign, true) => "sparse must be an object"@,
        _ => "sparse vector must be a JSON object"@,
    }
}

/// The error for a weight that is no number.
pub open spec fn weight_message(d: Dialect) -> Seq<char> {
    match d {
        Dialect::Node => "sparse weights must contain numeric values"@,
        Dialect::Foreign => "sparse weight must be a number"@,
    }
}

/// The sparse vector of a document.
pub open spec fn sparse_json(d: Dialect, part: bool, j: JsonModel) -> Result<
    Seq<(Seq<char>, u32)>,
    Seq<char>,
> {
    match j {
        JsonModel::Object(entries) => match sparse_entries(entries, entries.len()) {
            Some(v) => Ok(v),
            None => Err(weight_message(d)),
        },
        _ => Err(sparse_message(d, part)),
    }
}

proof fn lemma_sparse_fails(entries: Seq<(Seq<char>, JsonModel)>, k: nat, n: nat)
    requires
        k <= n <= entries.len(),
        sparse_entries(entries, k) is None,
    ensures
        sparse_entries(entries, n) is None,
    decreases n - k,
{
    if k < n {
        lemma_sparse_fails(entries, k, (n - 1) as nat);
    }
}

/// The sparse vector of a document. `part` says whether it is part of a record.
pub fn json_to_sparse(d: Dialect, part: bool, j: &Json) -> (r: Result<SparseVector, String>)
    ensures
        match sparse_json(d, part, j.deep_view()) {
            Ok(p) => r matches Ok(x) && x.pairs() == p,
            Err(m) => r matches Err(e) && e@ == m,
        },
{
    match j {
        Json::Object(entries) => {
            let ghost all = entries.deep_view();
            let mut out: SparseVector = OrderedMap::new();
            let mut i: usize = 0;
            proof {
                lemma_object_view(*entries);
            }
            while i < entries.len()
                invariant
                    j.deep_view() == JsonModel::Object(all),
                    i <= entries@.len(),
                    all == entries.deep_view(),
                    sparse_entries(all, i as nat) == Some(out.pairs()),
                decreases entries@.len() - i,
            {
                proof {
                    assert(all[i as int] == entries@[i as int].deep_view());
                }
                match json_to_single(&entries[i].1) {
                    Some(x) => {
                        out.insert(entries[i].0.duplicate(), x);
                    },
                    None => {
                        proof {
                            lemma_sparse_fails(all, (i + 1) as nat, all.len());
                        }
                        return match d {
                            Dialect::Node => Err(
                                "sparse weights must contain numeric values".to_owned(),
                            ),
                            Dialect::Foreign => Err("sparse weight must be a number".to_owned()),
                        };
                    },
                }
                i += 1;
            }
            Ok(out)
        },
        _ => match (d, part) {
            (Dialect::Foreign, true) => Err("sparse must be an object".to_owned()),
            _ => Err("sparse vector must be a JSON object".to_owned()),
        },
    }
}

/// The named vectors of the first `n` entries.
pub open spec fn named_entries(entries: Seq<(Seq<char>, JsonModel)>, n: nat) -> Result<
    Seq<(Seq<char>, Seq<u32>)>,
    Seq<char>,
>
    decreases n,
{
    if n == 0 || n > entries.len() {
        Ok(Seq::empty())
    } else {
        match named_entries(entries, (n - 1) as nat) {
            Err(m) => Err(m),
            Ok(v) => if entries[n - 1].0.len() == 0 {
                Err("named vectors must not use an empty name"@)
            } else {
                match vector_json(Dialect::Node, "named vector"@, entries[n - 1].1) {
                    Err(m) => Err(m),
                    Ok(x) => Ok(insert_pair::<String, Seq<u32>>(v, entries[n - 1].0, x)),
                }
            },
        }
    }
}

/// The named vectors of a document.
pub open spec fn named_json(j: JsonModel) -> Result<Seq<(Seq<char>, Seq<u32>)>, Seq<char>> {
    match j {
        JsonModel::Object(entries) => named_entries(entries, entries.len()),
        _ => Err("named vectors must be a JSON object"@),
    }
}

proof fn lemma_named_fails(entries: Seq<(Seq<char>, JsonModel)>, k: nat, n: nat)
    requires
        k <= n <= entries.len(),
        named_entries(entries, k) is Err,
    ensures
        named_entries(entries, n) == named_entries(entries, k),
    decreases n - k,
{
    if k < n {
        lemma_named_fails(entries, k, (n - 1) as nat);
    }
}

/// The named vectors of a document.
pub fn json_to_named_vectors(j: &Json) -> (r: Result<NamedVectors, String>)
    ensures
        match named_json(j.deep_view()) {
            Ok(p) => r matches Ok(x) && x.pairs() == p,
            Err(m) => r matches Err(e) && e@ == m,
        },
{
    match j {
        Json::Object(entries) => {
            let ghost all = entries.deep_view();
            let mut out: NamedVectors = OrderedMap::new();
            let mut i: usize = 0;
            proof {
                lemma_object_view(*entries);
            }
            while i < entries.len()
                invariant
                    j.deep_view() == JsonModel::Object(all),
                    i <= entries@.len(),
                    all == entries.deep_view(),
                    named_entries(all, i as nat) == Ok::<
                        Seq<(Seq<char>, Seq<u32>)>,
                        Seq<char>,
                    >(out.pairs()),
                decreases entries@.len() - i,
            {
                proof {
                    assert(all[i as int] == entries@[i as int].deep_view());
                    if named_entries(all, (i + 1) as nat) is Err {
                        lemma_named_fails(all, (i + 1) as nat, all.len());
                    }
                }
                if entries[i].0.as_str().is_empty() {
                    return Err("named vectors must not use an empty name".to_owned());
                }
                match json_to_vector(Dialect::Node, "named vector", &entries[i].1) {
                    Ok(v) => {
                        out.insert(entries[i].0.duplicate(), v);
                    },
                    Err(m) => {
                        return Err(m);
                    },
                }
                i += 1;
            }
            Ok(out)
        },
        _ => Err("named vectors must be a JSON object".to_owned()),
    }
}

/// The token vectors of the first `n` items.
pub open spec fn token_items(items: Seq<JsonModel>, n: nat) -> Result<Seq<Seq<u32>>, Seq<char>>
    decreases n,
{
    if n == 0 || n > items.len() {
        Ok(Seq::empty())
    } else {
        match token_items(items, (n - 1) as nat) {
            Err(m) => Err(m),
            Ok(v) => match vector_json(Dialect::Node, "multi-vector token"@, items[n - 1]) {
                Err(m) => Err(m),
                Ok(x) => Ok(v.push(x)),
            },
        }
    }
}

/// The token vectors of a space.
pub open spec fn tokens_json(j: JsonModel) -> Result<Seq<Seq<u32>>, Seq<char>> {
    match j {
        JsonModel::Array(items) => token_items(items, items.len()),
        _ => Err("multi-vector space value must be an array of arrays"@),
    }
}

proof fn lemma_tokens_fail(items: Seq<JsonModel>, k: nat, n: nat)
    requires
        k <= n <= items.len(),
        token_items(items, k) is Err,
    ensures
        token_items(items, n) == token_items(items, k),
    decreases n - k,
{
    if k < n {
        lemma_tokens_fail(items, k, (n - 1) as nat);
    }
}

/// The token vectors of a space.
pub fn json_to_tokens(j: &Json) -> (r: Result<Vec<Vec<u32>>, String>)
    ensures
        agrees_with(r, tokens_json(j.deep_view())),
{
    match j {
        Json::Array(items) => {
            let ghost all = items.deep_view();
            let mut out: Vec<Vec<u32>> = Vec::new();
            let mut i: usize = 0;
            proof {
                lemma_array_view(*items);
                assert(out.deep_view() =~= Seq::<Seq<u32>>::empty());
            }
            while i < items.len()
                invariant
                    j.deep_view() == JsonModel::Array(all),
                    i <= items@.len(),
                    all == items.deep_view(),
                    token_items(all, i as nat) == Ok::<Seq<Seq<u32>>, Seq<char>>(out.deep_view()),
                decreases items@.len() - i,
            {
                let ghost before = out.deep_view();
                proof {
                    assert(all[i as int] == items@[i as int].deep_view());
                    if token_items(all, (i + 1) as nat) is Err {
                        lemma_tokens_fail(all, (i + 1) as nat, all.len());
                    }
                }
                match json_to_vector(Dialect::Node, "multi-vector token", &items[i]) {
                    Ok(v) => {
                        out.push(v);
                        proof {
                            assert(out.deep_view() =~= before.push(v.deep_view()));
                        }
                    },
                    Err(m) => {
                        return Err(m);
                    },
                }
                i += 1;
            }
            Ok(out)
        },
        _ => Err("multi-vector space value must be an array of arrays".to_owned()),
    }
}

/// The spaces of token vectors of the first `n` entries.
pub open spec fn space_entries(entries: Seq<(Seq<char>, JsonModel)>, n: nat) -> Result<
    Seq<(Seq<char>, Seq<Seq<u32>>)>,
    Seq<char>,
>
    decreases n,
{
    if n == 0 || n > entries.len() {
        Ok(Seq::empty())
    } else {
        match space_entries(entries, (n - 1) as nat) {
            Err(m) => Err(m),
            Ok(v) => if entries[n - 1].0.len() == 0 {
                Err("multi-vector space names must not be empty"@)
            } else {
                match tokens_json(entries[n - 1].1) {
                    Err(m) => Err(m),
                    Ok(x) => Ok(insert_pair::<String, Seq<Seq<u32>>>(v, entries[n - 1].0, x)),
                }
            },
        }
    }
}

/// The spaces of token vectors of a document.
pub open spec fn spaces_json(j: JsonModel) -> Result<Seq<(Seq<char>, Seq<Seq<u32>>)>, Seq<char>> {
    match j {
        JsonModel::Object(entries) => space_entries(entries, entries.len()),
        _ => Err("multi_vectors must be a JSON object"@),
    }
}

proof fn lemma_spaces_fail(entries: Seq<(Seq<char>, JsonModel)>, k: nat, n: nat)
    requires
        k <= n <= entries.len(),
        space_entries(entries, k) is Err,
    ensures
        space_entries(entries, n) == space_entries(entries, k),
    decreases n - k,
{
    if k < n {
        lemma_spaces_fail(entries, k, (n - 1) as nat);
    }
}

/// The spaces of token vectors of a document.
pub fn json_to_multi_vectors(j: &Json) -> (r: Result<MultiVectors, String>)
    ensures
        match spaces_json(j.deep_view()) {
            Ok(p) => r matches Ok(x) && x.pairs() == p,
            Err(m) => r matches Err(e) && e@ == m,
        },
{
    match j {
        Json::Object(entries) => {
            let ghost all = entries.deep_view();
            let mut out: MultiVectors = OrderedMap::new();
            let mut i: usize = 0;
            proof {
                lemma_object_view(*entries);
            }
            while i < entries.len()
                invariant
                    j.deep_view() == JsonModel::Object(all),
                    i <= entries@.len(),
                    all == entries.deep_view(),
                    space_entries(all, i as nat) == Ok::<
                        Seq<(Seq<char>, Seq<Seq<u32>>)>,
                        Seq<char>,
                    >(out.pairs()),
                decreases entries@.len() - i,
            {
                proof {
                    assert(all[i as int] == entries@[i as int].deep_view());
                    if space_entries(all, (i + 1) as nat) is Err {
                        lemma_spaces_fail(all, (i + 1) as nat, all.len());
                    }
                }
                if entries[i].0.as_str().is_empty() {
                    return Err("multi-vector space names must not be empty".to_owned());
                }
                match json_to_tokens(&entries[i].1) {
                    Ok(v) => {
                        out.insert(entries[i].0.duplicate(), v);
                    },
                    Err(m) => {
                        return Err(m);
                    },
                }
                i += 1;
            }
            Ok(out)
        },
        _ => Err("multi_vectors must be a JSON object".to_owned()),
    }
}

} // verus!
