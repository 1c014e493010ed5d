//! Metadata, vectors and filters in JSON.
use vstd::prelude::*;
use crate::json::{lemma_array_view, lemma_object_view, Json, JsonModel};
use crate::metadata::{lemma_list_view, lemma_map_view, Metadata, MetadataValue, ValueModel};
use crate::order::Duplicate;
use crate::ordered_map::{insert_pair, OrderedMap};

verus! {

/// The two ways in which bindings word their errors and read borderline documents.
#[derive(Clone, Copy, Debug, PartialEq, Eq, Structural)]
pub enum Dialect {
    /// The Node.js binding.
    Node,
    /// The bindings that are generated for other languages.
    Foreign,
}

/// The error for a number that is neither an integer nor a double.
pub open spec fn number_message(d: Dialect) -> Seq<char> {
    match d {
        Dialect::Node => "metadata number must fit into an integer or float"@,
        Dialect::Foreign => "unsupported number value"@,
    }
}

/// The metadata value of a document. Integers that fit 64 bits stay integers.
pub open spec fn metadata_json(d: Dialect, j: JsonModel) -> Result<ValueModel, Seq<char>>
    decreases j, 0nat,
{
    match j {
        JsonModel::Null => Ok(ValueModel::Null),
        JsonModel::Bool(b) => Ok(ValueModel::Boolean(b)),
        JsonModel::Text(s) => Ok(ValueModel::Text(s)),
        JsonModel::Number(n) => match (n.integer, n.double) {
            (Some(i), _) => Ok(ValueModel::Integer(i)),
            (None, Some(f)) => Ok(ValueModel::Float(f)),
            (None, None) => Err(number_message(d)),
        },
        JsonModel::Array(items) => match metadata_items(d, items, items.len()) {
            Ok(v) => Ok(ValueModel::List(v)),
            Err(m) => Err(m),
        },
        JsonModel::Object(entries) => match metadata_entries(d, entries, entries.len()) {
            Ok(p) => Ok(ValueModel::Object(p)),
            Err(m) => Err(m),
        },
    }
}

/// The metadata values of the first `n` items.
pub open spec fn metadata_items(d: Dialect, items: Seq<JsonModel>, n: nat) -> Result<
    Seq<ValueModel>,
    Seq<char>,
>
    decreases items, n,
{
    if n == 0 || n > items.len() {
        Ok(Seq::empty())
    } else {
        match metadata_items(d, items, (n - 1) as nat) {
            Err(m) => Err(m),
            Ok(v) => match metadata_json(d, items[n - 1]) {
                Err(m) => Err(m),
                Ok(x) => Ok(v.push(x)),
            },
        }
    }
}

/// The metadata of the first `n` entries.
pub open spec fn metadata_entries(
    d: Dialect,
    entries: Seq<(Seq<char>, JsonModel)>,
    n: nat,
) -> Result<Seq<(Seq<char>, ValueModel)>, Seq<char>>
    decreases entries, n,
{
    if n == 0 || n > entries.len() {
        Ok(Seq::empty())
    } else {
        match metadata_entries(d, entries, (n - 1) as nat) {
            Err(m) => Err(m),
            Ok(v) => match metadata_json(d, entries[n - 1].1) {
                Err(m) => Err(m),
                Ok(x) => Ok(insert_pair::<String, ValueModel>(v, entries[n - 1].0, x)),
            },
        }
    }
}

/// Whether a result is a given outcome, with its message where it fails.
pub open spec fn agrees_with<T: DeepView>(
    r: Result<T, String>,
    want: Result<T::V, Seq<char>>,
) -> bool {
    match want {
        Ok(v) => r matches Ok(x) && x.deep_view() == v,
        Err(m) => r matches Err(e) && e@ == m,
    }
}

proof fn lemma_items_fail(d: Dialect, items: Seq<JsonModel>, k: nat, n: nat)
    requires
        k <= n <= items.len(),
        metadata_items(d, items, k) is Err,
    ensures
        metadata_items(d, items, n) == metadata_items(d, items, k),
    decreases n - k,
{
    if k < n {
        lemma_items_fail(d, items, k, (n - 1) as nat);
    }
}

proof fn lemma_entries_fail(
    d: Dialect,
    entries: Seq<(Seq<char>, JsonModel)>,
    k: nat,
    n: nat,
)
    requires
        k <= n <= entries.len(),
        metadata_entries(d, entries, k) is Err,
    ensures
        metadata_entries(d, entries, n) == metadata_entries(d, entries, k),
    decreases n - k,
{
    if k < n {
        lemma_entries_fail(d, entries, k, (n - 1) as nat);
    }
}

/// The metadata value of a document.
pub fn json_to_metadata_value(d: Dialect, j: &Json) -> (r: Result<MetadataValue, String>)
    ensures
        agrees_with(r, metadata_json(d, j.deep_view())),
    decreases j,
{
    match j {
        Json::Null => Ok(MetadataValue::Null),
        Json::Bool(b) => Ok(MetadataValue::Boolean(*b)),
        Json::Text(s) => Ok(MetadataValue::String(s.duplicate())),
        Json::Number(n) => match (n.integer, n.double) {
            (Some(i), _) => Ok(MetadataValue::Integer(i)),
            (None, Some(f)) => Ok(MetadataValue::Float(f)),
            (None, None) => match d {
                Dialect::Node => Err(
                    "metadata number must fit into an integer or float".to_owned(),
                ),
                Dialect::Foreign => Err("unsupported number value".to_owned()),
            },
        },
        Json::Array(items) => {
            let ghost all = items.deep_view();
            let mut out: Vec<MetadataValue> = Vec::new();
            let mut i: usize = 0;
            proof {
                lemma_array_view(*items);
                assert(out.deep_view() =~= Seq::<ValueModel>::empty());
            }
            while i < items.len()
                invariant
                    *j == Json::Array(*items),
                    j.deep_view() == JsonModel::Array(all),
                    i <= items@.len(),
                    all == items.deep_view(),
                    metadata_items(d, all, i as nat) == Ok::<Seq<ValueModel>, Seq<char>>(
                        out.deep_view(),
                    ),
                decreases items@.len() - i,
            {
                let ghost before = out.deep_view();
                proof {
                    assert(all[i as int] == items@[i as int].deep_view());
                    assert(decreases_to!(*j => items@[i as int]));
                }
                match json_to_metadata_value(d, &items[i]) {
                    Ok(v) => {
                        out.push(v);
                        proof {
                            assert(out.deep_view() =~= before.push(v.deep_view()));
                        }
                    },
                    Err(m) => {
                        proof {
                            lemma_items_fail(d, all, (i + 1) as nat, all.len());
                        }
                        return Err(m);
                    },
                }
                i += 1;
            }
            proof {
                lemma_list_view(out);
            }
            Ok(MetadataValue::List(out))
        },
        Json::Object(entries) => {
            let ghost all = entries.deep_view();
            let mut out: Metadata = OrderedMap::new();
            let mut i: usize = 0;
            proof {
                lemma_object_view(*entries);
            }
            while i < entries.len()
                invariant
                    *j == Json::Object(*entries),
                    j.deep_view() == JsonModel::Object(all),
                    i <= entries@.len(),
                    all == entries.deep_view(),
                    metadata_entries(d, all, i as nat) == Ok::<
                        Seq<(Seq<char>, ValueModel)>,
                        Seq<char>,
                    >(out.pairs()),
                decreases entries@.len() - i,
            {
                proof {
                    assert(all[i as int] == entries@[i as int].deep_view());
                    assert(decreases_to!(*j => entries@[i as int]));
                    assert(decreases_to!(entries@[i as int] => entries@[i as int].1));
                }
                match json_to_metadata_value(d, &entries[i].1) {
                    Ok(v) => {
                        out.insert(entries[i].0.duplicate(), v);
                    },
                    Err(m) => {
                        proof {
                            lemma_entries_fail(d, all, (i + 1) as nat, all.len());
                        }
                        return Err(m);
                    },
                }
                i += 1;
            }
            proof {
                lemma_map_view(out);
            }
            Ok(MetadataValue::Object(out))
        },
    }
}

/// The metadata of a document, which has to be an object.
pub open spec fn metadata_document(d: Dialect, j: JsonModel) -> Result<
    Seq<(Seq<char>, ValueModel)>,
    Seq<char>,
> {
    match j {
        JsonModel::Object(entries) => metadata_entries(d, entries, entries.len()),
        _ => Err("metadata must be a JSON object"@),
    }
}

/// The metadata of a document.
pub fn json_to_metadata(d: Dialect, j: &Json) -> (r: Result<Metadata, String>)
    ensures
        match metadata_document(d, j.deep_view()) {
            Ok(p) => r matches Ok(x) && x.pairs() == p,
            Err(m) => r matches Err(e) && e@ == m,
        },
{
    match j {
        Json::Object(entries) => {
            proof {
                lemma_object_view(*entries);
            }
            match json_to_metadata_value(d, j) {
                Ok(MetadataValue::Object(map)) => {
                    proof {
                        lemma_map_view(map);
                    }
                    Ok(map)
                },
                Ok(_) => Ok(OrderedMap::new()),
                Err(m) => Err(m),
            }
        },
        _ => Err("metadata must be a JSON object".to_owned()),
    }
}

} // verus!
