//! Metadata from Python objects.
use vstd::prelude::*;
use crate::metadata::{lemma_list_view, lemma_map_view, Metadata, MetadataValue, ValueModel};
use crate::order::Duplicate;
use crate::ordered_map::{insert_pair, OrderedMap};

verus! {

/// A Python object.
pub enum PythonValue {
    /// The object `None`.
    Nothing,
    Bool(bool),
    /// An integer: as one of 64 bits and as a size, where it fits.
    Int { small: Option<i64>, size: Option<usize> },
    /// The pattern of a float.
    Float(u64),
    Text(String),
    List(Vec<PythonValue>),
    /// A dictionary; a key that is no text is missing.
    Dict(Vec<(Option<String>, PythonValue)>),
    /// An object of another type: what it is as a truth value and as a size, where it converts.
    Other { truth: Option<bool>, size: Option<usize> },
}

/// The mathematical value of a Python object.
pub enum PythonModel {
    /// The object `None`.
    Nothing,
    Bool(bool),
    Int { small: Option<i64>, size: Option<usize> },
    Float(u64),
    Text(Seq<char>),
    List(Seq<PythonModel>),
    Dict(Seq<(Option<Seq<char>>, PythonModel)>),
    Other { truth: Option<bool>, size: Option<usize> },
}

/// The mathematical value of a Python object.
pub open spec fn python_of(v: PythonValue) -> PythonModel
    decreases v,
{
    match v {
        PythonValue::Nothing => PythonModel::Nothing,
        PythonValue::Bool(b) => PythonModel::Bool(b),
        PythonValue::Int { small, size } => PythonModel::Int { small, size },
        PythonValue::Float(f) => PythonModel::Float(f),
        PythonValue::Text(s) => PythonModel::Text(s@),
        PythonValue::List(items) => PythonModel::List(
            Seq::new(
                items@.len(),
                |i: int|
                    if 0 <= i < items@.len() {
                        python_of(items@[i])
                    } else {
                        PythonModel::Nothing
                    },
            ),
        ),
        PythonValue::Dict(entries) => PythonModel::Dict(
            Seq::new(
                entries@.len(),
                |i: int|
                    if 0 <= i < entries@.len() {
                        (entries@[i].0.deep_view(), python_of(entries@[i].1))
                    } else {
                        (None, PythonModel::Nothing)
                    },
            ),
        ),
        PythonValue::Other { truth, size } => PythonModel::Other { truth, size },
    }
}

impl DeepView for PythonValue {
    type V = PythonModel;

    open spec fn deep_view(&self) -> PythonModel {
        python_of(*self)
    }
}

pub(crate) proof fn lemma_python_list(items: Vec<PythonValue>)
    ensures
        PythonValue::List(items).deep_view() == PythonModel::List(items.deep_view()),
{
    assert(python_of(PythonValue::List(items))->List_0 =~= items.deep_view());
}

pub(crate) proof fn lemma_python_dict(entries: Vec<(Option<String>, PythonValue)>)
    ensures
        PythonValue::Dict(entries).deep_view() == PythonModel::Dict(entries.deep_view()),
{
    assert(python_of(PythonValue::Dict(entries))->Dict_0 =~= entries.deep_view());
}

/// What an object has to be.
#[derive(Clone, Copy, Debug, PartialEq, Eq, Structural)]
pub enum PythonType {
    Dict,
    List,
    Text,
    Bool,
    /// An integer of 64 bits.
    Integer,
    Size,
}

/// The exception that is raised.
pub enum PythonError {
    /// A `ValueError` with its words.
    Value(String),
    /// A `TypeError` with its words.
    Type(String),
    /// The exception of a conversion to a type that does not fit the object.
    Mismatch(PythonType),
}

/// The mathematical value of an exception.
pub enum PythonFailure {
    Value(Seq<char>),
    Type(Seq<char>),
    Mismatch(PythonType),
}

impl PythonError {
    pub open spec fn view(&self) -> PythonFailure {
        match *self {
            PythonError::Value(m) => PythonFailure::Value(m@),
            PythonError::Type(m) => PythonFailure::Type(m@),
            PythonError::Mismatch(t) => PythonFailure::Mismatch(t),
        }
    }
}

/// Whether a result is a given outcome, with its exception where it fails.
pub open spec fn conforms<T: DeepView>(
    r: Result<T, PythonError>,
    want: Result<T::V, PythonFailure>,
) -> bool {
    match want {
        Ok(v) => r matches Ok(x) && x.deep_view() == v,
        Err(f) => r matches Err(e) && e@ == f,
    }
}

/// The metadata value of an object.
pub open spec fn metadata_python(v: PythonModel) -> Result<ValueModel, PythonFailure>
    decreases v, 0nat,
{
    match v {
        PythonModel::Nothing => Ok(ValueModel::Null),
        PythonModel::Bool(b) => Ok(ValueModel::Boolean(b)),
        PythonModel::Text(s) => Ok(ValueModel::Text(s)),
        PythonModel::Int { small: Some(i), .. } => Ok(ValueModel::Integer(i)),
        PythonModel::Int { small: None, .. } => Err(PythonFailure::Mismatch(PythonType::Integer)),
        PythonModel::Float(f) => Ok(ValueModel::Float(f)),
        PythonModel::List(items) => match python_items(items, items.len()) {
            Ok(x) => Ok(ValueModel::List(x)),
            Err(f) => Err(f),
        },
        PythonModel::Dict(entries) => match python_entries(entries, entries.len()) {
            Ok(p) => Ok(ValueModel::Object(p)),
            Err(f) => Err(f),
        },
        PythonModel::Other { .. } => Err(
            PythonFailure::Type(
                "metadata values must be str, int, float, bool, None, list, or dict"@,
            ),
        ),
    }
}

/// The metadata values of the first `n` items.
pub open spec fn python_items(items: Seq<PythonModel>, n: nat) -> Result<
    Seq<ValueModel>,
    PythonFailure,
>
    decreases items, n,
{
    if n == 0 || n > items.len() {
        Ok(Seq::empty())
    } else {
        match python_items(items, (n - 1) as nat) {
            Err(f) => Err(f),
            Ok(v) => match metadata_python(items[n - 1]) {
                Err(f) => Err(f),
                Ok(x) => Ok(v.push(x)),
            },
        }
    }
}

/// The metadata of the first `n` entries.
pub open spec fn python_entries(entries: Seq<(Option<Seq<char>>, PythonModel)>, n: nat) -> Result<
    Seq<(Seq<char>, ValueModel)>,
    PythonFailure,
>
    decreases entries, n,
{
    if n == 0 || n > entries.len() {
        Ok(Seq::empty())
    } else {
        match python_entries(entries, (n - 1) as nat) {
            Err(f) => Err(f),
            Ok(v) => match entries[n - 1].0 {
                None => Err(PythonFailure::Mismatch(PythonType::Text)),
                Some(key) => match metadata_python(entries[n - 1].1) {
                    Err(f) => Err(f),
                    Ok(x) => Ok(insert_pair::<String, ValueModel>(v, key, x)),
                },
            },
        }
    }
}

proof fn lemma_items_fail(items: Seq<PythonModel>, k: nat, n: nat)
    requires
        k <= n <= items.len(),
        python_items(items, k) is Err,
    ensures
        python_items(items, n) == python_items(items, k),
    decreases n - k,
{
    if k < n {
        lemma_items_fail(items, k, (n - 1) as nat);
    }
}

proof fn lemma_entries_fail(entries: Seq<(Option<Seq<char>>, PythonModel)>, k: nat, n: nat)
    requires
        k <= n <= entries.len(),
        python_entries(entries, k) is Err,
    ensures
        python_entries(entries, n) == python_entries(entries, k),
    decreases n - k,
{
    if k < n {
        lemma_entries_fail(entries, k, (n - 1) as nat);
    }
}

/// The metadata value of an object.
pub fn py_to_metadata_value(v: &PythonValue) -> (r: Result<MetadataValue, PythonError>)
    ensures
        conforms(r, metadata_python(v.deep_view())),
    decreases v, 1nat,
{
    match v {
        PythonValue::Nothing => Ok(MetadataValue::Null),
        PythonValue::Bool(b) => Ok(MetadataValue::Boolean(*b)),
        PythonValue::Text(s) => Ok(MetadataValue::String(s.duplicate())),
        PythonValue::Int { small, .. } => match small {
            Some(i) => Ok(MetadataValue::Integer(*i)),
            None => Err(PythonError::Mismatch(PythonType::Integer)),
        },
        PythonValue::Float(f) => Ok(MetadataValue::Float(*f)),
        PythonValue::List(items) => {
            proof {
                lemma_python_list(*items);
                assert(decreases_to!(v => items));
            }
            match extract_metadata_items(items) {
                Ok(values) => {
                    proof {
                        lemma_list_view(values);
                    }
                    Ok(MetadataValue::List(values))
                },
                Err(e) => Err(e),
            }
        },
        PythonValue::Dict(entries) => {
            proof {
                lemma_python_dict(*entries);
                assert(decreases_to!(v => entries));
            }
            match parse_metadata_dict(entries) {
                Ok(map) => {
                    proof {
                        lemma_map_view(map);
                    }
                    Ok(MetadataValue::Object(map))
                },
                Err(e) => Err(e),
            }
        },
        PythonValue::Other { .. } => Err(
            PythonError::Type(
                "metadata values must be str, int, float, bool, None, list, or dict".to_owned(),
            ),
        ),
    }
}

/// The metadata values of items.
pub fn extract_metadata_items(items: &Vec<PythonValue>) -> (r: Result<
    Vec<MetadataValue>,
    PythonError,
>)
    ensures
        conforms(r, python_items(items.deep_view(), items@.len())),
    decreases items, 0nat,
{
    let ghost all = items.deep_view();
    let mut out: Vec<MetadataValue> = Vec::new();
    let mut i: usize = 0;
    proof {
        assert(out.deep_view() =~= Seq::<ValueModel>::empty());
    }
    while i < items.len()
        invariant
            i <= items@.len(),
            all == items.deep_view(),
            python_items(all, i as nat) == Ok::<Seq<ValueModel>, PythonFailure>(out.deep_view()),
        decreases items@.len() - i,
    {
        let ghost before = out.deep_view();
        proof {
            assert(all[i as int] == items@[i as int].deep_view());
            assert(decreases_to!(*items => items@[i as int]));
        }
        match py_to_metadata_value(&items[i]) {
            Ok(x) => {
                out.push(x);
                proof {
                    assert(out.deep_view() =~= before.push(x.deep_view()));
                }
            },
            Err(e) => {
                proof {
                    lemma_items_fail(all, (i + 1) as nat, all.len());
                }
                return Err(e);
            },
        }
        i += 1;
    }
    Ok(out)
}

/// The metadata of a dictionary.
pub fn parse_metadata_dict(entries: &Vec<(Option<String>, PythonValue)>) -> (r: Result<
    Metadata,
    PythonError,
>)
    ensures
        match python_entries(entries.deep_view(), entries@.len()) {
            Ok(p) => r matches Ok(x) && x.pairs() == p,
            Err(f) => r matches Err(e) && e@ == f,
        },
    decreases entries, 0nat,
{
    let ghost all = entries.deep_view();
    let mut out: Metadata = OrderedMap::new();
    let mut i: usize = 0;
    while i < entries.len()
        invariant
            i <= entries@.len(),
            all == entries.deep_view(),
            python_entries(all, i as nat) == Ok::<Seq<(Seq<char>, ValueModel)>, PythonFailure>(
                out.pairs(),
            ),
        decreases entries@.len() - i,
    {
        proof {
            assert(all[i as int] == entries@[i as int].deep_view());
            assert(decreases_to!(*entries => entries@[i as int]));
            assert(decreases_to!(entries@[i as int] => entries@[i as int].1));
        }
        match &entries[i].0 {
            None => {
                proof {
                    lemma_entries_fail(all, (i + 1) as nat, all.len());
                }
                return Err(PythonError::Mismatch(PythonType::Text));
            },
            Some(key) => match py_to_metadata_value(&entries[i].1) {
                Ok(x) => {
                    out.insert(key.duplicate(), x);
                },
                Err(e) => {
                    proof {
                        lemma_entries_fail(all, (i + 1) as nat, all.len());
                    }
                    return Err(e);
                },
            },
        }
        i += 1;
    }
    Ok(out)
}

} // verus!
