//! The texts of JSON documents.
use vstd::prelude::*;
use crate::json::{
    json_contents, lemma_array_view, lemma_object_view, Json, JsonModel, JsonNumber,
};
use crate::json_output::{integer_out, natural_out};
use crate::order::{Duplicate, Key};
use crate::ordered_map::{ascending, insert_pair, lemma_insert_last};

verus! {

/// The type of the objects of the `serde_json` crate.
#[verifier::external_type_specification]
#[verifier::external_body]
#[verifier::reject_recursive_types(K)]
#[verifier::reject_recursive_types(V)]
pub struct ExJsonMap<K, V>(serde_json::Map<K, V>);

/// The entries of an object of `serde_json`, in the order in which it walks them.
pub uninterp spec fn map_entries(
    map: serde_json::Map<String, serde_json::Value>,
) -> Seq<(Seq<char>, JsonModel)>;

/// The text that a document is written as.
pub uninterp spec fn json_written(document: JsonModel) -> Seq<char>;

/// Makes an object with `serde_json::Map::new`. The claim is that it has no entries.
#[verifier::external_body]
fn new_map() -> (r: serde_json::Map<String, serde_json::Value>)
    ensures
        map_entries(r) == Seq::<(Seq<char>, JsonModel)>::empty(),
{
    serde_json::Map::new()
}

/// Sets an entry with `serde_json::Map::insert`. The claim is that the entries are walked in the
/// order of their keys and that the value of a key that is there is replaced, which is how the map
/// behaves where its `preserve_order` feature is off.
#[verifier::external_body]
fn set_entry(
    map: &mut serde_json::Map<String, serde_json::Value>,
    key: String,
    value: serde_json::Value,
)
    ensures
        map_entries(*final(map)) == insert_pair::<String, JsonModel>(
            map_entries(*old(map)),
            key@,
            json_contents(value),
        ),
{
    map.insert(key, value);
}

/// What a document of `serde_json` is put together from.
enum Piece {
    Null,
    Bool(bool),
    Integer(i64),
    Natural(u64),
    Text(String),
    Array(Vec<serde_json::Value>),
    Object(serde_json::Map<String, serde_json::Value>),
}

/// What documents of `serde_json` hold.
pub open spec fn all_contents(values: Seq<serde_json::Value>) -> Seq<JsonModel> {
    Seq::new(values.len(), |i: int| json_contents(values[i]))
}

/// The document that a piece makes.
spec fn assembled(piece: Piece) -> JsonModel {
    match piece {
        Piece::Null => JsonModel::Null,
        Piece::Bool(b) => JsonModel::Bool(b),
        Piece::Integer(i) => integer_out(i),
        Piece::Natural(n) => natural_out(n),
        Piece::Text(s) => JsonModel::Text(s@),
        Piece::Array(items) => JsonModel::Array(all_contents(items@)),
        Piece::Object(map) => JsonModel::Object(map_entries(map)),
    }
}

/// Puts a `serde_json::Value` together by its variants; an integer becomes a number with
/// `Value::from`. The claim is that the value holds what the piece says. A number made from an
/// integer gives itself back as an integer and as a natural number where it fits, and as the
/// nearest double.
#[verifier::external_body]
fn put_together(piece: Piece) -> (r: serde_json::Value)
    ensures
        json_contents(r) == assembled(piece),
{
    match piece {
        Piece::Null => serde_json::Value::Null,
        Piece::Bool(b) => serde_json::Value::Bool(b),
        Piece::Integer(i) => serde_json::Value::from(i),
        Piece::Natural(n) => serde_json::Value::from(n),
        Piece::Text(s) => serde_json::Value::String(s),
        Piece::Array(items) => serde_json::Value::Array(items),
        Piece::Object(map) => serde_json::Value::Object(map),
    }
}

/// Writes a document with `serde_json::to_string`. The claim is that the text depends on what the
/// document holds alone, and that there always is one: serialisation fails on keys that are no
/// texts and in types that refuse it, and a `serde_json::Value` has neither.
#[verifier::external_body]
fn write_document(value: &serde_json::Value) -> (r: Result<String, String>)
    ensures
        r is Ok,
        r->Ok_0@ == json_written(json_contents(*value)),
{
    serde_json::to_string(value).map_err(|error| error.to_string())
}

/// The double that a number is, where it is no integer.
pub open spec fn proper_double(n: JsonNumber) -> Option<u64> {
    match (n.integer, n.natural) {
        (None, None) => n.double,
        _ => None,
    }
}

/// The doubles of a document, in the order in which they are met.
pub open spec fn document_doubles(m: JsonModel) -> Seq<u64>
    decreases m, 0nat,
{
    match m {
        JsonModel::Number(n) => match proper_double(n) {
            Some(bits) => seq![bits],
            None => Seq::empty(),
        },
        JsonModel::Array(items) => array_doubles(items, items.len()),
        JsonModel::Object(entries) => object_doubles(entries, entries.len()),
        _ => Seq::empty(),
    }
}

/// The doubles of the first `n` items.
pub open spec fn array_doubles(items: Seq<JsonModel>, n: nat) -> Seq<u64>
    decreases items, n,
{
    if n == 0 || n > items.len() {
        Seq::empty()
    } else {
        array_doubles(items, (n - 1) as nat) + document_doubles(items[n - 1])
    }
}

/// The doubles of the first `n` entries.
pub open spec fn object_doubles(entries: Seq<(Seq<char>, JsonModel)>, n: nat) -> Seq<u64>
    decreases entries, n,
{
    if n == 0 || n > entries.len() {
        Seq::empty()
    } else {
        object_doubles(entries, (n - 1) as nat) + document_doubles(entries[n - 1].1)
    }
}

/// A document as it is written, where `given` from `from` on stands for its doubles: an integer is
/// nothing but an integer, a number that is none at all is null, and the entries of an object are
/// in the order of their keys, the last of each key alone.
pub open spec fn prepared(m: JsonModel, given: Seq<JsonModel>, from: int) -> JsonModel
    decreases m, 0nat,
{
    match m {
        JsonModel::Number(n) => match (n.integer, n.natural, n.double) {
            (Some(i), _, _) => integer_out(i),
            (None, Some(u), _) => natural_out(u),
            (None, None, Some(_)) => given[from],
            (None, None, None) => JsonModel::Null,
        },
        JsonModel::Array(items) => JsonModel::Array(
            prepared_items(items, given, from, items.len()),
        ),
        JsonModel::Object(entries) => JsonModel::Object(
            prepared_entries(entries, given, from, entries.len()),
        ),
        _ => m,
    }
}

/// The first `n` items as they are written.
pub open spec fn prepared_items(
    items: Seq<JsonModel>,
    given: Seq<JsonModel>,
    from: int,
    n: nat,
) -> Seq<JsonModel>
    decreases items, n,
{
    if n == 0 || n > items.len() {
        Seq::empty()
    } else {
        prepared_items(items, given, from, (n - 1) as nat).push(
            prepared(items[n - 1], given, from + array_doubles(items, (n - 1) as nat).len()),
        )
    }
}

/// The first `n` entries as they are written.
pub open spec fn prepared_entries(
    entries: Seq<(Seq<char>, JsonModel)>,
    given: Seq<JsonModel>,
    from: int,
    n: nat,
) -> Seq<(Seq<char>, JsonModel)>
    decreases entries, n,
{
    if n == 0 || n > entries.len() {
        Seq::empty()
    } else {
        insert_pair::<String, JsonModel>(
            prepared_entries(entries, given, from, (n - 1) as nat),
            entries[n - 1].0,
            prepared(entries[n - 1].1, given, from + object_doubles(entries, (n - 1) as nat).len()),
        )
    }
}

proof fn lemma_array_doubles(items: Seq<JsonModel>, k: nat, n: nat)
    requires
        k < n <= items.len(),
    ensures
        array_doubles(items, k).len() + document_doubles(items[k as int]).len() <= array_doubles(
            items,
            n,
        ).len(),
        forall|j: int|
            0 <= j < document_doubles(items[k as int]).len() ==> array_doubles(
                items,
                n,
            )[array_doubles(items, k).len() + j] == #[trigger] document_doubles(
                items[k as int],
            )[j],
    decreases n,
{
    if k + 1 < n {
        lemma_array_doubles(items, k, (n - 1) as nat);
    }
}

proof fn lemma_object_doubles(entries: Seq<(Seq<char>, JsonModel)>, k: nat, n: nat)
    requires
        k < n <= entries.len(),
    ensures
        object_doubles(entries, k).len() + document_doubles(entries[k as int].1).len()
            <= object_doubles(entries, n).len(),
        forall|j: int|
            0 <= j < document_doubles(entries[k as int].1).len() ==> object_doubles(
                entries,
                n,
            )[object_doubles(entries, k).len() + j] == #[trigger] document_doubles(
                entries[k as int].1,
            )[j],
    decreases n,
{
    if k + 1 < n {
        lemma_object_doubles(entries, k, (n - 1) as nat);
    }
}

fn collect_json_doubles(document: &Json, out: &mut Vec<u64>)
    ensures
        final(out)@ == old(out)@ + document_doubles(document.deep_view()),
    decreases document,
{
    match document {
        Json::Number(n) => {
            match (n.integer, n.natural, n.double) {
                (None, None, Some(bits)) => out.push(bits),
                _ => {},
            }
            proof {
                assert(out@ =~= old(out)@ + document_doubles(document.deep_view()));
            }
        },
        Json::Array(items) => {
            let ghost all = items.deep_view();
            let ghost before = out@;
            let mut i: usize = 0;
            proof {
                lemma_array_view(*items);
                assert(out@ =~= before + array_doubles(all, 0));
            }
            while i < items.len()
                invariant
                    i <= items@.len(),
                    all == items.deep_view(),
                    *document == Json::Array(*items),
                    out@ == before + array_doubles(all, i as nat),
                decreases items@.len() - i,
            {
                proof {
                    assert(decreases_to!(*document => document->Array_0@[i as int]));
                    assert(all[i as int] == items@[i as int].deep_view());
                }
                collect_json_doubles(&items[i], out);
                i += 1;
                proof {
                    assert(out@ =~= before + array_doubles(all, i as nat));
                }
            }
        },
        Json::Object(entries) => {
            let ghost all = entries.deep_view();
            let ghost before = out@;
            let mut i: usize = 0;
            proof {
                lemma_object_view(*entries);
                assert(out@ =~= before + object_doubles(all, 0));
            }
            while i < entries.len()
                invariant
                    i <= entries@.len(),
                    all == entries.deep_view(),
                    *document == Json::Object(*entries),
                    out@ == before + object_doubles(all, i as nat),
                decreases entries@.len() - i,
            {
                proof {
                    assert(decreases_to!(*document => document->Object_0@[i as int].1));
                    assert(all[i as int] == entries@[i as int].deep_view());
                }
                collect_json_doubles(&entries[i].1, out);
                i += 1;
                proof {
                    assert(out@ =~= before + object_doubles(all, i as nat));
                }
            }
        },
        _ => {
            proof {
                assert(out@ =~= old(out)@ + document_doubles(document.deep_view()));
            }
        },
    }
}

/// The doubles of a document, in the order in which they are met.
pub fn json_doubles(document: &Json) -> (r: Vec<u64>)
    ensures
        r@ == document_doubles(document.deep_view()),
{
    let mut out: Vec<u64> = Vec::new();
    collect_json_doubles(document, &mut out);
    proof {
        assert(out@ =~= document_doubles(document.deep_view()));
    }
    out
}

/// Builds a document of `serde_json` and takes what stands for its doubles out of `numbers`, from
/// `from` on; says which comes next.
fn build(
    document: &Json,
    numbers: &mut Vec<serde_json::Value>,
    from: usize,
    Ghost(given): Ghost<Seq<JsonModel>>,
) -> (r: (serde_json::Value, usize))
    requires
        old(numbers)@.len() == given.len(),
        from + document_doubles(document.deep_view()).len() <= given.len(),
        forall|k: int|
            from <= k < given.len() ==> json_contents(#[trigger] old(numbers)@[k]) == given[k],
    ensures
        json_contents(r.0) == prepared(document.deep_view(), given, from as int),
        r.1 == from + document_doubles(document.deep_view()).len(),
        final(numbers)@.len() == given.len(),
        forall|k: int|
            r.1 <= k < given.len() ==> json_contents(#[trigger] final(numbers)@[k]) == given[k],
    decreases document,
{
    match document {
        Json::Null => (put_together(Piece::Null), from),
        Json::Bool(b) => (put_together(Piece::Bool(*b)), from),
        Json::Text(s) => (put_together(Piece::Text(s.duplicate())), from),
        Json::Number(n) => match (n.integer, n.natural, n.double) {
            (Some(i), _, _) => (put_together(Piece::Integer(i)), from),
            (None, Some(u), _) => (put_together(Piece::Natural(u)), from),
            (None, None, Some(_)) => {
                let total: usize = numbers.len();
                proof {
                    assert(document_doubles(document.deep_view()).len() == 1);
                    assert(from < total);
                }
                numbers.push(put_together(Piece::Null));
                let value = numbers.swap_remove(from);
                (value, from + 1)
            },
            (None, None, None) => (put_together(Piece::Null), from),
        },
        Json::Array(items) => {
            let ghost all = items.deep_view();
            let mut out: Vec<serde_json::Value> = Vec::new();
            let mut next: usize = from;
            let mut i: usize = 0;
            proof {
                lemma_array_view(*items);
                assert(all_contents(out@) =~= prepared_items(all, given, from as int, 0));
            }
            while i < items.len()
                invariant
                    i <= items@.len(),
                    all == items.deep_view(),
                    *document == Json::Array(*items),
                    numbers@.len() == given.len(),
                    from + array_doubles(all, all.len()).len() <= given.len(),
                    next == from + array_doubles(all, i as nat).len(),
                    forall|k: int|
                        next <= k < given.len() ==> json_contents(#[trigger] numbers@[k])
                            == given[k],
                    all_contents(out@) == prepared_items(all, given, from as int, i as nat),
                decreases items@.len() - i,
            {
                let ghost before = out@;
                proof {
                    assert(decreases_to!(*document => document->Array_0@[i as int]));
                    assert(all[i as int] == items@[i as int].deep_view());
                    lemma_array_doubles(all, i as nat, all.len());
                }
                let (value, after) = build(&items[i], numbers, next, Ghost(given));
                out.push(value);
                next = after;
                i += 1;
                proof {
                    assert(all_contents(out@) =~= all_contents(before).push(json_contents(value)));
                }
            }
            (put_together(Piece::Array(out)), next)
        },
        Json::Object(entries) => {
            let ghost all = entries.deep_view();
            let mut out = new_map();
            let mut next: usize = from;
            let mut i: usize = 0;
            proof {
                lemma_object_view(*entries);
            }
            while i < entries.len()
                invariant
                    i <= entries@.len(),
                    all == entries.deep_view(),
                    *document == Json::Object(*entries),
                    numbers@.len() == given.len(),
                    from + object_doubles(all, all.len()).len() <= given.len(),
                    next == from + object_doubles(all, i as nat).len(),
                    forall|k: int|
                        next <= k < given.len() ==> json_contents(#[trigger] numbers@[k])
                            == given[k],
                    map_entries(out) == prepared_entries(all, given, from as int, i as nat),
                decreases entries@.len() - i,
            {
                proof {
                    assert(decreases_to!(*document => document->Object_0@[i as int].1));
                    assert(all[i as int] == entries@[i as int].deep_view());
                    lemma_object_doubles(all, i as nat, all.len());
                }
                let (value, after) = build(&entries[i].1, numbers, next, Ghost(given));
                set_entry(&mut out, entries[i].0.duplicate(), value);
                next = after;
                i += 1;
            }
            (put_together(Piece::Object(out)), next)
        },
    }
}

/// Writes a document. `numbers` are the documents of its doubles, in the order in which they are
/// met.
pub fn json_text(document: &Json, numbers: Vec<serde_json::Value>) -> (r: Result<String, String>)
    requires
        document_doubles(document.deep_view()).len() <= numbers@.len(),
    ensures
        r matches Ok(s) && s@ == json_written(
            prepared(document.deep_view(), all_contents(numbers@), 0),
        ),
{
    let ghost given = all_contents(numbers@);
    let mut numbers = numbers;
    let (value, _next) = build(document, &mut numbers, 0, Ghost(given));
    write_document(&value)
}

/// Whether a document is as `serde_json` would hold it: each number is an integer, a natural
/// number or a double and nothing else, and the entries of objects are in the order of their keys.
pub open spec fn settled(m: JsonModel) -> bool
    decreases m,
{
    match m {
        JsonModel::Number(n) => match (n.integer, n.natural, n.double) {
            (Some(i), _, _) => m == integer_out(i),
            (None, Some(u), _) => m == natural_out(u),
            (None, None, d) => d is Some,
        },
        JsonModel::Array(items) => forall|i: int|
            0 <= i < items.len() ==> settled(#[trigger] items[i]),
        JsonModel::Object(entries) => ascending::<String, JsonModel>(entries) && forall|i: int|
            0 <= i < entries.len() ==> settled((#[trigger] entries[i]).1),
        _ => true,
    }
}

/// The document of a number that is a double alone.
pub open spec fn double_number(bits: u64) -> JsonModel {
    JsonModel::Number(JsonNumber { integer: None, natural: None, double: Some(bits) })
}

proof fn lemma_prepared_same(m: JsonModel, given: Seq<JsonModel>, from: int)
    requires
        settled(m),
        forall|k: int|
            0 <= k < document_doubles(m).len() ==> given[from + k] == double_number(
                #[trigger] document_doubles(m)[k],
            ),
    ensures
        prepared(m, given, from) == m,
    decreases m, 0nat,
{
    match m {
        JsonModel::Number(n) => {
            if proper_double(n) is Some {
                assert(document_doubles(m)[0] == n.double->Some_0);
                assert(given[from + 0] == m);
            }
        },
        JsonModel::Array(items) => {
            assert(document_doubles(m) == array_doubles(items, items.len()));
            lemma_items_same(items, given, from, items.len());
            assert(items.take(items.len() as int) =~= items);
        },
        JsonModel::Object(entries) => {
            assert(document_doubles(m) == object_doubles(entries, entries.len()));
            lemma_entries_same(entries, given, from, entries.len());
            assert(entries.take(entries.len() as int) =~= entries);
        },
        _ => {},
    }
}

proof fn lemma_items_same(items: Seq<JsonModel>, given: Seq<JsonModel>, from: int, n: nat)
    requires
        n <= items.len(),
        forall|i: int| 0 <= i < items.len() ==> settled(#[trigger] items[i]),
        forall|k: int|
            0 <= k < array_doubles(items, items.len()).len() ==> given[from + k] == double_number(
                #[trigger] array_doubles(items, items.len())[k],
            ),
    ensures
        prepared_items(items, given, from, n) == items.take(n as int),
    decreases items, n,
{
    if n > 0 {
        let i = (n - 1) as nat;
        let x = items[i as int];
        let start = array_doubles(items, i).len();
        lemma_items_same(items, given, from, i);
        lemma_array_doubles(items, i, items.len());
        assert forall|k: int| 0 <= k < document_doubles(x).len() implies given[from + start + k]
            == double_number(#[trigger] document_doubles(x)[k]) by {
            assert(array_doubles(items, items.len())[start + k] == document_doubles(x)[k]);
            assert(given[from + (start + k)] == double_number(
                array_doubles(items, items.len())[start + k],
            ));
        }
        lemma_prepared_same(x, given, from + start);
        assert(items.take(n as int) =~= items.take(i as int).push(x));
    } else {
        assert(items.take(0) =~= Seq::empty());
    }
}

proof fn lemma_entries_same(
    entries: Seq<(Seq<char>, JsonModel)>,
    given: Seq<JsonModel>,
    from: int,
    n: nat,
)
    requires
        n <= entries.len(),
        ascending::<String, JsonModel>(entries),
        forall|i: int| 0 <= i < entries.len() ==> settled((#[trigger] entries[i]).1),
        forall|k: int|
            0 <= k < object_doubles(entries, entries.len()).len() ==> given[from + k]
                == double_number(#[trigger] object_doubles(entries, entries.len())[k]),
    ensures
        prepared_entries(entries, given, from, n) == entries.take(n as int),
    decreases entries, n,
{
    if n > 0 {
        let i = (n - 1) as nat;
        let (key, x) = entries[i as int];
        let start = object_doubles(entries, i).len();
        let before = entries.take(i as int);
        lemma_entries_same(entries, given, from, i);
        lemma_object_doubles(entries, i, entries.len());
        assert forall|k: int| 0 <= k < document_doubles(x).len() implies given[from + start + k]
            == double_number(#[trigger] document_doubles(x)[k]) by {
            assert(object_doubles(entries, entries.len())[start + k] == document_doubles(x)[k]);
            assert(given[from + (start + k)] == double_number(
                object_doubles(entries, entries.len())[start + k],
            ));
        }
        assert(settled(entries[i as int].1));
        lemma_prepared_same(x, given, from + start);
        assert forall|j: int| 0 <= j < before.len() implies <String as Key>::before(
            (#[trigger] before[j]).0,
            key,
        ) by {
            assert(before[j] == entries[j]);
            assert(<String as Key>::before(entries[j].0, entries[i as int].0));
        }
        lemma_insert_last::<String, JsonModel>(before, key, x);
        assert(entries.take(n as int) =~= before.push((key, x)));
    } else {
        assert(entries.take(0) =~= Seq::empty());
    }
}

/// A document that is as `serde_json` would hold it is written as it is, where its doubles are
/// given as themselves.
pub proof fn law_settled_written(m: JsonModel, given: Seq<JsonModel>)
    requires
        settled(m),
        document_doubles(m).len() <= given.len(),
        forall|k: int|
            0 <= k < document_doubles(m).len() ==> given[k] == double_number(
                #[trigger] document_doubles(m)[k],
            ),
    ensures
        json_written(prepared(m, given, 0)) == json_written(m),
{
    assert forall|k: int| 0 <= k < document_doubles(m).len() implies given[0 + k] == double_number(
        #[trigger] document_doubles(m)[k],
    ) by {}
    lemma_prepared_same(m, given, 0);
}

} // verus!
