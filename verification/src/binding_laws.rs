//! What the documents and command lines of callers stand for.
use vstd::prelude::*;
use crate::cli::{
    command_of, inferred, item_filter, item_of, metadata_of, metadata_pair, vector_value,
    CommandModel,
};
use crate::filter_model::{collapsed, FilterModel};
use crate::float_bits::double_is_finite;
use crate::json::JsonModel;
use crate::json_filter::{
    entry_filter, entry_filters, field_filter, filter_json, group_filters, is_operator,
    operator_filter, operator_filters,
};
use crate::json_output::{
    double_out, law_metadata_json, lemma_items_back, natural_out, value_finite, value_out,
};
use crate::json_values::Dialect;
use crate::metadata::ValueModel;
use crate::ordered_map::{ascending, lemma_insert_last, lemma_insert_pair, map_of};
use crate::python_filter::{condition_filter, dict_entry, dict_filter, list_filters, named_filter};
use crate::python_values::{
    metadata_python, python_entries, python_items, PythonFailure, PythonModel,
};
use crate::text::{decimal, first_index, lemma_first_index, lower_text, trimmed};
use crate::text_laws::{law_decimal, law_lower_text, lemma_decimal};
use crate::value_codec::value_ordered;

verus! {

/// A document with one entry.
pub open spec fn only(key: Seq<char>, value: JsonModel) -> JsonModel {
    JsonModel::Object(seq![(key, value)])
}

/// The document that asks for a filter: each condition on a field is named by its operator, and
/// filters are joined by theirs.
pub open spec fn asking_for(f: FilterModel) -> JsonModel
    decreases f,
{
    match f {
        FilterModel::Eq(key, v) => only(key, only("$eq"@, value_out(v))),
        FilterModel::NotEq(key, v) => only(key, only("$ne"@, value_out(v))),
        FilterModel::In(key, vs) => only(key, only("$in"@, value_out(ValueModel::List(vs)))),
        FilterModel::NotIn(key, vs) => only(key, only("$nin"@, value_out(ValueModel::List(vs)))),
        FilterModel::Contains(key, s) => only(key, only("$contains"@, JsonModel::Text(s))),
        FilterModel::GreaterThan(key, x) => only(key, only("$gt"@, double_out(x))),
        FilterModel::GreaterThanOrEqual(key, x) => only(key, only("$gte"@, double_out(x))),
        FilterModel::LessThan(key, x) => only(key, only("$lt"@, double_out(x))),
        FilterModel::LessThanOrEqual(key, x) => only(key, only("$lte"@, double_out(x))),
        FilterModel::Exists(key) => only(key, only("$exists"@, JsonModel::Bool(true))),
        FilterModel::ElemMatch(key, inner) => only(key, only("$elemMatch"@, asking_for(*inner))),
        FilterModel::Size(key, n) => only(key, only("$size"@, natural_out(n as u64))),
        FilterModel::Not(inner) => only("$not"@, asking_for(*inner)),
        FilterModel::And(fs) => only(
            "$and"@,
            JsonModel::Array(
                Seq::new(
                    fs.len(),
                    |i: int|
                        if 0 <= i < fs.len() {
                            asking_for(fs[i])
                        } else {
                            JsonModel::Null
                        },
                ),
            ),
        ),
        FilterModel::Or(fs) => only(
            "$or"@,
            JsonModel::Array(
                Seq::new(
                    fs.len(),
                    |i: int|
                        if 0 <= i < fs.len() {
                            asking_for(fs[i])
                        } else {
                            JsonModel::Null
                        },
                ),
            ),
        ),
    }
}

/// Whether a document can ask for a filter: its fields are not named like operators, its numbers
/// are finite, its maps in key order, and elements of lists are matched by a condition on a field.
pub open spec fn askable(f: FilterModel) -> bool
    decreases f,
{
    match f {
        FilterModel::Eq(key, v) => !is_operator(key) && value_ordered(v) && value_finite(v),
        FilterModel::NotEq(key, v) => !is_operator(key) && value_ordered(v) && value_finite(v),
        FilterModel::In(key, vs) => !is_operator(key) && value_ordered(ValueModel::List(vs))
            && value_finite(ValueModel::List(vs)),
        FilterModel::NotIn(key, vs) => !is_operator(key) && value_ordered(ValueModel::List(vs))
            && value_finite(ValueModel::List(vs)),
        FilterModel::Contains(key, _) => !is_operator(key),
        FilterModel::GreaterThan(key, x) => !is_operator(key) && double_is_finite(x),
        FilterModel::GreaterThanOrEqual(key, x) => !is_operator(key) && double_is_finite(x),
        FilterModel::LessThan(key, x) => !is_operator(key) && double_is_finite(x),
        FilterModel::LessThanOrEqual(key, x) => !is_operator(key) && double_is_finite(x),
        FilterModel::Exists(key) => !is_operator(key),
        FilterModel::ElemMatch(key, inner) => !is_operator(key) && askable(*inner) && !(*inner is Not)
            && !(*inner is And) && !(*inner is Or),
        FilterModel::Size(key, _) => !is_operator(key),
        FilterModel::Not(inner) => askable(*inner),
        FilterModel::And(fs) => forall|i: int| 0 <= i < fs.len() ==> askable(#[trigger] fs[i]),
        FilterModel::Or(fs) => forall|i: int| 0 <= i < fs.len() ==> askable(#[trigger] fs[i]),
    }
}

proof fn lemma_operator_names()
    ensures
        is_operator("$and"@),
        is_operator("$or"@),
        is_operator("$not"@),
        "$and"@ != "$or"@,
        "$and"@ != "$not"@,
        "$or"@ != "$not"@,
        "$and"@[1] == 'a' && "$or"@[1] == 'o',
        "$eq"@[1] == 'e' && "$eq"@[2] == 'q',
        "$ne"@[1] == 'n' && "$ne"@[2] == 'e',
        "$in"@[1] == 'i',
        "$nin"@[1] == 'n' && "$nin"@[2] == 'i',
        "$not"@[1] == 'n' && "$not"@[2] == 'o',
        "$contains"@[1] == 'c',
        "$gt"@[1] == 'g' && "$gt"@.len() == 3,
        "$gte"@[1] == 'g' && "$gte"@.len() == 4,
        "$lt"@[1] == 'l' && "$lt"@.len() == 3,
        "$lte"@[1] == 'l' && "$lte"@.len() == 4,
        "$exists"@[1] == 'e' && "$exists"@[2] == 'x',
        "$elemMatch"@[1] == 'e' && "$elemMatch"@[2] == 'l',
        "$size"@[1] == 's',
{
    reveal_strlit("$and");
    reveal_strlit("$or");
    reveal_strlit("$not");
    reveal_strlit("$eq");
    reveal_strlit("$ne");
    reveal_strlit("$in");
    reveal_strlit("$nin");
    reveal_strlit("$contains");
    reveal_strlit("$gt");
    reveal_strlit("$gte");
    reveal_strlit("$lt");
    reveal_strlit("$lte");
    reveal_strlit("$exists");
    reveal_strlit("$elemMatch");
    reveal_strlit("$size");
    assert("$and"@[1] == 'a' && "$or"@[1] == 'o' && "$not"@[1] == 'n');
    assert("$not"@[2] == 'o' && "$nin"@[2] == 'i');
}

proof fn lemma_single(d: Dialect, key: Seq<char>, j: JsonModel)
    ensures
        entry_filter(d, key, j) matches Ok(f) ==> filter_json(d, only(key, j)) == Ok::<
            FilterModel,
            Seq<char>,
        >(f),
{
    let entries = seq![(key, j)];
    reveal_with_fuel(entry_filters, 2);
    assert(entries.len() == 1);
    assert(entry_filters(d, entries, 0) == Ok::<Seq<FilterModel>, Seq<char>>(Seq::empty()));
    if let Ok(f) = entry_filter(d, key, j) {
        assert(entry_filters(d, entries, 1) == Ok::<Seq<FilterModel>, Seq<char>>(
            Seq::<FilterModel>::empty().push(f),
        ));
    }
}

proof fn lemma_single_operator(d: Dialect, key: Seq<char>, op: Seq<char>, j: JsonModel)
    ensures
        operator_filter(d, key, op, j) matches Ok(f) ==> field_filter(d, key, only(op, j)) == Ok::<
            FilterModel,
            Seq<char>,
        >(f),
{
    let ops = seq![(op, j)];
    reveal_with_fuel(operator_filters, 2);
    assert(operator_filters(d, key, ops, 0) == Ok::<Seq<FilterModel>, Seq<char>>(Seq::empty()));
    if let Ok(f) = operator_filter(d, key, op, j) {
        assert(operator_filters(d, key, ops, 1) == Ok::<Seq<FilterModel>, Seq<char>>(
            Seq::<FilterModel>::empty().push(f),
        ));
    }
}

proof fn lemma_field(d: Dialect, key: Seq<char>, op: Seq<char>, j: JsonModel, f: FilterModel)
    requires
        !is_operator(key),
        operator_filter(d, key, op, j) == Ok::<FilterModel, Seq<char>>(f),
    ensures
        filter_json(d, only(key, only(op, j))) == Ok::<FilterModel, Seq<char>>(f),
{
    lemma_operator_names();
    lemma_single_operator(d, key, op, j);
    lemma_single(d, key, only(op, j));
    assert(key != "$and"@ && key != "$or"@ && key != "$not"@);
}

proof fn lemma_group(d: Dialect, fs: Seq<FilterModel>, docs: Seq<JsonModel>, n: nat)
    requires
        n <= fs.len() == docs.len(),
        forall|i: int|
            0 <= i < fs.len() ==> askable(#[trigger] fs[i]) && docs[i] == asking_for(fs[i]),
    ensures
        group_filters(d, docs, n) == Ok::<Seq<FilterModel>, Seq<char>>(fs.take(n as int)),
    decreases fs, n,
{
    if n == 0 {
        assert(fs.take(0) =~= Seq::<FilterModel>::empty());
    } else {
        lemma_group(d, fs, docs, (n - 1) as nat);
        assert(askable(fs[n - 1]) && docs[n - 1] == asking_for(fs[n - 1]));
        law_filter_json(d, fs[n - 1]);
        assert(fs.take(n as int) =~= fs.take(n - 1).push(fs[n - 1]));
    }
}

/// A document that asks for a filter is read as that filter.
pub proof fn law_filter_json(d: Dialect, f: FilterModel)
    requires
        askable(f),
    ensures
        filter_json(d, asking_for(f)) == Ok::<FilterModel, Seq<char>>(f),
    decreases f,
{
    lemma_operator_names();
    match f {
        FilterModel::Eq(key, v) => {
            law_metadata_json(d, v);
            lemma_field(d, key, "$eq"@, value_out(v), f);
        },
        FilterModel::NotEq(key, v) => {
            law_metadata_json(d, v);
            lemma_field(d, key, "$ne"@, value_out(v), f);
        },
        FilterModel::In(key, vs) => {
            lemma_items_back(d, vs, vs.len());
            assert(vs.take(vs.len() as int) =~= vs);
            lemma_field(d, key, "$in"@, value_out(ValueModel::List(vs)), f);
        },
        FilterModel::NotIn(key, vs) => {
            lemma_items_back(d, vs, vs.len());
            assert(vs.take(vs.len() as int) =~= vs);
            lemma_field(d, key, "$nin"@, value_out(ValueModel::List(vs)), f);
        },
        FilterModel::Contains(key, s) => {
            lemma_field(d, key, "$contains"@, JsonModel::Text(s), f);
        },
        FilterModel::GreaterThan(key, x) => {
            lemma_field(d, key, "$gt"@, double_out(x), f);
        },
        FilterModel::GreaterThanOrEqual(key, x) => {
            lemma_field(d, key, "$gte"@, double_out(x), f);
        },
        FilterModel::LessThan(key, x) => {
            lemma_field(d, key, "$lt"@, double_out(x), f);
        },
        FilterModel::LessThanOrEqual(key, x) => {
            lemma_field(d, key, "$lte"@, double_out(x), f);
        },
        FilterModel::Exists(key) => {
            lemma_field(d, key, "$exists"@, JsonModel::Bool(true), f);
        },
        FilterModel::ElemMatch(key, inner) => {
            law_filter_json(d, *inner);
            let doc = asking_for(*inner);
            lemma_not_operators(*inner);
            lemma_field(d, key, "$elemMatch"@, doc, f);
        },
        FilterModel::Size(key, n) => {
            lemma_field(d, key, "$size"@, natural_out(n as u64), f);
        },
        FilterModel::Not(inner) => {
            law_filter_json(d, *inner);
            lemma_single(d, "$not"@, asking_for(*inner));
        },
        FilterModel::And(fs) => {
            let docs = asking_for(f)->Object_0[0].1->Array_0;
            lemma_group(d, fs, docs, fs.len());
            assert(fs.take(fs.len() as int) =~= fs);
            lemma_single(d, "$and"@, JsonModel::Array(docs));
        },
        FilterModel::Or(fs) => {
            let docs = asking_for(f)->Object_0[0].1->Array_0;
            lemma_group(d, fs, docs, fs.len());
            assert(fs.take(fs.len() as int) =~= fs);
            lemma_single(d, "$or"@, JsonModel::Array(docs));
        },
    }
}

proof fn lemma_not_operators(f: FilterModel)
    requires
        askable(f),
        !(f is Not),
        !(f is And),
        !(f is Or),
    ensures
        asking_for(f) is Object,
        !crate::json_filter::all_operators(asking_for(f)),
{
    let entries = asking_for(f)->Object_0;
    assert(!is_operator(entries[0].0));
}

/// What a dictionary of conditions on a field asks for, operator by operator.
pub proof fn law_python_operators(key: Seq<char>, x: u64, s: Seq<char>, n: usize, b: bool)
    ensures
        condition_filter(key, "$eq"@, PythonModel::Text(s)) == Ok::<FilterModel, PythonFailure>(
            FilterModel::Eq(key, ValueModel::Text(s)),
        ),
        condition_filter(key, "$ne"@, PythonModel::Text(s)) == Ok::<FilterModel, PythonFailure>(
            FilterModel::NotEq(key, ValueModel::Text(s)),
        ),
        condition_filter(key, "$contains"@, PythonModel::Text(s)) == Ok::<
            FilterModel,
            PythonFailure,
        >(FilterModel::Contains(key, s)),
        condition_filter(key, "$gt"@, PythonModel::Float(x)) == Ok::<FilterModel, PythonFailure>(
            FilterModel::GreaterThan(key, x),
        ),
        condition_filter(key, "$gte"@, PythonModel::Float(x)) == Ok::<FilterModel, PythonFailure>(
            FilterModel::GreaterThanOrEqual(key, x),
        ),
        condition_filter(key, "$lt"@, PythonModel::Float(x)) == Ok::<FilterModel, PythonFailure>(
            FilterModel::LessThan(key, x),
        ),
        condition_filter(key, "$lte"@, PythonModel::Float(x)) == Ok::<FilterModel, PythonFailure>(
            FilterModel::LessThanOrEqual(key, x),
        ),
        condition_filter(key, "$exists"@, PythonModel::Bool(b)) == Ok::<FilterModel, PythonFailure>(
            if b {
                FilterModel::Exists(key)
            } else {
                FilterModel::Not(Box::new(FilterModel::Exists(key)))
            },
        ),
        condition_filter(key, "$size"@, PythonModel::Int { small: None, size: Some(n) }) == Ok::<
            FilterModel,
            PythonFailure,
        >(FilterModel::Size(key, n)),
        named_filter(key, PythonModel::Text(s)) == Ok::<FilterModel, PythonFailure>(
            FilterModel::Eq(key, ValueModel::Text(s)),
        ),
{
    lemma_operator_names();
}

/// What the logical entries of a dictionary ask for.
pub proof fn law_python_groups(items: Seq<PythonModel>, v: PythonModel, f: FilterModel, fs: Seq<FilterModel>)
    requires
        dict_filter(v) == Ok::<FilterModel, PythonFailure>(f),
        list_filters(items, items.len()) == Ok::<Seq<FilterModel>, PythonFailure>(fs),
    ensures
        dict_entry("$and"@, PythonModel::List(items)) == Ok::<FilterModel, PythonFailure>(
            FilterModel::And(fs),
        ),
        dict_entry("$or"@, PythonModel::List(items)) == Ok::<FilterModel, PythonFailure>(
            FilterModel::Or(fs),
        ),
        dict_entry("$not"@, v) == Ok::<FilterModel, PythonFailure>(FilterModel::Not(Box::new(f))),
{
    lemma_operator_names();
}

/// The command that a command line gives: by its first word, with the other words in their places.
pub proof fn law_commands(args: Seq<Seq<char>>)
    ensures
        command_of(args) matches Ok(CommandModel::Insert(path, id, vector, metadata)) ==> {
            &&& args[1] == "insert"@ && (args.len() == 5 || args.len() == 6)
            &&& path == args[2] && id == args[3] && vector == args[4]
            &&& metadata == (if args.len() == 6 {
                Some(args[5])
            } else {
                None
            })
        },
        command_of(args) matches Ok(CommandModel::Get(path, id)) ==> args[1] == "get"@ && args.len()
            == 4 && path == args[2] && id == args[3],
        command_of(args) matches Ok(CommandModel::Delete(path, id)) ==> args[1] == "delete"@
            && args.len() == 4 && path == args[2] && id == args[3],
        command_of(args) matches Ok(CommandModel::Init(path, _)) ==> args[1] == "init"@
            && args.len() == 4 && path == args[2],
        command_of(args) matches Ok(CommandModel::Search(path, vector, k, filters)) ==> {
            &&& args[1] == "search"@ && (args.len() == 5 || args.len() == 6)
            &&& path == args[2] && vector == args[3] && k == args[4]
            &&& filters == (if args.len() == 6 {
                Some(args[5])
            } else {
                None
            })
        },
        args.len() >= 2 && args[1] == "get"@ && args.len() == 4 ==> command_of(args) is Ok,
        args.len() >= 2 && args[1] == "delete"@ && args.len() == 4 ==> command_of(args) is Ok,
        args.len() >= 2 && args[1] == "insert"@ && 5 <= args.len() <= 6 ==> command_of(args) is Ok,
        args.len() >= 2 && args[1] == "search"@ && 5 <= args.len() <= 6 ==> command_of(args) is Ok,
        args.len() < 2 ==> command_of(args) == Ok::<CommandModel, Seq<char>>(CommandModel::Usage),
{
    reveal_strlit("init");
    reveal_strlit("insert");
    reveal_strlit("get");
    reveal_strlit("delete");
    reveal_strlit("search");
    reveal_strlit("help");
    reveal_strlit("--help");
    reveal_strlit("-h");
    if args.len() >= 2 {
        assert(args[1] == "init"@ ==> args[1].len() == 4 && args[1][0] == 'i');
        assert(args[1] == "insert"@ ==> args[1].len() == 6 && args[1][0] == 'i');
        assert(args[1] == "get"@ ==> args[1].len() == 3);
        assert(args[1] == "delete"@ ==> args[1].len() == 6 && args[1][0] == 'd');
        assert(args[1] == "search"@ ==> args[1].len() == 6 && args[1][0] == 's');
        assert(args[1] == "help"@ ==> args[1].len() == 4 && args[1][0] == 'h');
        assert(args[1] == "--help"@ ==> args[1].len() == 6 && args[1][0] == '-');
        assert(args[1] == "-h"@ ==> args[1].len() == 2);
    }
}

proof fn lemma_sides(key: Seq<char>, c: char, value: Seq<char>)
    requires
        !key.contains(c),
    ensures
        (key + seq![c] + value).contains(c),
        crate::cli::sides(key + seq![c] + value, c) == (trimmed(key), trimmed(value)),
{
    let s = key + seq![c] + value;
    let n = key.len() as int;
    assert(s[n] == c);
    lemma_first_index(s, c);
    let i = first_index(s, c) as int;
    if i < n {
        assert(s[i] == key[i]);
    }
    assert(i == n);
    assert(s.take(n) =~= key);
    assert(s.skip(n + 1) =~= value);
}

proof fn lemma_without(key: Seq<char>, c: char, value: Seq<char>, other: char)
    requires
        !key.contains(other),
        !value.contains(other),
        c != other,
    ensures
        !(key + seq![c] + value).contains(other),
{
    let s = key + seq![c] + value;
    if s.contains(other) {
        let i = choose|i: int| 0 <= i < s.len() && s[i] == other;
        if i < key.len() {
            assert(key[i] == other);
        } else if i > key.len() {
            assert(value[i - key.len() - 1] == other);
        }
    }
}

/// What a part of a filter on the command line stands for: a key and a value with one sign between
/// them, neither of which holds a sign, ask for what the sign says, and a key alone asks that it is
/// there.
pub proof fn law_filter_items(key: Seq<char>, value: Seq<char>, number: u64)
    requires
        forall|i: int|
            0 <= i < key.len() ==> (#[trigger] key[i]) != '~' && key[i] != '>' && key[i] != '<'
                && key[i] != '=',
        forall|i: int|
            0 <= i < value.len() ==> (#[trigger] value[i]) != '~' && value[i] != '>' && value[i]
                != '<' && value[i] != '=',
    ensures
        item_filter(item_of(key + seq!['~'] + value), None) == Ok::<FilterModel, Seq<char>>(
            FilterModel::Contains(trimmed(key), trimmed(value)),
        ),
        item_filter(item_of(key + seq!['>'] + value), Some(number)) == Ok::<FilterModel, Seq<char>>(
            FilterModel::GreaterThan(trimmed(key), number),
        ),
        item_filter(item_of(key + seq!['<'] + value), Some(number)) == Ok::<FilterModel, Seq<char>>(
            FilterModel::LessThan(trimmed(key), number),
        ),
        item_filter(item_of(key + seq!['='] + value), None) == Ok::<FilterModel, Seq<char>>(
            FilterModel::Eq(trimmed(key), inferred(trimmed(value), None)),
        ),
        item_filter(item_of(key), None) == Ok::<FilterModel, Seq<char>>(
            FilterModel::Exists(trimmed(key)),
        ),
{
    assert(!key.contains('~') && !key.contains('>') && !key.contains('<') && !key.contains('='));
    assert(!value.contains('~') && !value.contains('>') && !value.contains('<')
        && !value.contains('='));
    lemma_sides(key, '~', value);
    lemma_sides(key, '>', value);
    lemma_sides(key, '<', value);
    lemma_sides(key, '=', value);
    lemma_without(key, '>', value, '~');
    lemma_without(key, '<', value, '~');
    lemma_without(key, '<', value, '>');
    lemma_without(key, '=', value, '~');
    lemma_without(key, '=', value, '>');
    lemma_without(key, '=', value, '<');
}

/// A text of metadata is split at its first equals sign.
pub proof fn law_metadata_pair(key: Seq<char>, value: Seq<char>)
    requires
        !key.contains('='),
    ensures
        metadata_pair(key + seq!['='] + value) == Some((trimmed(key), trimmed(value))),
        metadata_pair(key) is None,
{
    lemma_sides(key, '=', value);
    let s = key + seq!['='] + value;
    lemma_first_index(s, '=');
}

/// What the value of a text is: a truth value where it is the word for one, in letters of either
/// case; what is neither that nor an integer is the double that it stands for, or the text itself.
pub proof fn law_inferred(raw: Seq<char>, number: Option<u64>)
    ensures
        inferred(raw, number) == ValueModel::Boolean(true) <==> lower_text(raw) == lower_text(
            "true"@,
        ),
        inferred(raw, number) == ValueModel::Boolean(false) <==> lower_text(raw) == lower_text(
            "false"@,
        ),
        inferred(raw, number) matches ValueModel::Text(s) ==> s == raw && number is None,
        inferred(raw, number) matches ValueModel::Float(bits) ==> number == Some(bits),
        inferred(raw, number) is Integer || inferred(raw, number) is Boolean || inferred(
            raw,
            number,
        ) is Text || inferred(raw, number) is Float,
{
    reveal_strlit("true");
    reveal_strlit("false");
    if lower_text("true"@) == lower_text("false"@) {
        assert(lower_text("true"@).len() == 4);
        assert(lower_text("false"@).len() == 5);
    }
}

/// The Python object of a metadata value.
pub open spec fn python_form(v: ValueModel) -> PythonModel
    decreases v,
{
    match v {
        ValueModel::Text(s) => PythonModel::Text(s),
        ValueModel::Integer(i) => PythonModel::Int { small: Some(i), size: None },
        ValueModel::Float(bits) => PythonModel::Float(bits),
        ValueModel::Boolean(b) => PythonModel::Bool(b),
        ValueModel::Null => PythonModel::Nothing,
        ValueModel::List(items) => PythonModel::List(
            Seq::new(
                items.len(),
                |i: int|
                    if 0 <= i < items.len() {
                        python_form(items[i])
                    } else {
                        PythonModel::Nothing
                    },
            ),
        ),
        ValueModel::Object(pairs) => PythonModel::Dict(
            Seq::new(
                pairs.len(),
                |i: int|
                    if 0 <= i < pairs.len() {
                        (Some(pairs[i].0), python_form(pairs[i].1))
                    } else {
                        (None, PythonModel::Nothing)
                    },
            ),
        ),
    }
}

proof fn lemma_python_items(items: Seq<ValueModel>, n: nat)
    requires
        n <= items.len(),
        value_ordered(ValueModel::List(items)),
    ensures
        python_items(python_form(ValueModel::List(items))->List_0, n) == Ok::<
            Seq<ValueModel>,
            PythonFailure,
        >(items.take(n as int)),
    decreases items, n,
{
    if n == 0 {
        assert(items.take(0) =~= Seq::<ValueModel>::empty());
    } else {
        lemma_python_items(items, (n - 1) as nat);
        law_metadata_python(items[n - 1]);
        assert(items.take(n as int) =~= items.take(n - 1).push(items[n - 1]));
    }
}

proof fn lemma_python_entries(pairs: Seq<(Seq<char>, ValueModel)>, n: nat)
    requires
        n <= pairs.len(),
        value_ordered(ValueModel::Object(pairs)),
    ensures
        python_entries(python_form(ValueModel::Object(pairs))->Dict_0, n) == Ok::<
            Seq<(Seq<char>, ValueModel)>,
            PythonFailure,
        >(pairs.take(n as int)),
    decreases pairs, n,
{
    if n == 0 {
        assert(pairs.take(0) =~= Seq::<(Seq<char>, ValueModel)>::empty());
    } else {
        lemma_python_entries(pairs, (n - 1) as nat);
        assert(decreases_to!(pairs => pairs[n - 1]));
        law_metadata_python(pairs[n - 1].1);
        lemma_insert_last::<String, ValueModel>(pairs.take(n - 1), pairs[n - 1].0, pairs[n - 1].1);
        assert(pairs.take(n as int) =~= pairs.take(n - 1).push(pairs[n - 1]));
    }
}

/// A metadata value is read back from its Python object.
pub proof fn law_metadata_python(v: ValueModel)
    requires
        value_ordered(v),
    ensures
        metadata_python(python_form(v)) == Ok::<ValueModel, PythonFailure>(v),
    decreases v,
{
    match v {
        ValueModel::List(items) => {
            lemma_python_items(items, items.len());
            assert(items.take(items.len() as int) =~= items);
        },
        ValueModel::Object(pairs) => {
            lemma_python_entries(pairs, pairs.len());
            assert(pairs.take(pairs.len() as int) =~= pairs);
        },
        _ => {},
    }
}

/// Lists of a Python dictionary ask for one of, or none of, their items.
pub proof fn law_python_lists(key: Seq<char>, items: Seq<ValueModel>)
    requires
        value_ordered(ValueModel::List(items)),
    ensures
        condition_filter(key, "$in"@, python_form(ValueModel::List(items))) == Ok::<
            FilterModel,
            PythonFailure,
        >(FilterModel::In(key, items)),
        condition_filter(key, "$nin"@, python_form(ValueModel::List(items))) == Ok::<
            FilterModel,
            PythonFailure,
        >(FilterModel::NotIn(key, items)),
{
    lemma_operator_names();
    lemma_python_items(items, items.len());
    assert(items.take(items.len() as int) =~= items);
}

/// A vector on the command line has the number of each part, in order, and is none where a part has
/// no number.
pub proof fn law_vector_value(segments: Seq<Seq<char>>, numbers: Seq<Option<u32>>, n: nat)
    requires
        n <= numbers.len(),
    ensures
        vector_value(segments, numbers, n) is Ok <==> forall|i: int|
            0 <= i < n ==> (#[trigger] numbers[i]) is Some,
        vector_value(segments, numbers, n) matches Ok(v) ==> v.len() == n && forall|i: int|
            0 <= i < n ==> #[trigger] numbers[i] == Some(v[i]),
    decreases n,
{
    if n > 0 {
        law_vector_value(segments, numbers, (n - 1) as nat);
        if let Ok(v) = vector_value(segments, numbers, n) {
            let before = vector_value(segments, numbers, (n - 1) as nat)->Ok_0;
            assert forall|i: int| 0 <= i < n implies #[trigger] numbers[i] == Some(v[i]) by {
                if i < n - 1 {
                    assert(v[i] == before[i]);
                }
            }
        }
    }
}

/// Metadata on the command line: a key has the value that its last pair stands for.
pub proof fn law_metadata_of(
    pairs: Seq<(Seq<char>, Seq<char>)>,
    numbers: Seq<Option<u64>>,
    n: nat,
    i: int,
)
    requires
        0 <= i < n <= pairs.len(),
        forall|j: int| i < j < n ==> (#[trigger] pairs[j]).0 != pairs[i].0,
    ensures
        ascending::<String, ValueModel>(metadata_of(pairs, numbers, n)),
        map_of(metadata_of(pairs, numbers, n)).contains_key(pairs[i].0),
        map_of(metadata_of(pairs, numbers, n))[pairs[i].0] == inferred(pairs[i].1, numbers[i]),
    decreases n,
{
    lemma_metadata_ascending(pairs, numbers, (n - 1) as nat);
    lemma_insert_pair::<String, ValueModel>(
        metadata_of(pairs, numbers, (n - 1) as nat),
        pairs[n - 1].0,
        inferred(pairs[n - 1].1, numbers[n - 1]),
    );
    if i < n - 1 {
        law_metadata_of(pairs, numbers, (n - 1) as nat, i);
        assert(pairs[n - 1].0 != pairs[i].0);
    }
}

proof fn lemma_metadata_ascending(
    pairs: Seq<(Seq<char>, Seq<char>)>,
    numbers: Seq<Option<u64>>,
    n: nat,
)
    ensures
        ascending::<String, ValueModel>(metadata_of(pairs, numbers, n)),
    decreases n,
{
    if n > 0 {
        lemma_metadata_ascending(pairs, numbers, (n - 1) as nat);
        lemma_insert_pair::<String, ValueModel>(
            metadata_of(pairs, numbers, (n - 1) as nat),
            pairs[n - 1].0,
            inferred(pairs[n - 1].1, numbers[n - 1]),
        );
    }
}

/// A text of an integer on the command line stands for the integer, where sixty-four bits hold it.
pub proof fn law_inferred_integer(i: i64, number: Option<u64>)
    ensures
        inferred(
            if i < 0 {
                seq!['-'] + decimal((-i) as nat)
            } else {
                decimal(i as nat)
            },
            number,
        ) == ValueModel::Integer(i),
{
    let n = (if i < 0 {
        -i
    } else {
        i as int
    }) as nat;
    law_decimal(n);
    let raw = if i < 0 {
        seq!['-'] + decimal(n)
    } else {
        decimal(n)
    };
    reveal_strlit("true");
    reveal_strlit("false");
    lemma_decimal(n);
    law_lower_text(raw);
    law_lower_text("true"@);
    law_lower_text("false"@);
    assert(raw.len() > 0 && (raw[0] == '-' || '0' <= raw[0] <= '9'));
    assert(lower_text(raw)[0] == raw[0]);
    assert("true"@[0] == 't' && "false"@[0] == 'f');
    assert(lower_text("true"@)[0] == 't' && lower_text("false"@)[0] == 'f');
}

/// A document with two entries asks for both; an empty one asks for nothing and is refused.
pub proof fn law_filter_entries(
    d: Dialect,
    a: (Seq<char>, JsonModel),
    b: (Seq<char>, JsonModel),
    f: FilterModel,
    g: FilterModel,
)
    ensures
        filter_json(d, only(a.0, a.1)) == Ok::<FilterModel, Seq<char>>(f) && filter_json(
            d,
            only(b.0, b.1),
        ) == Ok::<FilterModel, Seq<char>>(g) ==> filter_json(d, JsonModel::Object(seq![a, b])) == Ok::<
            FilterModel,
            Seq<char>,
        >(FilterModel::And(seq![f, g])),
        filter_json(d, JsonModel::Object(Seq::empty())) is Err,
{
    let entries = seq![a, b];
    reveal_with_fuel(entry_filters, 3);
    assert(entries[0] == a && entries[1] == b);
    assert(entry_filters(d, entries, 0) == Ok::<Seq<FilterModel>, Seq<char>>(Seq::empty()));
    assert(entry_filters(d, seq![a], 0) == Ok::<Seq<FilterModel>, Seq<char>>(Seq::empty()));
    assert(entry_filters(d, seq![b], 0) == Ok::<Seq<FilterModel>, Seq<char>>(Seq::empty()));
    if let Ok(x) = entry_filter(d, a.0, a.1) {
        assert(entry_filters(d, seq![a], 1) == Ok::<Seq<FilterModel>, Seq<char>>(
            Seq::<FilterModel>::empty().push(x),
        ));
        assert(entry_filters(d, entries, 1) == Ok::<Seq<FilterModel>, Seq<char>>(
            Seq::<FilterModel>::empty().push(x),
        ));
        if let Ok(y) = entry_filter(d, b.0, b.1) {
            assert(entry_filters(d, seq![b], 1) == Ok::<Seq<FilterModel>, Seq<char>>(
                Seq::<FilterModel>::empty().push(y),
            ));
            assert(Seq::<FilterModel>::empty().push(x).push(y) =~= seq![x, y]);
            assert(entry_filters(d, entries, 2) == Ok::<Seq<FilterModel>, Seq<char>>(seq![x, y]));
        }
    }
}

/// Filters of the command line are taken together: one stands for itself, and more are all to hold.
pub proof fn law_collapsed(filters: Seq<FilterModel>)
    ensures
        collapsed(filters) is None <==> filters.len() == 0,
        filters.len() == 1 ==> collapsed(filters) == Some(filters[0]),
        filters.len() > 1 ==> collapsed(filters) == Some(FilterModel::And(filters)),
{
}

} // verus!
