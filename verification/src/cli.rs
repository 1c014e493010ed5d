//! The command line: its commands, and the texts of vectors, metadata and filters.
use vstd::prelude::*;
use crate::filter::MetadataFilter;
use crate::filter_model::{collapse, collapsed, FilterModel};
use crate::metadata::{Metadata, MetadataValue, ValueModel};
use crate::order::{same_text, Duplicate};
use crate::ordered_map::{insert_pair, OrderedMap};
use crate::payload_index::opt_text;
use crate::text::{
    concat2, first_index, integer_text, lower_text, natural_text, parse_integer_text,
    parse_size_text, same_ignoring_case, split, split_once_text, split_text, trim_text, trimmed,
};

verus! {

/// A command.
pub enum Command {
    Usage,
    Init { path: String, dimension: usize },
    Insert { path: String, id: String, vector: String, metadata: Option<String> },
    Get { path: String, id: String },
    Delete { path: String, id: String },
    Search { path: String, vector: String, k: String, filters: Option<String> },
}

/// The mathematical value of a command.
pub enum CommandModel {
    Usage,
    Init(Seq<char>, usize),
    Insert(Seq<char>, Seq<char>, Seq<char>, Option<Seq<char>>),
    Get(Seq<char>, Seq<char>),
    Delete(Seq<char>, Seq<char>),
    Search(Seq<char>, Seq<char>, Seq<char>, Option<Seq<char>>),
}

impl DeepView for Command {
    type V = CommandModel;

    open spec fn deep_view(&self) -> CommandModel {
        match *self {
            Command::Usage => CommandModel::Usage,
            Command::Init { path, dimension } => CommandModel::Init(path@, dimension),
            Command::Insert { path, id, vector, metadata } => CommandModel::Insert(
                path@,
                id@,
                vector@,
                metadata.deep_view(),
            ),
            Command::Get { path, id } => CommandModel::Get(path@, id@),
            Command::Delete { path, id } => CommandModel::Delete(path@, id@),
            Command::Search { path, vector, k, filters } => CommandModel::Search(
                path@,
                vector@,
                k@,
                filters.deep_view(),
            ),
        }
    }
}

/// The size that a text stands for.
pub open spec fn size_text(s: Seq<char>) -> Option<usize> {
    match natural_text(s) {
        Some(v) => if v <= usize::MAX {
            Some(v as usize)
        } else {
            None
        },
        None => None,
    }
}

/// The argument at a position, where there is one.
pub open spec fn argument(args: Seq<Seq<char>>, i: int) -> Option<Seq<char>> {
    if i < args.len() {
        Some(args[i])
    } else {
        None
    }
}

/// The command of a command line, whose first element is the name of the program; or what is
/// wrong with it.
pub open spec fn command_of(args: Seq<Seq<char>>) -> Result<CommandModel, Seq<char>> {
    let n = args.len();
    if n < 2 {
        Ok(CommandModel::Usage)
    } else if args[1] == "init"@ {
        if n != 4 {
            Err("usage: vectlite init <path> <dimension>"@)
        } else {
            match size_text(args[3]) {
                Some(d) => Ok(CommandModel::Init(args[2], d)),
                None => Err("dimension must be a positive integer"@),
            }
        }
    } else if args[1] == "insert"@ {
        if n < 5 || n > 6 {
            Err("usage: vectlite insert <path> <id> <vector> [metadata]"@)
        } else {
            Ok(CommandModel::Insert(args[2], args[3], args[4], argument(args, 5)))
        }
    } else if args[1] == "get"@ {
        if n != 4 {
            Err("usage: vectlite get <path> <id>"@)
        } else {
            Ok(CommandModel::Get(args[2], args[3]))
        }
    } else if args[1] == "delete"@ {
        if n != 4 {
            Err("usage: vectlite delete <path> <id>"@)
        } else {
            Ok(CommandModel::Delete(args[2], args[3]))
        }
    } else if args[1] == "search"@ {
        if n < 5 || n > 6 {
            Err("usage: vectlite search <path> <vector> <k> [filters]"@)
        } else {
            Ok(CommandModel::Search(args[2], args[3], args[4], argument(args, 5)))
        }
    } else if args[1] == "help"@ || args[1] == "--help"@ || args[1] == "-h"@ {
        Ok(CommandModel::Usage)
    } else {
        Err("unknown command: "@ + args[1])
    }
}

/// Whether a result is a given outcome, with its message where it fails.
pub open spec fn outcome<T: DeepView>(r: Result<T, String>, want: Result<T::V, Seq<char>>) -> bool {
    match want {
        Ok(v) => r matches Ok(x) && x.deep_view() == v,
        Err(m) => r matches Err(e) && e@ == m,
    }
}

fn optional_argument(args: &Vec<String>, i: usize) -> (r: Option<String>)
    ensures
        r.deep_view() == argument(args.deep_view(), i as int),
{
    if i < args.len() {
        Some(args[i].duplicate())
    } else {
        None
    }
}

/// Reads a command line.
pub fn parse_command(args: &Vec<String>) -> (r: Result<Command, String>)
    ensures
        outcome(r, command_of(args.deep_view())),
{
    let n: usize = args.len();
    let ghost all = args.deep_view();
    proof {
        assert forall|i: int| 0 <= i < n implies #[trigger] all[i] == args@[i]@ by {}
    }
    if n < 2 {
        return Ok(Command::Usage);
    }
    let name = args[1].as_str();
    if same_text(name, "init") {
        if n != 4 {
            return Err("usage: vectlite init <path> <dimension>".to_owned());
        }
        return match parse_size_text(args[3].as_str()) {
            Some(dimension) => Ok(Command::Init { path: args[2].duplicate(), dimension }),
            None => Err("dimension must be a positive integer".to_owned()),
        };
    }
    if same_text(name, "insert") {
        if n < 5 || n > 6 {
            return Err("usage: vectlite insert <path> <id> <vector> [metadata]".to_owned());
        }
        return Ok(
            Command::Insert {
                path: args[2].duplicate(),
                id: args[3].duplicate(),
                vector: args[4].duplicate(),
                metadata: optional_argument(args, 5),
            },
        );
    }
    if same_text(name, "get") {
        if n != 4 {
            return Err("usage: vectlite get <path> <id>".to_owned());
        }
        return Ok(Command::Get { path: args[2].duplicate(), id: args[3].duplicate() });
    }
    if same_text(name, "delete") {
        if n != 4 {
            return Err("usage: vectlite delete <path> <id>".to_owned());
        }
        return Ok(Command::Delete { path: args[2].duplicate(), id: args[3].duplicate() });
    }
    if same_text(name, "search") {
        if n < 5 || n > 6 {
            return Err("usage: vectlite search <path> <vector> <k> [filters]".to_owned());
        }
        return Ok(
            Command::Search {
                path: args[2].duplicate(),
                vector: args[3].duplicate(),
                k: args[4].duplicate(),
                filters: optional_argument(args, 5),
            },
        );
    }
    if same_text(name, "help") || same_text(name, "--help") || same_text(name, "-h") {
        return Ok(Command::Usage);
    }
    Err(concat2("unknown command: ", name))
}

/// The parts of the text of a vector.
pub fn vector_segments(input: &str) -> (r: Result<Vec<String>, String>)
    ensures
        outcome(
            r,
            if trimmed(input@).len() == 0 {
                Err("vector cannot be empty"@)
            } else {
                Ok(split(input@, ','))
            },
        ),
{
    let t = trim_text(input);
    if t.as_str().is_empty() {
        return Err("vector cannot be empty".to_owned());
    }
    Ok(split_text(input, ','))
}

/// The vector of parts whose numbers are known, or the first part that is none.
pub open spec fn vector_value(
    segments: Seq<Seq<char>>,
    numbers: Seq<Option<u32>>,
    n: nat,
) -> Result<Seq<u32>, Seq<char>>
    decreases n,
{
    if n == 0 {
        Ok(Seq::empty())
    } else {
        match vector_value(segments, numbers, (n - 1) as nat) {
            Err(m) => Err(m),
            Ok(v) => match numbers[n - 1] {
                Some(x) => Ok(v.push(x)),
                None => Err("invalid float in vector: "@ + segments[n - 1]),
            },
        }
    }
}

/// The vector of parts. `numbers` are the numbers that the trimmed parts stand for.
pub fn parse_vector(segments: &Vec<String>, numbers: &Vec<Option<u32>>) -> (r: Result<
    Vec<u32>,
    String,
>)
    requires
        segments@.len() == numbers@.len(),
    ensures
        match vector_value(segments.deep_view(), numbers@, segments@.len()) {
            Ok(v) => r matches Ok(x) && x@ == v,
            Err(m) => r matches Err(e) && e@ == m,
        },
{
    let ghost all = segments.deep_view();
    let mut out: Vec<u32> = Vec::new();
    let mut i: usize = 0;
    while i < segments.len()
        invariant
            segments@.len() == numbers@.len(),
            all == segments.deep_view(),
            i <= segments@.len(),
            vector_value(all, numbers@, i as nat) == Ok::<Seq<u32>, Seq<char>>(out@),
        decreases segments@.len() - i,
    {
        match numbers[i] {
            Some(x) => {
                out.push(x);
            },
            None => {
                proof {
                    assert(all[i as int] == segments@[i as int]@);
                    lemma_vector_fails(all, numbers@, (i + 1) as nat, segments@.len());
                }
                return Err(concat2("invalid float in vector: ", segments[i].as_str()));
            },
        }
        i += 1;
    }
    Ok(out)
}

proof fn lemma_vector_fails(
    segments: Seq<Seq<char>>,
    numbers: Seq<Option<u32>>,
    k: nat,
    n: nat,
)
    requires
        k <= n,
        vector_value(segments, numbers, k) is Err,
    ensures
        vector_value(segments, numbers, n) == vector_value(segments, numbers, k),
    decreases n - k,
{
    if k < n {
        lemma_vector_fails(segments, numbers, k, (n - 1) as nat);
    }
}

/// The key and the value of a metadata text, without white space around them.
pub open spec fn metadata_pair(text: Seq<char>) -> Option<(Seq<char>, Seq<char>)> {
    if text.contains('=') {
        let i = first_index(text, '=') as int;
        Some((trimmed(text.take(i)), trimmed(text.skip(i + 1))))
    } else {
        None
    }
}

/// The keys and values of the first `n` metadata texts, or the first text that has none.
pub open spec fn metadata_pairs_of(texts: Seq<Seq<char>>, n: nat) -> Result<
    Seq<(Seq<char>, Seq<char>)>,
    Seq<char>,
>
    decreases n,
{
    if n == 0 {
        Ok(Seq::empty())
    } else {
        match metadata_pairs_of(texts, (n - 1) as nat) {
            Err(m) => Err(m),
            Ok(v) => match metadata_pair(texts[n - 1]) {
                Some(p) => Ok(v.push(p)),
                None => Err("invalid metadata pair: "@ + texts[n - 1]),
            },
        }
    }
}

/// The keys and values of the text of metadata; none where it is missing or blank.
pub open spec fn metadata_text(input: Option<Seq<char>>) -> Result<
    Seq<(Seq<char>, Seq<char>)>,
    Seq<char>,
> {
    match input {
        None => Ok(Seq::empty()),
        Some(s) => if trimmed(s).len() == 0 {
            Ok(Seq::empty())
        } else {
            metadata_pairs_of(split(s, ','), split(s, ',').len())
        },
    }
}

proof fn lemma_pairs_fail(texts: Seq<Seq<char>>, k: nat, n: nat)
    requires
        k <= n,
        metadata_pairs_of(texts, k) is Err,
    ensures
        metadata_pairs_of(texts, n) == metadata_pairs_of(texts, k),
    decreases n - k,
{
    if k < n {
        lemma_pairs_fail(texts, k, (n - 1) as nat);
    }
}

/// The keys and values of the text of metadata.
pub fn metadata_pairs(input: Option<&str>) -> (r: Result<Vec<(String, String)>, String>)
    ensures
        outcome(r, metadata_text(opt_text(input))),
{
    let mut out: Vec<(String, String)> = Vec::new();
    proof {
        assert(out.deep_view() =~= Seq::<(Seq<char>, Seq<char>)>::empty());
    }
    let text = match input {
        Some(s) => s,
        None => {
            return Ok(out);
        },
    };
    let t = trim_text(text);
    if t.as_str().is_empty() {
        return Ok(out);
    }
    let parts = split_text(text, ',');
    let ghost texts = parts.deep_view();
    let mut i: usize = 0;
    while i < parts.len()
        invariant
            i <= parts@.len(),
            texts == parts.deep_view(),
            texts == split(text@, ','),
            metadata_text(opt_text(input)) == metadata_pairs_of(texts, texts.len()),
            metadata_pairs_of(texts, i as nat) == Ok::<Seq<(Seq<char>, Seq<char>)>, Seq<char>>(
                out.deep_view(),
            ),
        decreases parts@.len() - i,
    {
        let ghost before = out.deep_view();
        proof {
            assert(texts[i as int] == parts@[i as int]@);
        }
        match split_once_text(parts[i].as_str(), '=') {
            Some((k, v)) => {
                let pair = (trim_text(k.as_str()), trim_text(v.as_str()));
                out.push(pair);
                proof {
                    assert(out.deep_view() =~= before.push(pair.deep_view()));
                }
            },
            None => {
                proof {
                    lemma_pairs_fail(texts, (i + 1) as nat, texts.len());
                }
                return Err(concat2("invalid metadata pair: ", parts[i].as_str()));
            },
        }
        i += 1;
    }
    Ok(out)
}

/// The value that a text stands for: a boolean, an integer, the double `number` where it is one,
/// or the text itself.
pub open spec fn inferred(raw: Seq<char>, number: Option<u64>) -> ValueModel {
    if lower_text(raw) == lower_text("true"@) {
        ValueModel::Boolean(true)
    } else if lower_text(raw) == lower_text("false"@) {
        ValueModel::Boolean(false)
    } else {
        match integer_text(raw) {
            Some(v) if i64::MIN <= v <= i64::MAX => ValueModel::Integer(v as i64),
            _ => match number {
                Some(bits) => ValueModel::Float(bits),
                None => ValueModel::Text(raw),
            },
        }
    }
}

/// The value that a text stands for. `number` is the double that it stands for, where it is one.
pub fn infer_metadata_value(raw: &str, number: Option<u64>) -> (r: MetadataValue)
    ensures
        r.deep_view() == inferred(raw@, number),
{
    if same_ignoring_case(raw, "true") {
        return MetadataValue::Boolean(true);
    }
    if same_ignoring_case(raw, "false") {
        return MetadataValue::Boolean(false);
    }
    if let Some(v) = parse_integer_text(raw) {
        return MetadataValue::Integer(v);
    }
    match number {
        Some(bits) => MetadataValue::Float(bits),
        None => MetadataValue::String(raw.to_owned()),
    }
}

/// The metadata of keys and values; a later value of a key replaces an earlier one.
pub open spec fn metadata_of(
    pairs: Seq<(Seq<char>, Seq<char>)>,
    numbers: Seq<Option<u64>>,
    n: nat,
) -> Seq<(Seq<char>, ValueModel)>
    decreases n,
{
    if n == 0 {
        Seq::empty()
    } else {
        insert_pair::<String, ValueModel>(
            metadata_of(pairs, numbers, (n - 1) as nat),
            pairs[n - 1].0,
            inferred(pairs[n - 1].1, numbers[n - 1]),
        )
    }
}

/// The metadata of keys and values. `numbers` are the doubles that the values stand for, where
/// they are any.
pub fn parse_metadata(pairs: &Vec<(String, String)>, numbers: &Vec<Option<u64>>) -> (r: Metadata)
    requires
        pairs@.len() == numbers@.len(),
    ensures
        r.pairs() == metadata_of(pairs.deep_view(), numbers@, pairs@.len()),
{
    let ghost all = pairs.deep_view();
    let mut out: Metadata = OrderedMap::new();
    let mut i: usize = 0;
    while i < pairs.len()
        invariant
            pairs@.len() == numbers@.len(),
            all == pairs.deep_view(),
            i <= pairs@.len(),
            out.pairs() == metadata_of(all, numbers@, i as nat),
        decreases pairs@.len() - i,
    {
        proof {
            assert(all[i as int] == pairs@[i as int].deep_view());
        }
        let value = infer_metadata_value(pairs[i].1.as_str(), numbers[i]);
        out.insert(pairs[i].0.duplicate(), value);
        i += 1;
    }
    out
}

/// A part of the text of a filter. Keys and values have no white space around them.
pub enum FilterItem {
    Contains { key: String, needle: String },
    Above { key: String, value: String, item: String },
    Below { key: String, value: String, item: String },
    Equal { key: String, value: String },
    Present { key: String },
}

/// The mathematical value of a part of the text of a filter.
pub enum ItemModel {
    Contains(Seq<char>, Seq<char>),
    Above(Seq<char>, Seq<char>, Seq<char>),
    Below(Seq<char>, Seq<char>, Seq<char>),
    Equal(Seq<char>, Seq<char>),
    Present(Seq<char>),
}

impl DeepView for FilterItem {
    type V = ItemModel;

    open spec fn deep_view(&self) -> ItemModel {
        match *self {
            FilterItem::Contains { key, needle } => ItemModel::Contains(key@, needle@),
            FilterItem::Above { key, value, item } => ItemModel::Above(key@, value@, item@),
            FilterItem::Below { key, value, item } => ItemModel::Below(key@, value@, item@),
            FilterItem::Equal { key, value } => ItemModel::Equal(key@, value@),
            FilterItem::Present { key } => ItemModel::Present(key@),
        }
    }
}

/// What stands before and after the first of a character, without white space around it.
pub open spec fn sides(s: Seq<char>, c: char) -> (Seq<char>, Seq<char>) {
    let i = first_index(s, c) as int;
    (trimmed(s.take(i)), trimmed(s.skip(i + 1)))
}

/// A part of the text of a filter: by the first that it has of `~`, `>`, `<` and `=`.
pub open spec fn item_of(s: Seq<char>) -> ItemModel {
    if s.contains('~') {
        ItemModel::Contains(sides(s, '~').0, sides(s, '~').1)
    } else if s.contains('>') {
        ItemModel::Above(sides(s, '>').0, sides(s, '>').1, s)
    } else if s.contains('<') {
        ItemModel::Below(sides(s, '<').0, sides(s, '<').1, s)
    } else if s.contains('=') {
        ItemModel::Equal(sides(s, '=').0, sides(s, '=').1)
    } else {
        ItemModel::Present(trimmed(s))
    }
}

fn parse_item(s: &str) -> (r: FilterItem)
    ensures
        r.deep_view() == item_of(s@),
{
    if let Some((k, v)) = split_once_text(s, '~') {
        return FilterItem::Contains { key: trim_text(k.as_str()), needle: trim_text(v.as_str()) };
    }
    if let Some((k, v)) = split_once_text(s, '>') {
        return FilterItem::Above {
            key: trim_text(k.as_str()),
            value: trim_text(v.as_str()),
            item: s.to_owned(),
        };
    }
    if let Some((k, v)) = split_once_text(s, '<') {
        return FilterItem::Below {
            key: trim_text(k.as_str()),
            value: trim_text(v.as_str()),
            item: s.to_owned(),
        };
    }
    if let Some((k, v)) = split_once_text(s, '=') {
        return FilterItem::Equal { key: trim_text(k.as_str()), value: trim_text(v.as_str()) };
    }
    FilterItem::Present { key: trim_text(s) }
}

/// The parts of the text of a filter; none where it is missing or blank.
pub open spec fn filter_text(input: Option<Seq<char>>) -> Seq<ItemModel> {
    match input {
        None => Seq::empty(),
        Some(s) => if trimmed(s).len() == 0 {
            Seq::empty()
        } else {
            split(s, ',').map_values(|t: Seq<char>| item_of(t))
        },
    }
}

/// The parts of the text of a filter.
pub fn filter_items(input: Option<&str>) -> (r: Vec<FilterItem>)
    ensures
        r.deep_view() == filter_text(opt_text(input)),
{
    let mut out: Vec<FilterItem> = Vec::new();
    proof {
        assert(out.deep_view() =~= Seq::<ItemModel>::empty());
    }
    let text = match input {
        Some(s) => s,
        None => {
            return out;
        },
    };
    let t = trim_text(text);
    if t.as_str().is_empty() {
        return out;
    }
    let parts = split_text(text, ',');
    let ghost texts = parts.deep_view();
    let ghost want = texts.map_values(|t: Seq<char>| item_of(t));
    let mut i: usize = 0;
    proof {
        assert(out.deep_view() =~= want.take(0));
    }
    while i < parts.len()
        invariant
            i <= parts@.len(),
            texts == parts.deep_view(),
            want == texts.map_values(|t: Seq<char>| item_of(t)),
            out.deep_view() == want.take(i as int),
        decreases parts@.len() - i,
    {
        let ghost before = out.deep_view();
        let item = parse_item(parts[i].as_str());
        out.push(item);
        proof {
            assert(texts[i as int] == parts@[i as int]@);
            assert(out.deep_view() =~= before.push(item.deep_view()));
            assert(out.deep_view() =~= want.take(i + 1));
        }
        i += 1;
    }
    proof {
        assert(want.take(i as int) =~= want);
    }
    out
}

/// The filter of a part whose double is `number`, where its value is one.
pub open spec fn item_filter(item: ItemModel, number: Option<u64>) -> Result<
    FilterModel,
    Seq<char>,
> {
    match item {
        ItemModel::Contains(key, needle) => Ok(FilterModel::Contains(key, needle)),
        ItemModel::Above(key, _, text) => match number {
            Some(v) => Ok(FilterModel::GreaterThan(key, v)),
            None => Err("invalid numeric filter: "@ + text),
        },
        ItemModel::Below(key, _, text) => match number {
            Some(v) => Ok(FilterModel::LessThan(key, v)),
            None => Err("invalid numeric filter: "@ + text),
        },
        ItemModel::Equal(key, value) => Ok(FilterModel::Eq(key, inferred(value, number))),
        ItemModel::Present(key) => Ok(FilterModel::Exists(key)),
    }
}

/// The filters of the first `n` parts, or what is wrong with the first part that has none.
pub open spec fn item_filters(
    items: Seq<ItemModel>,
    numbers: Seq<Option<u64>>,
    n: nat,
) -> Result<Seq<FilterModel>, Seq<char>>
    decreases n,
{
    if n == 0 {
        Ok(Seq::empty())
    } else {
        match item_filters(items, numbers, (n - 1) as nat) {
            Err(m) => Err(m),
            Ok(v) => match item_filter(items[n - 1], numbers[n - 1]) {
                Ok(f) => Ok(v.push(f)),
                Err(m) => Err(m),
            },
        }
    }
}

proof fn lemma_filters_fail(
    items: Seq<ItemModel>,
    numbers: Seq<Option<u64>>,
    k: nat,
    n: nat,
)
    requires
        k <= n,
        item_filters(items, numbers, k) is Err,
    ensures
        item_filters(items, numbers, n) == item_filters(items, numbers, k),
    decreases n - k,
{
    if k < n {
        lemma_filters_fail(items, numbers, k, (n - 1) as nat);
    }
}

fn build_item(item: &FilterItem, number: Option<u64>) -> (r: Result<MetadataFilter, String>)
    ensures
        outcome(r, item_filter(item.deep_view(), number)),
{
    match item {
        FilterItem::Contains { key, needle } => Ok(
            MetadataFilter::contains(key.as_str(), needle.as_str()),
        ),
        FilterItem::Above { key, value: _, item } => match number {
            Some(v) => Ok(MetadataFilter::gt(key.as_str(), v)),
            None => Err(concat2("invalid numeric filter: ", item.as_str())),
        },
        FilterItem::Below { key, value: _, item } => match number {
            Some(v) => Ok(MetadataFilter::lt(key.as_str(), v)),
            None => Err(concat2("invalid numeric filter: ", item.as_str())),
        },
        FilterItem::Equal { key, value } => Ok(
            MetadataFilter::eq(key.as_str(), infer_metadata_value(value.as_str(), number)),
        ),
        FilterItem::Present { key } => Ok(MetadataFilter::exists_key(key.as_str())),
    }
}

/// The filter of parts: all of them are to hold; no parts are no filter. `numbers` are the doubles
/// that the values stand for, where they are any.
pub fn parse_filters(items: &Vec<FilterItem>, numbers: &Vec<Option<u64>>) -> (r: Result<
    Option<MetadataFilter>,
    String,
>)
    requires
        items@.len() == numbers@.len(),
    ensures
        outcome(
            r,
            match item_filters(items.deep_view(), numbers@, items@.len()) {
                Ok(filters) => Ok(collapsed(filters)),
                Err(m) => Err(m),
            },
        ),
{
    let ghost all = items.deep_view();
    let mut out: Vec<MetadataFilter> = Vec::new();
    let mut i: usize = 0;
    proof {
        assert(out.deep_view() =~= Seq::<FilterModel>::empty());
    }
    while i < items.len()
        invariant
            items@.len() == numbers@.len(),
            all == items.deep_view(),
            i <= items@.len(),
            item_filters(all, numbers@, i as nat) == Ok::<Seq<FilterModel>, Seq<char>>(
                out.deep_view(),
            ),
        decreases items@.len() - i,
    {
        let ghost before = out.deep_view();
        proof {
            assert(all[i as int] == items@[i as int].deep_view());
        }
        match build_item(&items[i], numbers[i]) {
            Ok(f) => {
                out.push(f);
                proof {
                    assert(out.deep_view() =~= before.push(f.deep_view()));
                }
            },
            Err(m) => {
                proof {
                    lemma_filters_fail(all, numbers@, (i + 1) as nat, items@.len());
                }
                return Err(m);
            },
        }
        i += 1;
    }
    Ok(collapse(out))
}

} // verus!
