//! Metadata as text. Doubles are written elsewhere: a renderer is handed their texts, in the order
//! in which they are met.
use vstd::prelude::*;
use crate::metadata::{lemma_list_view, lemma_map_view, Metadata, MetadataValue, ValueModel};
use crate::text::{decimal, decimal_text};

verus! {

/// An integer in decimal digits.
pub open spec fn signed_decimal(i: int) -> Seq<char> {
    if i < 0 {
        "-"@ + decimal((-i) as nat)
    } else {
        decimal(i as nat)
    }
}

/// An integer in decimal digits.
pub fn signed_text(i: i64) -> (r: String)
    ensures
        r@ == signed_decimal(i as int),
{
    if i < 0 {
        let m: u64 = (-(i as i128)) as u64;
        "-".to_owned().concat(decimal_text(m).as_str())
    } else {
        decimal_text(i as u64)
    }
}

/// The doubles of a value, in the order in which they are met.
pub open spec fn doubles_of(v: ValueModel) -> Seq<u64>
    decreases v, 0nat,
{
    match v {
        ValueModel::Float(bits) => seq![bits],
        ValueModel::List(items) => item_doubles(items, items.len()),
        ValueModel::Object(pairs) => entry_doubles(pairs, pairs.len()),
        _ => Seq::empty(),
    }
}

/// The doubles of the first `n` items.
pub open spec fn item_doubles(items: Seq<ValueModel>, n: nat) -> Seq<u64>
    decreases items, n,
{
    if n == 0 || n > items.len() {
        Seq::empty()
    } else {
        item_doubles(items, (n - 1) as nat) + doubles_of(items[n - 1])
    }
}

/// The doubles of the first `n` entries.
pub open spec fn entry_doubles(pairs: Seq<(Seq<char>, ValueModel)>, n: nat) -> Seq<u64>
    decreases pairs, n,
{
    if n == 0 || n > pairs.len() {
        Seq::empty()
    } else {
        entry_doubles(pairs, (n - 1) as nat) + doubles_of(pairs[n - 1].1)
    }
}

/// What stands before the item `n`.
pub open spec fn separator(n: nat) -> Seq<char> {
    if n <= 1 {
        Seq::empty()
    } else {
        ", "@
    }
}

/// The text of a value whose doubles have the texts from `from` on.
pub open spec fn text_of_value(v: ValueModel, texts: Seq<Seq<char>>, from: int) -> Seq<char>
    decreases v, 0nat,
{
    match v {
        ValueModel::Text(s) => s,
        ValueModel::Integer(i) => signed_decimal(i as int),
        ValueModel::Float(_) => texts[from],
        ValueModel::Boolean(b) => if b {
            "true"@
        } else {
            "false"@
        },
        ValueModel::Null => "null"@,
        ValueModel::List(items) => "["@ + text_of_items(items, texts, from, items.len()) + "]"@,
        ValueModel::Object(pairs) => "{"@ + text_of_entries(
            pairs,
            texts,
            from,
            pairs.len(),
            ": "@,
        ) + "}"@,
    }
}

/// The text of the first `n` items.
pub open spec fn text_of_items(
    items: Seq<ValueModel>,
    texts: Seq<Seq<char>>,
    from: int,
    n: nat,
) -> Seq<char>
    decreases items, n,
{
    if n == 0 || n > items.len() {
        Seq::empty()
    } else {
        text_of_items(items, texts, from, (n - 1) as nat) + separator(n) + text_of_value(
            items[n - 1],
            texts,
            from + item_doubles(items, (n - 1) as nat).len(),
        )
    }
}

/// The text of the first `n` entries, with `mark` between keys and values.
pub open spec fn text_of_entries(
    pairs: Seq<(Seq<char>, ValueModel)>,
    texts: Seq<Seq<char>>,
    from: int,
    n: nat,
    mark: Seq<char>,
) -> Seq<char>
    decreases pairs, n,
{
    if n == 0 || n > pairs.len() {
        Seq::empty()
    } else {
        text_of_entries(pairs, texts, from, (n - 1) as nat, mark) + separator(n) + pairs[n - 1].0
            + mark + text_of_value(
            pairs[n - 1].1,
            texts,
            from + entry_doubles(pairs, (n - 1) as nat).len(),
        )
    }
}

proof fn lemma_item_doubles(items: Seq<ValueModel>, k: nat, n: nat)
    requires
        k < n <= items.len(),
    ensures
        item_doubles(items, k).len() + doubles_of(items[k as int]).len() <= item_doubles(
            items,
            n,
        ).len(),
    decreases n - k,
{
    if k + 1 < n {
        lemma_item_doubles(items, k, (n - 1) as nat);
    }
}

proof fn lemma_entry_doubles(pairs: Seq<(Seq<char>, ValueModel)>, k: nat, n: nat)
    requires
        k < n <= pairs.len(),
    ensures
        entry_doubles(pairs, k).len() + doubles_of(pairs[k as int].1).len() <= entry_doubles(
            pairs,
            n,
        ).len(),
    decreases n - k,
{
    if k + 1 < n {
        lemma_entry_doubles(pairs, k, (n - 1) as nat);
    }
}

/// Collects the doubles of a value behind others.
pub fn collect_doubles(v: &MetadataValue, out: &mut Vec<u64>)
    ensures
        final(out)@ == old(out)@ + doubles_of(v.deep_view()),
    decreases v,
{
    match v {
        MetadataValue::Float(bits) => {
            out.push(*bits);
            proof {
                assert(out@ =~= old(out)@ + doubles_of(v.deep_view()));
            }
        },
        MetadataValue::List(items) => {
            let ghost all = items.deep_view();
            let ghost before = out@;
            let mut i: usize = 0;
            proof {
                lemma_list_view(*items);
                assert(out@ =~= before + item_doubles(all, 0));
            }
            while i < items.len()
                invariant
                    i <= items@.len(),
                    all == items.deep_view(),
                    *v == MetadataValue::List(*items),
                    out@ == before + item_doubles(all, i as nat),
                decreases items@.len() - i,
            {
                proof {
                    assert(decreases_to!(*v => v->List_0@[i as int]));
                    assert(all[i as int] == items@[i as int].deep_view());
                }
                collect_doubles(&items[i], out);
                i += 1;
                proof {
                    assert(out@ =~= before + item_doubles(all, i as nat));
                }
            }
        },
        MetadataValue::Object(map) => {
            let ghost all = map.pairs();
            let ghost before = out@;
            let mut i: usize = 0;
            proof {
                lemma_map_view(*map);
                assert(out@ =~= before + entry_doubles(all, 0));
            }
            while i < map.entries.len()
                invariant
                    i <= map.entries@.len(),
                    all == map.pairs(),
                    *v == MetadataValue::Object(*map),
                    out@ == before + entry_doubles(all, i as nat),
                decreases map.entries@.len() - i,
            {
                proof {
                    assert(decreases_to!(*v => v->Object_0.entries@[i as int].1));
                    assert(all[i as int].1 == map.entries@[i as int].1.deep_view());
                }
                collect_doubles(&map.entries[i].1, out);
                i += 1;
                proof {
                    assert(out@ =~= before + entry_doubles(all, i as nat));
                }
            }
        },
        _ => {
            proof {
                assert(out@ =~= old(out)@ + doubles_of(v.deep_view()));
            }
        },
    }
}

/// Writes a value behind a text; says which text of a double comes next.
fn write_value(v: &MetadataValue, texts: &Vec<String>, from: usize, out: String) -> (r: (
    String,
    usize,
))
    requires
        from + doubles_of(v.deep_view()).len() <= texts@.len(),
    ensures
        r.0@ == out@ + text_of_value(v.deep_view(), texts.deep_view(), from as int),
        r.1 == from + doubles_of(v.deep_view()).len(),
    decreases v,
{
    let ghost given = texts.deep_view();
    match v {
        MetadataValue::String(s) => (out.concat(s.as_str()), from),
        MetadataValue::Integer(i) => (out.concat(signed_text(*i).as_str()), from),
        MetadataValue::Float(_) => {
            let total: usize = texts.len();
            proof {
                assert(from < total);
                assert(given[from as int] == texts@[from as int]@);
            }
            (out.concat(texts[from].as_str()), from + 1)
        },
        MetadataValue::Boolean(b) => if *b {
            (out.concat("true"), from)
        } else {
            (out.concat("false"), from)
        },
        MetadataValue::Null => (out.concat("null"), from),
        MetadataValue::List(items) => {
            let ghost all = items.deep_view();
            let ghost start = out@ + "["@;
            let mut text = out.concat("[");
            let mut next: usize = from;
            let mut i: usize = 0;
            proof {
                lemma_list_view(*items);
                assert(text@ =~= start + text_of_items(all, given, from as int, 0));
            }
            while i < items.len()
                invariant
                    i <= items@.len(),
                    all == items.deep_view(),
                    given == texts.deep_view(),
                    *v == MetadataValue::List(*items),
                    from + item_doubles(all, all.len()).len() <= texts@.len(),
                    next == from + item_doubles(all, i as nat).len(),
                    text@ == start + text_of_items(all, given, from as int, i as nat),
                decreases items@.len() - i,
            {
                proof {
                    assert(decreases_to!(*v => v->List_0@[i as int]));
                    assert(all[i as int] == items@[i as int].deep_view());
                    lemma_item_doubles(all, i as nat, all.len());
                }
                let ghost before = text@;
                if i > 0 {
                    text = text.concat(", ");
                }
                proof {
                    assert(text@ =~= before + separator((i + 1) as nat));
                }
                let step = write_value(&items[i], texts, next, text);
                text = step.0;
                next = step.1;
                i += 1;
                proof {
                    assert(text@ =~= start + text_of_items(all, given, from as int, i as nat));
                }
            }
            let text = text.concat("]");
            proof {
                assert(text@ =~= out@ + text_of_value(v.deep_view(), given, from as int));
            }
            (text, next)
        },
        MetadataValue::Object(map) => {
            let ghost all = map.pairs();
            let ghost start = out@ + "{"@;
            let mut text = out.concat("{");
            let mut next: usize = from;
            let mut i: usize = 0;
            proof {
                lemma_map_view(*map);
                assert(text@ =~= start + text_of_entries(all, given, from as int, 0, ": "@));
            }
            while i < map.entries.len()
                invariant
                    i <= map.entries@.len(),
                    all == map.pairs(),
                    given == texts.deep_view(),
                    *v == MetadataValue::Object(*map),
                    from + entry_doubles(all, all.len()).len() <= texts@.len(),
                    next == from + entry_doubles(all, i as nat).len(),
                    text@ == start + text_of_entries(all, given, from as int, i as nat, ": "@),
                decreases map.entries@.len() - i,
            {
                proof {
                    assert(decreases_to!(*v => v->Object_0.entries@[i as int].1));
                    assert(all[i as int] == (
                        map.entries@[i as int].0@,
                        map.entries@[i as int].1.deep_view(),
                    ));
                    lemma_entry_doubles(all, i as nat, all.len());
                }
                let ghost before = text@;
                if i > 0 {
                    text = text.concat(", ");
                }
                proof {
                    assert(text@ =~= before + separator((i + 1) as nat));
                }
                let e = &map.entries[i];
                text = text.concat(e.0.as_str()).concat(": ");
                let step = write_value(&e.1, texts, next, text);
                text = step.0;
                next = step.1;
                i += 1;
                proof {
                    assert(text@ =~= start + text_of_entries(
                        all,
                        given,
                        from as int,
                        i as nat,
                        ": "@,
                    ));
                }
            }
            let text = text.concat("}");
            proof {
                assert(text@ =~= out@ + text_of_value(v.deep_view(), given, from as int));
            }
            (text, next)
        },
    }
}

/// The text of a value, given those of its doubles.
pub fn render_value(v: &MetadataValue, texts: &Vec<String>) -> (r: String)
    requires
        doubles_of(v.deep_view()).len() <= texts@.len(),
    ensures
        r@ == text_of_value(v.deep_view(), texts.deep_view(), 0),
{
    let none = String::new();
    let r = write_value(v, texts, 0, none).0;
    proof {
        assert(none@ =~= Seq::<char>::empty());
        assert(r@ =~= text_of_value(v.deep_view(), texts.deep_view(), 0));
    }
    r
}

/// The doubles of metadata, in the order in which they are met.
pub fn metadata_doubles(metadata: &Metadata) -> (r: Vec<u64>)
    ensures
        r@ == entry_doubles(metadata.pairs(), metadata.pairs().len()),
{
    let ghost all = metadata.pairs();
    let mut out: Vec<u64> = Vec::new();
    let mut i: usize = 0;
    proof {
        assert(out@ =~= entry_doubles(all, 0));
    }
    while i < metadata.len()
        invariant
            all == metadata.pairs(),
            i <= all.len(),
            out@ == entry_doubles(all, i as nat),
        decreases all.len() - i,
    {
        collect_doubles(metadata.value_at(i), &mut out);
        i += 1;
    }
    out
}

/// Metadata on one line: the entries in braces.
pub open spec fn metadata_line(
    pairs: Seq<(Seq<char>, ValueModel)>,
    texts: Seq<Seq<char>>,
) -> Seq<char> {
    "{"@ + text_of_entries(pairs, texts, 0, pairs.len(), "="@) + "}"@
}

/// Metadata on one line, given the texts of its doubles.
pub fn format_metadata(metadata: &Metadata, texts: &Vec<String>) -> (r: String)
    requires
        entry_doubles(metadata.pairs(), metadata.pairs().len()).len() <= texts@.len(),
    ensures
        r@ == metadata_line(metadata.pairs(), texts.deep_view()),
{
    let ghost all = metadata.pairs();
    let ghost given = texts.deep_view();
    let mut text = "{".to_owned();
    let mut next: usize = 0;
    let mut i: usize = 0;
    proof {
        assert(text@ =~= "{"@ + text_of_entries(all, given, 0, 0, "="@));
    }
    while i < metadata.len()
        invariant
            all == metadata.pairs(),
            given == texts.deep_view(),
            i <= all.len(),
            entry_doubles(all, all.len()).len() <= texts@.len(),
            next == entry_doubles(all, i as nat).len(),
            text@ == "{"@ + text_of_entries(all, given, 0, i as nat, "="@),
        decreases all.len() - i,
    {
        proof {
            lemma_entry_doubles(all, i as nat, all.len());
        }
        let ghost before = text@;
        if i > 0 {
            text = text.concat(", ");
        }
        proof {
            assert(text@ =~= before + separator((i + 1) as nat));
        }
        text = text.concat(metadata.key_at(i).as_str()).concat("=");
        let step = write_value(metadata.value_at(i), texts, next, text);
        text = step.0;
        next = step.1;
        i += 1;
        proof {
            assert(text@ =~= "{"@ + text_of_entries(all, given, 0, i as nat, "="@));
        }
    }
    text.concat("}")
}

/// The first `n` texts with commas between them.
pub open spec fn joined(texts: Seq<Seq<char>>, n: nat) -> Seq<char>
    decreases n,
{
    if n == 0 || n > texts.len() {
        Seq::empty()
    } else if n == 1 {
        texts[0]
    } else {
        joined(texts, (n - 1) as nat) + ","@ + texts[n - 1]
    }
}

/// The components of a vector on one line, given their texts.
pub fn format_vector(texts: &Vec<String>) -> (r: String)
    ensures
        r@ == joined(texts.deep_view(), texts@.len()),
{
    let ghost given = texts.deep_view();
    let mut out = String::new();
    let mut i: usize = 0;
    proof {
        assert(out@ =~= Seq::<char>::empty());
    }
    while i < texts.len()
        invariant
            given == texts.deep_view(),
            i <= texts@.len(),
            out@ == joined(given, i as nat),
        decreases texts@.len() - i,
    {
        proof {
            assert(given[i as int] == texts@[i as int]@);
        }
        let ghost before = out@;
        if i > 0 {
            out = out.concat(",");
        }
        out = out.concat(texts[i].as_str());
        i += 1;
        proof {
            assert(out@ =~= joined(given, i as nat));
        }
    }
    out
}

} // verus!
