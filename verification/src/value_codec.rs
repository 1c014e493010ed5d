//! The byte format of metadata values.
use vstd::prelude::*;
use crate::codec::{
    agrees, enc_text, end_of_input, from_twos_complement, le_bytes, le_value,
    lemma_parse_le_roundtrip, lemma_parse_text_roundtrip, lemma_pow256_values,
    lemma_twos_complement, of_twos_complement, parse_le, parse_text, text_fits, to_twos_complement,
    too_long, twos_complement, write_le, write_len, write_text, Parsed, Reader,
};
use crate::error::{Failure, VectLiteError};
use crate::metadata::{lemma_list_view, lemma_map_view, Metadata, MetadataValue, ValueModel};
use crate::order::Key;
use crate::ordered_map::{ascending, insert_pair, lemma_insert_last, OrderedMap};
use crate::text::{concat2, decimal, decimal_text};

verus! {

pub const TYPE_STRING: u8 = 1;

pub const TYPE_INTEGER: u8 = 2;

pub const TYPE_FLOAT: u8 = 3;

pub const TYPE_BOOLEAN: u8 = 4;

pub const TYPE_NULL: u8 = 5;

pub const TYPE_LIST: u8 = 6;

pub const TYPE_MAP: u8 = 7;

/// The tag byte of a value.
pub open spec fn tag_of(v: ValueModel) -> u8 {
    match v {
        ValueModel::Text(_) => TYPE_STRING,
        ValueModel::Integer(_) => TYPE_INTEGER,
        ValueModel::Float(_) => TYPE_FLOAT,
        ValueModel::Boolean(_) => TYPE_BOOLEAN,
        ValueModel::Null => TYPE_NULL,
        ValueModel::List(_) => TYPE_LIST,
        ValueModel::Object(_) => TYPE_MAP,
    }
}

/// The bytes of a value.
pub open spec fn enc_value(v: ValueModel) -> Seq<u8>
    decreases v,
{
    seq![tag_of(v)] + match v {
        ValueModel::Text(s) => enc_text(s),
        ValueModel::Integer(n) => le_bytes(twos_complement(n), 8),
        ValueModel::Float(bits) => le_bytes(bits as nat, 8),
        ValueModel::Boolean(b) => seq![if b { 1u8 } else { 0u8 }],
        ValueModel::Null => Seq::empty(),
        ValueModel::List(items) => le_bytes(items.len(), 4) + enc_values(items),
        ValueModel::Object(pairs) => le_bytes(pairs.len(), 4) + enc_pairs(pairs),
    }
}

/// The bytes of values, one after the other.
pub open spec fn enc_values(items: Seq<ValueModel>) -> Seq<u8>
    decreases items,
{
    if items.len() == 0 {
        Seq::empty()
    } else {
        enc_value(items[0]) + enc_values(items.drop_first())
    }
}

/// The bytes of entries, each a key and a value.
pub open spec fn enc_pairs(pairs: Seq<(Seq<char>, ValueModel)>) -> Seq<u8>
    decreases pairs,
{
    if pairs.len() == 0 {
        Seq::empty()
    } else {
        enc_text(pairs[0].0) + enc_value(pairs[0].1) + enc_pairs(pairs.drop_first())
    }
}

/// Whether every length in a value fits its length field.
pub open spec fn value_fits(v: ValueModel) -> bool
    decreases v,
{
    match v {
        ValueModel::Text(s) => text_fits(s),
        ValueModel::List(items) => items.len() <= 0xffff_ffff && forall|i: int|
            0 <= i < items.len() ==> value_fits(#[trigger] items[i]),
        ValueModel::Object(pairs) => pairs.len() <= 0xffff_ffff && forall|i: int|
            0 <= i < pairs.len() ==> text_fits((#[trigger] pairs[i]).0) && value_fits(pairs[i].1),
        _ => true,
    }
}

/// Whether every length in entries fits its length field.
pub open spec fn pairs_fit(pairs: Seq<(Seq<char>, ValueModel)>) -> bool {
    pairs.len() <= 0xffff_ffff && forall|i: int|
        0 <= i < pairs.len() ==> text_fits((#[trigger] pairs[i]).0) && value_fits(pairs[i].1)
}

/// Whether the entries of every map inside a value are ascending.
pub open spec fn value_ordered(v: ValueModel) -> bool
    decreases v,
{
    match v {
        ValueModel::List(items) => forall|i: int|
            0 <= i < items.len() ==> value_ordered(#[trigger] items[i]),
        ValueModel::Object(pairs) => ascending::<String, ValueModel>(pairs) && forall|i: int|
            0 <= i < pairs.len() ==> value_ordered((#[trigger] pairs[i]).1),
        _ => true,
    }
}

/// Whether entries, and those of every map inside them, are ascending.
pub open spec fn pairs_ordered(pairs: Seq<(Seq<char>, ValueModel)>) -> bool {
    ascending::<String, ValueModel>(pairs) && forall|i: int|
        0 <= i < pairs.len() ==> value_ordered((#[trigger] pairs[i]).1)
}

/// Reads a value.
pub open spec fn parse_value(b: Seq<u8>) -> Parsed<ValueModel>
    decreases b.len(), 0int,
{
    match parse_le(b, 1) {
        Err(e) => Err(e),
        Ok((tag, rest)) => if tag == TYPE_STRING {
            match parse_text(rest) {
                Err(e) => Err(e),
                Ok((s, tail)) => Ok((ValueModel::Text(s), tail)),
            }
        } else if tag == TYPE_INTEGER {
            match parse_le(rest, 8) {
                Err(e) => Err(e),
                Ok((n, tail)) => Ok((ValueModel::Integer(from_twos_complement(n)), tail)),
            }
        } else if tag == TYPE_FLOAT {
            match parse_le(rest, 8) {
                Err(e) => Err(e),
                Ok((n, tail)) => Ok((ValueModel::Float(n as u64), tail)),
            }
        } else if tag == TYPE_BOOLEAN {
            match parse_le(rest, 1) {
                Err(e) => Err(e),
                Ok((n, tail)) => Ok((ValueModel::Boolean(n != 0), tail)),
            }
        } else if tag == TYPE_NULL {
            Ok((ValueModel::Null, rest))
        } else if tag == TYPE_LIST {
            match parse_le(rest, 4) {
                Err(e) => Err(e),
                Ok((n, tail)) => match parse_values(n, Seq::empty(), tail) {
                    Err(e) => Err(e),
                    Ok((items, end)) => Ok((ValueModel::List(items), end)),
                },
            }
        } else if tag == TYPE_MAP {
            match parse_le(rest, 4) {
                Err(e) => Err(e),
                Ok((n, tail)) => match parse_pairs(n, Seq::empty(), tail) {
                    Err(e) => Err(e),
                    Ok((pairs, end)) => Ok((ValueModel::Object(pairs), end)),
                },
            }
        } else {
            Err(Failure::InvalidFormat("unknown metadata value tag "@ + decimal(tag)))
        },
    }
}

/// Reads `n` more values after those in `acc`.
pub open spec fn parse_values(n: nat, acc: Seq<ValueModel>, b: Seq<u8>) -> Parsed<Seq<ValueModel>>
    decreases b.len(), 1int,
{
    if n == 0 {
        Ok((acc, b))
    } else {
        match parse_value(b) {
            Err(e) => Err(e),
            Ok((v, rest)) => if rest.len() < b.len() {
                parse_values((n - 1) as nat, acc.push(v), rest)
            } else {
                Err(end_of_input())
            },
        }
    }
}

/// Reads `n` more entries into `acc`; a later entry of a key replaces an earlier one.
pub open spec fn parse_pairs(n: nat, acc: Seq<(Seq<char>, ValueModel)>, b: Seq<u8>) -> Parsed<
    Seq<(Seq<char>, ValueModel)>,
>
    decreases b.len(), 1int,
{
    if n == 0 {
        Ok((acc, b))
    } else {
        match parse_text(b) {
            Err(e) => Err(e),
            Ok((key, mid)) => match parse_value(mid) {
                Err(e) => Err(e),
                Ok((v, rest)) => if rest.len() < b.len() {
                    parse_pairs((n - 1) as nat, insert_pair::<String, ValueModel>(acc, key, v), rest)
                } else {
                    Err(end_of_input())
                },
            },
        }
    }
}

/// Reads a count and as many entries.
pub open spec fn parse_metadata(b: Seq<u8>) -> Parsed<Seq<(Seq<char>, ValueModel)>> {
    match parse_le(b, 4) {
        Err(e) => Err(e),
        Ok((n, rest)) => parse_pairs(n, Seq::empty(), rest),
    }
}

/// A count and the entries.
pub open spec fn enc_metadata(pairs: Seq<(Seq<char>, ValueModel)>) -> Seq<u8> {
    le_bytes(pairs.len(), 4) + enc_pairs(pairs)
}

/// Reading a value uses up at least one byte.
pub proof fn lemma_parse_value_consumes(b: Seq<u8>)
    ensures
        parse_value(b) matches Ok(p) ==> p.1.len() < b.len(),
    decreases b.len(), 0int,
{
    if parse_le(b, 1) is Ok {
        let rest = b.skip(1);
        if parse_le(rest, 4) is Ok {
            let p = parse_le(rest, 4)->Ok_0;
            lemma_parse_values_consumes(p.0, Seq::empty(), p.1);
            lemma_parse_pairs_consumes(p.0, Seq::empty(), p.1);
        }
    }
}

pub proof fn lemma_parse_values_consumes(n: nat, acc: Seq<ValueModel>, b: Seq<u8>)
    ensures
        parse_values(n, acc, b) matches Ok(p) ==> p.1.len() <= b.len(),
    decreases b.len(), 1int,
{
    if n > 0 {
        lemma_parse_value_consumes(b);
        if parse_value(b) is Ok {
            let p = parse_value(b)->Ok_0;
            lemma_parse_values_consumes((n - 1) as nat, acc.push(p.0), p.1);
        }
    }
}

pub proof fn lemma_parse_pairs_consumes(n: nat, acc: Seq<(Seq<char>, ValueModel)>, b: Seq<u8>)
    ensures
        parse_pairs(n, acc, b) matches Ok(p) ==> p.1.len() <= b.len(),
    decreases b.len(), 1int,
{
    if n > 0 && parse_text(b) is Ok {
        let t = parse_text(b)->Ok_0;
        lemma_parse_value_consumes(t.1);
        if parse_value(t.1) is Ok {
            let p = parse_value(t.1)->Ok_0;
            lemma_parse_pairs_consumes(
                (n - 1) as nat,
                insert_pair::<String, ValueModel>(acc, t.0, p.0),
                p.1,
            );
        }
    }
}

/// A written value is read back, whatever follows it.
#[verifier::spinoff_prover]
#[verifier::rlimit(60)]
pub proof fn law_value_roundtrip(v: ValueModel, tail: Seq<u8>)
    requires
        value_fits(v),
        value_ordered(v),
    ensures
        parse_value(enc_value(v) + tail) == Ok::<(ValueModel, Seq<u8>), Failure>((v, tail)),
    decreases v,
{
    lemma_pow256_values();
    let tag = tag_of(v);
    let b = enc_value(v) + tail;
    let body = b.skip(1);
    assert(b.take(1) =~= seq![tag]);
    assert(seq![tag].drop_first() =~= Seq::<u8>::empty());
    assert(le_value(seq![tag]) == tag) by {
        reveal_with_fuel(le_value, 2);
    }
    assert(parse_le(b, 1) == Ok::<(nat, Seq<u8>), Failure>((tag as nat, body)));
    match v {
        ValueModel::Text(s) => {
            assert(body =~= enc_text(s) + tail);
            lemma_parse_text_roundtrip(s, tail);
        },
        ValueModel::Integer(n) => {
            assert(body =~= le_bytes(twos_complement(n), 8) + tail);
            lemma_twos_complement(n);
            lemma_parse_le_roundtrip(twos_complement(n), 8, tail);
        },
        ValueModel::Float(bits) => {
            assert(body =~= le_bytes(bits as nat, 8) + tail);
            lemma_parse_le_roundtrip(bits as nat, 8, tail);
        },
        ValueModel::Boolean(x) => {
            let d: u8 = if x {
                1
            } else {
                0
            };
            assert(body =~= seq![d] + tail);
            assert(body.take(1) =~= seq![d]);
            assert(body.skip(1) =~= tail);
            assert(seq![d].drop_first() =~= Seq::<u8>::empty());
            assert(le_value(seq![d]) == d) by {
                reveal_with_fuel(le_value, 2);
            }
        },
        ValueModel::Null => {
            assert(body =~= tail);
        },
        ValueModel::List(items) => {
            assert(body =~= le_bytes(items.len(), 4) + (enc_values(items) + tail));
            lemma_parse_le_roundtrip(items.len(), 4, enc_values(items) + tail);
            lemma_values_roundtrip(items, Seq::empty(), tail);
            assert(Seq::<ValueModel>::empty() + items =~= items);
        },
        ValueModel::Object(pairs) => {
            assert(body =~= le_bytes(pairs.len(), 4) + (enc_pairs(pairs) + tail));
            lemma_parse_le_roundtrip(pairs.len(), 4, enc_pairs(pairs) + tail);
            assert(Seq::<(Seq<char>, ValueModel)>::empty() + pairs =~= pairs);
            lemma_pairs_roundtrip(pairs, Seq::empty(), tail);
        },
    }
}

proof fn lemma_values_roundtrip(items: Seq<ValueModel>, acc: Seq<ValueModel>, tail: Seq<u8>)
    requires
        forall|i: int| 0 <= i < items.len() ==> value_fits(#[trigger] items[i]),
        forall|i: int| 0 <= i < items.len() ==> value_ordered(#[trigger] items[i]),
    ensures
        parse_values(items.len(), acc, enc_values(items) + tail) == Ok::<
            (Seq<ValueModel>, Seq<u8>),
            Failure,
        >((acc + items, tail)),
    decreases items,
{
    if items.len() == 0 {
        assert(enc_values(items) + tail =~= tail);
        assert(acc + items =~= acc);
    } else {
        let more = items.drop_first();
        let b = enc_values(items) + tail;
        assert(b =~= enc_value(items[0]) + (enc_values(more) + tail));
        law_value_roundtrip(items[0], enc_values(more) + tail);
        lemma_parse_value_consumes(b);
        assert forall|i: int| 0 <= i < more.len() implies value_fits(#[trigger] more[i])
            && value_ordered(more[i]) by {
            assert(more[i] == items[i + 1]);
        }
        assert forall|i: int| 0 <= i < more.len() implies value_ordered(#[trigger] more[i]) by {
            assert(more[i] == items[i + 1]);
        }
        lemma_values_roundtrip(more, acc.push(items[0]), tail);
        assert(acc.push(items[0]) + more =~= acc + items);
    }
}

/// Entries that continue ascending entries are read back after them.
pub proof fn lemma_pairs_roundtrip(
    pairs: Seq<(Seq<char>, ValueModel)>,
    acc: Seq<(Seq<char>, ValueModel)>,
    tail: Seq<u8>,
)
    requires
        ascending::<String, ValueModel>(acc + pairs),
        forall|i: int|
            0 <= i < pairs.len() ==> text_fits((#[trigger] pairs[i]).0) && value_fits(pairs[i].1),
        forall|i: int| 0 <= i < pairs.len() ==> value_ordered((#[trigger] pairs[i]).1),
    ensures
        parse_pairs(pairs.len(), acc, enc_pairs(pairs) + tail) == Ok::<
            (Seq<(Seq<char>, ValueModel)>, Seq<u8>),
            Failure,
        >((acc + pairs, tail)),
    decreases pairs,
{
    if pairs.len() == 0 {
        assert(enc_pairs(pairs) + tail =~= tail);
        assert(acc + pairs =~= acc);
    } else {
        let more = pairs.drop_first();
        let (key, v) = pairs[0];
        let b = enc_pairs(pairs) + tail;
        let mid = enc_value(v) + (enc_pairs(more) + tail);
        assert(b =~= enc_text(key) + mid);
        lemma_parse_text_roundtrip(key, mid);
        law_value_roundtrip(v, enc_pairs(more) + tail);
        lemma_parse_value_consumes(mid);
        let all = acc + pairs;
        assert forall|i: int| 0 <= i < acc.len() implies <String as Key>::before(
            (#[trigger] acc[i]).0,
            key,
        ) by {
            assert(all[i] == acc[i]);
            assert(all[acc.len() as int] == pairs[0]);
        }
        lemma_insert_last::<String, ValueModel>(acc, key, v);
        assert forall|i: int| 0 <= i < more.len() implies text_fits((#[trigger] more[i]).0)
            && value_fits(more[i].1) by {
            assert(more[i] == pairs[i + 1]);
        }
        assert forall|i: int| 0 <= i < more.len() implies value_ordered(
            (#[trigger] more[i]).1,
        ) by {
            assert(more[i] == pairs[i + 1]);
        }
        assert(acc.push(pairs[0]) + more =~= all);
        lemma_pairs_roundtrip(more, acc.push(pairs[0]), tail);
    }
}

/// Written metadata is read back, whatever follows it.
pub proof fn law_metadata_roundtrip(pairs: Seq<(Seq<char>, ValueModel)>, tail: Seq<u8>)
    requires
        pairs_fit(pairs),
        pairs_ordered(pairs),
    ensures
        parse_metadata(enc_metadata(pairs) + tail) == Ok::<
            (Seq<(Seq<char>, ValueModel)>, Seq<u8>),
            Failure,
        >((pairs, tail)),
{
    lemma_pow256_values();
    assert(enc_metadata(pairs) + tail =~= le_bytes(pairs.len(), 4) + (enc_pairs(pairs) + tail));
    lemma_parse_le_roundtrip(pairs.len(), 4, enc_pairs(pairs) + tail);
    assert(Seq::<(Seq<char>, ValueModel)>::empty() + pairs =~= pairs);
    lemma_pairs_roundtrip(pairs, Seq::empty(), tail);
}

impl MetadataValue {
    /// The tag byte of the value.
    pub fn type_tag(&self) -> (r: u8)
        ensures
            r == tag_of(self@),
    {
        match self {
            MetadataValue::String(_) => TYPE_STRING,
            MetadataValue::Integer(_) => TYPE_INTEGER,
            MetadataValue::Float(_) => TYPE_FLOAT,
            MetadataValue::Boolean(_) => TYPE_BOOLEAN,
            MetadataValue::Null => TYPE_NULL,
            MetadataValue::List(_) => TYPE_LIST,
            MetadataValue::Object(_) => TYPE_MAP,
        }
    }
}

/// Appends a value.
pub fn write_metadata_value(out: &mut Vec<u8>, value: &MetadataValue) -> (r: Result<
    (),
    VectLiteError,
>)
    ensures
        value_fits(value@) ==> r is Ok && final(out)@ == old(out)@ + enc_value(value@),
        !value_fits(value@) ==> (r matches Err(e) && e@ == too_long()),
    decreases value,
{
    let ghost start = out@;
    let tag: u8 = value.type_tag();
    out.push(tag);
    let ghost tagged = out@;
    proof {
        assert(tagged =~= start + seq![tag]);
    }
    match value {
        MetadataValue::String(s) => {
            let r = write_text(out, s.as_str());
            proof {
                if r is Ok {
                    assert(out@ =~= start + enc_value(value@));
                }
            }
            r
        },
        MetadataValue::Integer(n) => {
            write_le(out, to_twos_complement(*n), 8);
            proof {
                assert(out@ =~= start + enc_value(value@));
            }
            Ok(())
        },
        MetadataValue::Float(bits) => {
            write_le(out, *bits, 8);
            proof {
                assert(out@ =~= start + enc_value(value@));
            }
            Ok(())
        },
        MetadataValue::Boolean(b) => {
            out.push(if *b { 1 } else { 0 });
            proof {
                assert(out@ =~= start + enc_value(value@));
            }
            Ok(())
        },
        MetadataValue::Null => {
            proof {
                assert(out@ =~= start + enc_value(value@));
            }
            Ok(())
        },
        MetadataValue::List(items) => {
            proof {
                lemma_list_view(*items);
            }
            match write_len(out, items.len()) {
                Ok(()) => {},
                Err(e) => {
                    return Err(e);
                },
            }
            let ghost all = items.deep_view();
            let ghost head = out@;
            let mut i: usize = 0;
            proof {
                assert(all.skip(0) =~= all);
            }
            while i < items.len()
                invariant
                    i <= items@.len(),
                    *value == MetadataValue::List(*items),
                    value@ == ValueModel::List(all),
                    all == items.deep_view(),
                    all.len() <= 0xffff_ffff,
                    out@ + enc_values(all.skip(i as int)) == head + enc_values(all),
                    forall|k: int| 0 <= k < i ==> value_fits(#[trigger] all[k]),
                decreases items@.len() - i,
            {
                let item = &items[i];
                proof {
                    assert(decreases_to!(*value => value->List_0@[i as int]));
                    assert(all[i as int] == item@);
                    assert(all.skip(i as int).drop_first() =~= all.skip(i + 1));
                }
                let ghost before = out@;
                match write_metadata_value(out, item) {
                    Ok(()) => {},
                    Err(e) => {
                        return Err(e);
                    },
                }
                proof {
                    assert(before + (enc_value(all[i as int]) + enc_values(all.skip(i + 1)))
                        =~= out@ + enc_values(all.skip(i + 1)));
                }
                i += 1;
            }
            proof {
                assert(out@ + enc_values(all.skip(i as int)) =~= out@);
                assert(out@ =~= start + enc_value(value@));
            }
            Ok(())
        },
        MetadataValue::Object(map) => {
            proof {
                lemma_map_view(*map);
            }
            match write_len(out, map.entries.len()) {
                Ok(()) => {},
                Err(e) => {
                    return Err(e);
                },
            }
            let ghost all = map.pairs();
            let ghost head = out@;
            let mut i: usize = 0;
            proof {
                assert(all.skip(0) =~= all);
            }
            while i < map.entries.len()
                invariant
                    i <= map.entries@.len(),
                    *value == MetadataValue::Object(*map),
                    value@ == ValueModel::Object(all),
                    all == map.pairs(),
                    all.len() <= 0xffff_ffff,
                    out@ + enc_pairs(all.skip(i as int)) == head + enc_pairs(all),
                    forall|k: int|
                        0 <= k < i ==> text_fits((#[trigger] all[k]).0) && value_fits(all[k].1),
                decreases map.entries@.len() - i,
            {
                let e = &map.entries[i];
                proof {
                    assert(decreases_to!(*value => value->Object_0.entries@[i as int].1));
                    assert(all[i as int] == (e.0@, e.1@));
                    assert(all.skip(i as int).drop_first() =~= all.skip(i + 1));
                }
                let ghost before = out@;
                match write_text(out, e.0.as_str()) {
                    Ok(()) => {},
                    Err(e) => {
                        return Err(e);
                    },
                }
                match write_metadata_value(out, &e.1) {
                    Ok(()) => {},
                    Err(e) => {
                        return Err(e);
                    },
                }
                proof {
                    assert(before + (enc_text(all[i as int].0) + enc_value(all[i as int].1)
                        + enc_pairs(all.skip(i + 1))) =~= out@ + enc_pairs(all.skip(i + 1)));
                }
                i += 1;
            }
            proof {
                assert(out@ + enc_pairs(all.skip(i as int)) =~= out@);
                assert(out@ =~= start + enc_value(value@));
            }
            Ok(())
        },
    }
}

/// Appends metadata: a count and the entries.
pub fn write_metadata(out: &mut Vec<u8>, metadata: &Metadata) -> (r: Result<(), VectLiteError>)
    ensures
        pairs_fit(metadata.pairs()) ==> r is Ok && final(out)@ == old(out)@ + enc_metadata(
            metadata.pairs(),
        ),
        !pairs_fit(metadata.pairs()) ==> (r matches Err(e) && e@ == too_long()),
{
    let ghost start = out@;
    match write_len(out, metadata.len()) {
        Ok(()) => {},
        Err(e) => {
            return Err(e);
        },
    }
    let ghost all = metadata.pairs();
    let ghost head = out@;
    let mut i: usize = 0;
    proof {
        assert(all.skip(0) =~= all);
    }
    while i < metadata.len()
        invariant
            i <= all.len(),
            all == metadata.pairs(),
            all.len() <= 0xffff_ffff,
            out@ + enc_pairs(all.skip(i as int)) == head + enc_pairs(all),
            forall|k: int|
                0 <= k < i ==> text_fits((#[trigger] all[k]).0) && value_fits(all[k].1),
        decreases all.len() - i,
    {
        proof {
            assert(all.skip(i as int).drop_first() =~= all.skip(i + 1));
        }
        let ghost before = out@;
        match write_text(out, metadata.key_at(i).as_str()) {
            Ok(()) => {},
            Err(e) => {
                return Err(e);
            },
        }
        match write_metadata_value(out, metadata.value_at(i)) {
            Ok(()) => {},
            Err(e) => {
                return Err(e);
            },
        }
        proof {
            assert(before + (enc_text(all[i as int].0) + enc_value(all[i as int].1) + enc_pairs(
                all.skip(i + 1),
            )) =~= out@ + enc_pairs(all.skip(i + 1)));
        }
        i += 1;
    }
    proof {
        assert(out@ + enc_pairs(all.skip(i as int)) =~= out@);
        assert(out@ =~= start + enc_metadata(all));
    }
    Ok(())
}

/// Reads a value.
pub fn read_metadata_value(reader: &mut Reader) -> (r: Result<MetadataValue, VectLiteError>)
    requires
        old(reader).wf(),
    ensures
        final(reader).wf(),
        agrees(r, final(reader).rest(), parse_value(old(reader).rest())),
    decreases old(reader).rest().len(), 0int,
{
    let ghost b = reader.rest();
    let tag: u8 = match reader.u8() {
        Ok(t) => t,
        Err(e) => {
            return Err(e);
        },
    };
    match tag {
        TYPE_STRING => match reader.text() {
            Ok(s) => Ok(MetadataValue::String(s)),
            Err(e) => Err(e),
        },
        TYPE_INTEGER => match reader.u64() {
            Ok(n) => Ok(MetadataValue::Integer(of_twos_complement(n))),
            Err(e) => Err(e),
        },
        TYPE_FLOAT => match reader.u64() {
            Ok(n) => Ok(MetadataValue::Float(n)),
            Err(e) => Err(e),
        },
        TYPE_BOOLEAN => match reader.u8() {
            Ok(n) => Ok(MetadataValue::Boolean(n != 0)),
            Err(e) => Err(e),
        },
        TYPE_NULL => Ok(MetadataValue::Null),
        TYPE_LIST => {
            let n: u32 = match reader.u32() {
                Ok(n) => n,
                Err(e) => {
                    return Err(e);
                },
            };
            let ghost from = reader.rest();
            let mut items: Vec<MetadataValue> = Vec::new();
            let mut i: u32 = 0;
            proof {
                assert(items.deep_view() =~= Seq::<ValueModel>::empty());
            }
            while i < n
                invariant
                    reader.wf(),
                    i <= n,
                    from.len() < old(reader).rest().len(),
                    reader.rest().len() <= from.len(),
                    parse_values((n - i) as nat, items.deep_view(), reader.rest()) == parse_values(
                        n as nat,
                        Seq::empty(),
                        from,
                    ),
                    parse_value(old(reader).rest()) == (match parse_values(
                        n as nat,
                        Seq::empty(),
                        from,
                    ) {
                        Err(e) => Err(e),
                        Ok((items, end)) => Ok((ValueModel::List(items), end)),
                    }),
                decreases n - i,
            {
                let ghost at = reader.rest();
                let ghost before = items.deep_view();
                proof {
                    lemma_parse_value_consumes(at);
                }
                match read_metadata_value(reader) {
                    Ok(v) => {
                        items.push(v);
                        proof {
                            assert(items.deep_view() =~= before.push(v@));
                        }
                    },
                    Err(e) => {
                        return Err(e);
                    },
                }
                i += 1;
            }
            proof {
                lemma_list_view(items);
            }
            Ok(MetadataValue::List(items))
        },
        TYPE_MAP => {
            let n: u32 = match reader.u32() {
                Ok(n) => n,
                Err(e) => {
                    return Err(e);
                },
            };
            match read_pairs(reader, n) {
                Ok(map) => {
                    proof {
                        lemma_map_view(map);
                    }
                    Ok(MetadataValue::Object(map))
                },
                Err(e) => Err(e),
            }
        },
        _ => {
            let d = decimal_text(tag as u64);
            Err(VectLiteError::InvalidFormat(concat2("unknown metadata value tag ", d.as_str())))
        },
    }
}

/// Reads `n` entries.
fn read_pairs(reader: &mut Reader, n: u32) -> (r: Result<Metadata, VectLiteError>)
    requires
        old(reader).wf(),
    ensures
        final(reader).wf(),
        agrees(r, final(reader).rest(), parse_pairs(n as nat, Seq::empty(), old(reader).rest())),
    decreases old(reader).rest().len(), 1int,
{
    let ghost from = reader.rest();
    let mut map: Metadata = OrderedMap::new();
    let mut i: u32 = 0;
    while i < n
        invariant
            reader.wf(),
            i <= n,
            from == old(reader).rest(),
            reader.rest().len() <= from.len(),
            parse_pairs((n - i) as nat, map.pairs(), reader.rest()) == parse_pairs(
                n as nat,
                Seq::empty(),
                from,
            ),
        decreases n - i,
    {
        let ghost at = reader.rest();
        let key = match reader.text() {
            Ok(k) => k,
            Err(e) => {
                return Err(e);
            },
        };
        let ghost mid = reader.rest();
        proof {
            lemma_parse_value_consumes(mid);
        }
        let v = match read_metadata_value(reader) {
            Ok(v) => v,
            Err(e) => {
                return Err(e);
            },
        };
        map.insert(key, v);
        i += 1;
    }
    Ok(map)
}

/// Reads metadata.
pub fn read_metadata(reader: &mut Reader) -> (r: Result<Metadata, VectLiteError>)
    requires
        old(reader).wf(),
    ensures
        final(reader).wf(),
        agrees(r, final(reader).rest(), parse_metadata(old(reader).rest())),
{
    let n: u32 = match reader.u32() {
        Ok(n) => n,
        Err(e) => {
            return Err(e);
        },
    };
    read_pairs(reader, n)
}

} // verus!
