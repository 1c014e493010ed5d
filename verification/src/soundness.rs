//! What is read from bytes suits the dimension that it was read for.
use vstd::prelude::*;
use crate::codec::{parse_le, parse_text, Parsed};
use crate::order::Key;
use crate::ordered_map::{has_key, insert_pair, insertion_point, position_of};
use crate::quantizers::lemma_tokens_shape;
use crate::record::{KeyModel, RecordModel};
use crate::record_codec::{
    multi_uniform, named_valid, parse_multi, parse_multi_pairs, parse_named_pairs, parse_record,
    parse_record_head, parse_record_tail, parse_singles, parse_tokens, record_dimensioned, uniform,
};
use crate::snapshot::{parse_records, parse_snapshot};
use crate::table::{entry_valid, op_dimensioned, ops_dimensioned};
use crate::two_bit::lemma_singles_count;
use crate::wal::{parse_batch_body, parse_batches, parse_op, parse_ops, parse_wal, OpModel};

verus! {

proof fn lemma_point_bound<K: Key, B>(pairs: Seq<(K::V, B)>, key: K::V)
    ensures
        insertion_point::<K, B>(pairs, key) <= pairs.len(),
    decreases pairs.len(),
{
    if pairs.len() > 0 {
        lemma_point_bound::<K, B>(pairs.drop_first(), key);
    }
}

/// After setting a pair, every pair is that one or was there before.
proof fn lemma_insert_pair_at<K: Key, B>(
    pairs: Seq<(K::V, B)>,
    key: K::V,
    value: B,
    i: int,
)
    requires
        0 <= i < insert_pair::<K, B>(pairs, key, value).len(),
    ensures
        insert_pair::<K, B>(pairs, key, value)[i] == (key, value) || exists|j: int|
            0 <= j < pairs.len() && #[trigger] pairs[j] == insert_pair::<K, B>(
                pairs,
                key,
                value,
            )[i],
{
    let out = insert_pair::<K, B>(pairs, key, value);
    lemma_point_bound::<K, B>(pairs, key);
    if has_key(pairs, key) {
        let p = position_of(pairs, key);
        if i != p {
            assert(out[i] == pairs[i]);
        }
    } else {
        let p = insertion_point::<K, B>(pairs, key) as int;
        if i < p {
            assert(out[i] == pairs[i]);
        } else if i > p {
            assert(out[i] == pairs[i - 1]);
        }
    }
}

proof fn lemma_named_read(n: nat, dimension: nat, acc: Seq<(Seq<char>, Seq<u32>)>, b: Seq<u8>)
    requires
        named_valid(acc, dimension),
    ensures
        parse_named_pairs(n, dimension, acc, b) matches Ok(p) ==> named_valid(p.0, dimension),
    decreases n,
{
    if n > 0 {
        if let Ok((name, b1)) = parse_text(b) {
            if let Ok((len, b2)) = parse_le(b1, 4) {
                if name.len() > 0 && len == dimension {
                    lemma_singles_count(len, Seq::empty(), b2);
                    if let Ok((v, rest)) = parse_singles(len, Seq::empty(), b2) {
                        let more = insert_pair::<String, Seq<u32>>(acc, name, v);
                        assert forall|i: int| 0 <= i < more.len() implies (#[trigger] more[i]).0.len()
                            > 0 && more[i].1.len() == dimension by {
                            lemma_insert_pair_at::<String, Seq<u32>>(acc, name, v, i);
                        }
                        lemma_named_read((n - 1) as nat, dimension, more, rest);
                    }
                }
            }
        }
    }
}

proof fn lemma_spaces_read(n: nat, acc: Seq<(Seq<char>, Seq<Seq<u32>>)>, b: Seq<u8>)
    requires
        multi_uniform(acc),
    ensures
        parse_multi_pairs(n, acc, b) matches Ok(p) ==> multi_uniform(p.0),
    decreases n,
{
    if n > 0 {
        if let Ok((name, b1)) = parse_text(b) {
            if let Ok((dim, b2)) = parse_le(b1, 4) {
                if let Ok((count, b3)) = parse_le(b2, 4) {
                    lemma_tokens_shape(count, dim, Seq::empty(), b3);
                    if let Ok((tokens, rest)) = parse_tokens(count, dim, Seq::empty(), b3) {
                        let more = insert_pair::<String, Seq<Seq<u32>>>(acc, name, tokens);
                        assert(uniform(tokens));
                        assert forall|i: int| 0 <= i < more.len() implies uniform(
                            (#[trigger] more[i]).1,
                        ) by {
                            lemma_insert_pair_at::<String, Seq<Seq<u32>>>(acc, name, tokens, i);
                        }
                        lemma_spaces_read((n - 1) as nat, more, rest);
                    }
                }
            }
        }
    }
}

proof fn lemma_head_read(version: nat, dimension: nat, label: Seq<char>, b: Seq<u8>)
    ensures
        parse_record_head(version, dimension, label, b) matches Ok(p) ==> p.0.3.len() == dimension,
{
    reveal(parse_record_head);
    if let Ok(((namespace, id, metadata, vector), rest)) = parse_record_head(
        version,
        dimension,
        label,
        b,
    ) {
        let first: Parsed<Seq<char>> = if version >= 2 {
            parse_text(b)
        } else {
            Ok((Seq::empty(), b))
        };
        let b1 = first->Ok_0.1;
        let b2 = parse_text(b1)->Ok_0.1;
        let b3 = crate::value_codec::parse_metadata(b2)->Ok_0.1;
        let b4 = parse_le(b3, 4)->Ok_0.1;
        lemma_singles_count(dimension, Seq::empty(), b4);
    }
}

proof fn lemma_tail_read(version: nat, dimension: nat, b: Seq<u8>)
    ensures
        parse_record_tail(version, dimension, b) matches Ok(p) ==> named_valid(p.0.0, dimension)
            && multi_uniform(p.0.2),
{
    reveal(parse_record_tail);
    if let Ok((n, rest)) = parse_le(b, 4) {
        lemma_named_read(n, dimension, Seq::empty(), rest);
    }
    assert forall|c: Seq<u8>| (#[trigger] parse_multi(c)) is Ok implies multi_uniform(
        parse_multi(c)->Ok_0.0,
    ) by {
        if let Ok((n, rest)) = parse_le(c, 4) {
            lemma_spaces_read(n, Seq::empty(), rest);
        }
    }
}

/// A record that was read suits the dimension.
pub proof fn law_read_record_dimensioned(
    version: nat,
    dimension: nat,
    label: Seq<char>,
    b: Seq<u8>,
)
    ensures
        parse_record(version, dimension, label, b) matches Ok(p) ==> record_dimensioned(
            p.0,
            dimension,
        ),
{
    lemma_head_read(version, dimension, label, b);
    if let Ok((_, mid)) = parse_record_head(version, dimension, label, b) {
        lemma_tail_read(version, dimension, mid);
    }
}

/// A change that was read suits the dimension.
pub proof fn law_read_op_dimensioned(dimension: nat, b: Seq<u8>)
    ensures
        parse_op(dimension, b) matches Ok(p) ==> op_dimensioned(p.0, dimension),
{
    reveal(parse_op);
    if let Ok((tag, b1)) = parse_le(b, 1) {
        law_read_record_dimensioned(7, dimension, "wal record "@, b1);
    }
}

proof fn lemma_ops_read(n: nat, dimension: nat, acc: Seq<OpModel>, b: Seq<u8>)
    requires
        ops_dimensioned(acc, dimension),
    ensures
        parse_ops(n, dimension, acc, b) matches Ok(p) ==> ops_dimensioned(p.0, dimension),
    decreases n,
{
    if n > 0 {
        law_read_op_dimensioned(dimension, b);
        if let Ok((op, rest)) = parse_op(dimension, b) {
            lemma_ops_read((n - 1) as nat, dimension, acc.push(op), rest);
        }
    }
}

/// Whether all changes of all batches suit the dimension.
pub open spec fn batches_dimensioned(batches: Seq<Seq<OpModel>>, dimension: nat) -> bool {
    forall|i: int| 0 <= i < batches.len() ==> ops_dimensioned(#[trigger] batches[i], dimension)
}

proof fn lemma_batches_read(dimension: nat, acc: Seq<Seq<OpModel>>, b: Seq<u8>)
    requires
        batches_dimensioned(acc, dimension),
    ensures
        parse_batches(dimension, acc, b) matches Ok(p) ==> batches_dimensioned(p, dimension),
    decreases b.len(),
{
    if let Ok((len, rest)) = parse_le(b, 4) {
        if rest.len() >= len {
            let body = rest.take(len as int);
            if let Ok((n, r)) = parse_le(body, 4) {
                lemma_ops_read(n, dimension, Seq::empty(), r);
            }
            if let Ok(ops) = parse_batch_body(dimension, body) {
                lemma_batches_read(dimension, acc.push(ops), rest.skip(len as int));
            }
        }
    }
}

/// The batches of a log suit the dimension.
pub proof fn law_read_wal_dimensioned(dimension: nat, b: Seq<u8>)
    ensures
        parse_wal(dimension, b) matches Ok(p) ==> batches_dimensioned(p, dimension),
{
    if b.len() >= 4 {
        lemma_batches_read(dimension, Seq::empty(), b.skip(4));
    }
}

/// Whether every row is at its key and suits the dimension.
pub open spec fn rows_valid(rows: Seq<(KeyModel, RecordModel)>, dimension: nat) -> bool {
    forall|i: int| 0 <= i < rows.len() ==> entry_valid(#[trigger] rows[i], dimension)
}

proof fn lemma_records_read(
    n: nat,
    version: nat,
    dimension: nat,
    acc: Seq<(KeyModel, RecordModel)>,
    b: Seq<u8>,
)
    requires
        rows_valid(acc, dimension),
    ensures
        parse_records(n, version, dimension, acc, b) matches Ok(p) ==> rows_valid(p, dimension),
    decreases n,
{
    if n > 0 {
        law_read_record_dimensioned(version, dimension, "record "@, b);
        if let Ok((m, rest)) = parse_record(version, dimension, "record "@, b) {
            let more = insert_pair::<(String, String), RecordModel>(acc, m.key(), m);
            assert forall|i: int| 0 <= i < more.len() implies entry_valid(
                #[trigger] more[i],
                dimension,
            ) by {
                lemma_insert_pair_at::<(String, String), RecordModel>(acc, m.key(), m, i);
            }
            lemma_records_read((n - 1) as nat, version, dimension, more, rest);
        }
    }
}

/// The records of a database file are at their keys and suit the dimension of the file.
pub proof fn law_read_snapshot_valid(b: Seq<u8>)
    ensures
        parse_snapshot(b) matches Ok(s) ==> rows_valid(s.records, s.dimension) && s.dimension > 0,
{
    if let Ok(s) = parse_snapshot(b) {
        let b0 = b.skip(4);
        let (version, b1) = parse_le(b0, 2)->Ok_0;
        let (dimension, b2) = parse_le(b1, 4)->Ok_0;
        let (metric, b3) = crate::snapshot::parse_metric(version, b2)->Ok_0;
        let (count, b4) = parse_le(b3, 8)->Ok_0;
        lemma_records_read(count, version, dimension, Seq::empty(), b4);
    }
}

} // verus!
