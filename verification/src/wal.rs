//! The write-ahead log: its operations, their byte format and what a log holds.
use vstd::prelude::*;
use crate::codec::{
    enc_text, le_bytes, le_value, lemma_le_bytes_len, lemma_parse_le_roundtrip,
    lemma_parse_text_roundtrip, lemma_pow256_values, parse_le, parse_text, text_fits, too_long,
    write_bytes, write_le, write_len, write_text, Parsed, Reader,
};
use crate::error::{invalid, Failure, VectLiteError};
use crate::metadata::{Metadata, ValueModel};
use crate::record::{KeyModel, Record, RecordModel};
use crate::record_codec::{
    enc_record, expiry_bits, expiry_from_bits, expiry_kept, law_record_roundtrip, parse_expiry,
    parse_record, read_record, record_dimensioned, record_fits, record_ordered, write_record,
};
use crate::text::{concat2, decimal, decimal_text};
use crate::value_codec::{
    enc_metadata, law_metadata_roundtrip, pairs_fit, pairs_ordered, parse_metadata, read_metadata,
    write_metadata,
};

verus! {

/// The version of the record layout.
pub const VERSION: u16 = 7;

/// A logged change.
pub enum WalOp {
    Upsert(Record),
    Delete { namespace: String, id: String },
    UpdateMetadata { namespace: String, id: String, metadata: Metadata },
    SetTtl { namespace: String, id: String, expires_at: Option<u64> },
}

/// The mathematical value of a logged change.
pub enum OpModel {
    Upsert(RecordModel),
    Delete(KeyModel),
    UpdateMetadata(KeyModel, Seq<(Seq<char>, ValueModel)>),
    SetTtl(KeyModel, Option<u64>),
}

impl DeepView for WalOp {
    type V = OpModel;

    open spec fn deep_view(&self) -> OpModel {
        match *self {
            WalOp::Upsert(record) => OpModel::Upsert(record@),
            WalOp::Delete { namespace, id } => OpModel::Delete((namespace@, id@)),
            WalOp::UpdateMetadata { namespace, id, metadata } => OpModel::UpdateMetadata(
                (namespace@, id@),
                metadata.deep_view(),
            ),
            WalOp::SetTtl { namespace, id, expires_at } => OpModel::SetTtl(
                (namespace@, id@),
                expires_at,
            ),
        }
    }
}

/// The bytes of a key.
pub open spec fn enc_key(k: KeyModel) -> Seq<u8> {
    enc_text(k.0) + enc_text(k.1)
}

/// The bytes of a change: a tag and its parts.
#[verifier::opaque]
pub open spec fn enc_op(op: OpModel) -> Seq<u8> {
    match op {
        OpModel::Upsert(m) => seq![1u8] + enc_record(m),
        OpModel::Delete(k) => seq![2u8] + enc_key(k),
        OpModel::UpdateMetadata(k, pairs) => seq![3u8] + enc_key(k) + enc_metadata(pairs),
        OpModel::SetTtl(k, t) => seq![4u8] + enc_key(k) + le_bytes(expiry_bits(t) as nat, 8),
    }
}

/// Whether every length in a change fits its length field.
#[verifier::opaque]
pub open spec fn op_fits(op: OpModel) -> bool {
    match op {
        OpModel::Upsert(m) => record_fits(m),
        OpModel::Delete(k) => text_fits(k.0) && text_fits(k.1),
        OpModel::UpdateMetadata(k, pairs) => text_fits(k.0) && text_fits(k.1) && pairs_fit(pairs),
        OpModel::SetTtl(k, t) => text_fits(k.0) && text_fits(k.1),
    }
}

/// Whether a change can be read back: maps are ascending, vectors suit the dimension, and an
/// expiry time is not zero.
#[verifier::opaque]
pub open spec fn op_storable(op: OpModel, dimension: nat) -> bool {
    match op {
        OpModel::Upsert(m) => record_ordered(m) && record_dimensioned(m, dimension) && expiry_kept(
            m.expires_at,
        ),
        OpModel::Delete(k) => true,
        OpModel::UpdateMetadata(k, pairs) => pairs_ordered(pairs),
        OpModel::SetTtl(k, t) => expiry_kept(t),
    }
}

/// Reads a key.
pub open spec fn parse_key(b: Seq<u8>) -> Parsed<KeyModel> {
    match parse_text(b) {
        Err(e) => Err(e),
        Ok((namespace, b1)) => match parse_text(b1) {
            Err(e) => Err(e),
            Ok((id, rest)) => Ok(((namespace, id), rest)),
        },
    }
}

/// Reads a change.
#[verifier::opaque]
pub open spec fn parse_op(dimension: nat, b: Seq<u8>) -> Parsed<OpModel> {
    match parse_le(b, 1) {
        Err(e) => Err(e),
        Ok((tag, b1)) => if tag == 1 {
            match parse_record(7, dimension, "wal record "@, b1) {
                Err(e) => Err(e),
                Ok((m, rest)) => Ok((OpModel::Upsert(m), rest)),
            }
        } else if tag == 2 {
            match parse_key(b1) {
                Err(e) => Err(e),
                Ok((k, rest)) => Ok((OpModel::Delete(k), rest)),
            }
        } else if tag == 3 {
            match parse_key(b1) {
                Err(e) => Err(e),
                Ok((k, b2)) => match parse_metadata(b2) {
                    Err(e) => Err(e),
                    Ok((pairs, rest)) => Ok((OpModel::UpdateMetadata(k, pairs), rest)),
                },
            }
        } else if tag == 4 {
            match parse_key(b1) {
                Err(e) => Err(e),
                Ok((k, b2)) => match parse_expiry(b2) {
                    Err(e) => Err(e),
                    Ok((t, rest)) => Ok((OpModel::SetTtl(k, t), rest)),
                },
            }
        } else {
            Err(Failure::InvalidFormat("unknown WAL op tag "@ + decimal(tag)))
        },
    }
}

pub proof fn lemma_key_roundtrip(k: KeyModel, tail: Seq<u8>)
    requires
        text_fits(k.0),
        text_fits(k.1),
    ensures
        parse_key(enc_key(k) + tail) == Ok::<(KeyModel, Seq<u8>), Failure>((k, tail)),
{
    assert(enc_key(k) + tail =~= enc_text(k.0) + (enc_text(k.1) + tail));
    lemma_parse_text_roundtrip(k.0, enc_text(k.1) + tail);
    lemma_parse_text_roundtrip(k.1, tail);
}

pub proof fn lemma_tag(tag: u8, rest: Seq<u8>)
    ensures
        parse_le(seq![tag] + rest, 1) == Ok::<(nat, Seq<u8>), Failure>((tag as nat, rest)),
{
    let b = seq![tag] + rest;
    assert(b.take(1) =~= seq![tag]);
    assert(b.skip(1) =~= rest);
    assert(seq![tag].drop_first() =~= Seq::<u8>::empty());
    reveal_with_fuel(le_value, 2);
}

proof fn lemma_assoc(a: Seq<u8>, b: Seq<u8>, c: Seq<u8>)
    ensures
        a + b + c == a + (b + c),
{
    assert(a + b + c =~= a + (b + c));
}

proof fn lemma_upsert_roundtrip(m: RecordModel, dimension: nat, tail: Seq<u8>)
    requires
        op_fits(OpModel::Upsert(m)),
        op_storable(OpModel::Upsert(m), dimension),
    ensures
        parse_op(dimension, enc_op(OpModel::Upsert(m)) + tail) == Ok::<(OpModel, Seq<u8>), Failure>(
            (OpModel::Upsert(m), tail),
        ),
{
    reveal(op_fits);
    reveal(op_storable);
    law_record_roundtrip(m, 7, dimension, "wal record "@, tail);
    let body = enc_record(m);
    lemma_assoc(seq![1u8], body, tail);
    lemma_tag(1, body + tail);
    assert(enc_op(OpModel::Upsert(m)) == seq![1u8] + body) by {
        reveal(enc_op);
    }
    reveal(parse_op);
}

proof fn lemma_delete_roundtrip(k: KeyModel, dimension: nat, tail: Seq<u8>)
    requires
        op_fits(OpModel::Delete(k)),
    ensures
        parse_op(dimension, enc_op(OpModel::Delete(k)) + tail) == Ok::<(OpModel, Seq<u8>), Failure>(
            (OpModel::Delete(k), tail),
        ),
{
    reveal(op_fits);
    lemma_key_roundtrip(k, tail);
    let body = enc_key(k);
    lemma_assoc(seq![2u8], body, tail);
    lemma_tag(2, body + tail);
    assert(enc_op(OpModel::Delete(k)) == seq![2u8] + body) by {
        reveal(enc_op);
    }
    reveal(parse_op);
}

proof fn lemma_update_roundtrip(
    k: KeyModel,
    pairs: Seq<(Seq<char>, ValueModel)>,
    dimension: nat,
    tail: Seq<u8>,
)
    requires
        op_fits(OpModel::UpdateMetadata(k, pairs)),
        op_storable(OpModel::UpdateMetadata(k, pairs), dimension),
    ensures
        parse_op(dimension, enc_op(OpModel::UpdateMetadata(k, pairs)) + tail) == Ok::<
            (OpModel, Seq<u8>),
            Failure,
        >((OpModel::UpdateMetadata(k, pairs), tail)),
{
    reveal(op_fits);
    reveal(op_storable);
    let body = enc_metadata(pairs);
    let key = enc_key(k);
    law_metadata_roundtrip(pairs, tail);
    lemma_key_roundtrip(k, body + tail);
    lemma_assoc(seq![3u8] + key, body, tail);
    lemma_assoc(seq![3u8], key, body + tail);
    lemma_tag(3, key + (body + tail));
    assert(enc_op(OpModel::UpdateMetadata(k, pairs)) == seq![3u8] + key + body) by {
        reveal(enc_op);
    }
    reveal(parse_op);
}

proof fn lemma_ttl_roundtrip(k: KeyModel, t: Option<u64>, dimension: nat, tail: Seq<u8>)
    requires
        op_fits(OpModel::SetTtl(k, t)),
        op_storable(OpModel::SetTtl(k, t), dimension),
    ensures
        parse_op(dimension, enc_op(OpModel::SetTtl(k, t)) + tail) == Ok::<
            (OpModel, Seq<u8>),
            Failure,
        >((OpModel::SetTtl(k, t), tail)),
{
    reveal(op_fits);
    reveal(op_storable);
    lemma_pow256_values();
    let body = le_bytes(expiry_bits(t) as nat, 8);
    let key = enc_key(k);
    lemma_parse_le_roundtrip(expiry_bits(t) as nat, 8, tail);
    lemma_key_roundtrip(k, body + tail);
    lemma_assoc(seq![4u8] + key, body, tail);
    lemma_assoc(seq![4u8], key, body + tail);
    lemma_tag(4, key + (body + tail));
    assert(enc_op(OpModel::SetTtl(k, t)) == seq![4u8] + key + body) by {
        reveal(enc_op);
    }
    reveal(parse_op);
}

/// A written change is read back, whatever follows it.
pub proof fn law_op_roundtrip(op: OpModel, dimension: nat, tail: Seq<u8>)
    requires
        op_fits(op),
        op_storable(op, dimension),
    ensures
        parse_op(dimension, enc_op(op) + tail) == Ok::<(OpModel, Seq<u8>), Failure>((op, tail)),
{
    match op {
        OpModel::Upsert(m) => lemma_upsert_roundtrip(m, dimension, tail),
        OpModel::Delete(k) => lemma_delete_roundtrip(k, dimension, tail),
        OpModel::UpdateMetadata(k, pairs) => lemma_update_roundtrip(k, pairs, dimension, tail),
        OpModel::SetTtl(k, t) => lemma_ttl_roundtrip(k, t, dimension, tail),
    }
}

/// The bytes of changes, one after the other.
pub open spec fn enc_ops(ops: Seq<OpModel>) -> Seq<u8>
    decreases ops.len(),
{
    if ops.len() == 0 {
        Seq::empty()
    } else {
        enc_op(ops[0]) + enc_ops(ops.drop_first())
    }
}

/// The body of a batch: the number of changes and the changes.
pub open spec fn enc_batch_body(ops: Seq<OpModel>) -> Seq<u8> {
    le_bytes(ops.len(), 4) + enc_ops(ops)
}

/// A batch: the length of its body and the body.
pub open spec fn enc_batch(ops: Seq<OpModel>) -> Seq<u8> {
    le_bytes(enc_batch_body(ops).len(), 4) + enc_batch_body(ops)
}

/// Whether every length in a batch fits its length field.
pub open spec fn batch_fits(ops: Seq<OpModel>) -> bool {
    &&& ops.len() <= 0xffff_ffff
    &&& forall|i: int| 0 <= i < ops.len() ==> op_fits(#[trigger] ops[i])
    &&& enc_batch_body(ops).len() <= 0xffff_ffff
}

/// Whether the changes of a batch can be read back.
pub open spec fn batch_storable(ops: Seq<OpModel>, dimension: nat) -> bool {
    forall|i: int| 0 <= i < ops.len() ==> op_storable(#[trigger] ops[i], dimension)
}

/// Reads `n` more changes after those in `acc`.
pub open spec fn parse_ops(n: nat, dimension: nat, acc: Seq<OpModel>, b: Seq<u8>) -> Parsed<
    Seq<OpModel>,
>
    decreases n,
{
    if n == 0 {
        Ok((acc, b))
    } else {
        match parse_op(dimension, b) {
            Err(e) => Err(e),
            Ok((op, rest)) => parse_ops((n - 1) as nat, dimension, acc.push(op), rest),
        }
    }
}

/// The changes of a batch body.
pub open spec fn parse_batch_body(dimension: nat, b: Seq<u8>) -> Result<Seq<OpModel>, Failure> {
    match parse_le(b, 4) {
        Err(e) => Err(e),
        Ok((n, rest)) => match parse_ops(n, dimension, Seq::empty(), rest) {
            Err(e) => Err(e),
            Ok((ops, _)) => Ok(ops),
        },
    }
}

/// The batches of a log after its header. A batch that is cut off ends the log.
pub open spec fn parse_batches(dimension: nat, acc: Seq<Seq<OpModel>>, b: Seq<u8>) -> Result<
    Seq<Seq<OpModel>>,
    Failure,
>
    decreases b.len(),
{
    match parse_le(b, 4) {
        Err(_) => Ok(acc),
        Ok((len, rest)) => if rest.len() < len {
            Ok(acc)
        } else {
            match parse_batch_body(dimension, rest.take(len as int)) {
                Err(e) => Err(e),
                Ok(ops) => parse_batches(dimension, acc.push(ops), rest.skip(len as int)),
            }
        },
    }
}

/// The header of a log.
pub open spec fn wal_magic() -> Seq<u8> {
    seq![0x56u8, 0x57u8, 0x4cu8, 0x31u8]
}

/// The batches of a log. A log that ends inside its header is empty.
pub open spec fn parse_wal(dimension: nat, b: Seq<u8>) -> Result<Seq<Seq<OpModel>>, Failure> {
    if b.len() < 4 {
        Ok(Seq::empty())
    } else if b.take(4) != wal_magic() {
        Err(Failure::InvalidFormat("invalid WAL header"@))
    } else {
        parse_batches(dimension, Seq::empty(), b.skip(4))
    }
}

/// The bytes of batches, one after the other.
pub open spec fn enc_batches(batches: Seq<Seq<OpModel>>) -> Seq<u8>
    decreases batches.len(),
{
    if batches.len() == 0 {
        Seq::empty()
    } else {
        enc_batch(batches[0]) + enc_batches(batches.drop_first())
    }
}

/// The bytes of a log.
pub open spec fn enc_wal(batches: Seq<Seq<OpModel>>) -> Seq<u8> {
    wal_magic() + enc_batches(batches)
}

proof fn lemma_ops_roundtrip(
    ops: Seq<OpModel>,
    dimension: nat,
    acc: Seq<OpModel>,
    tail: Seq<u8>,
)
    requires
        forall|i: int| 0 <= i < ops.len() ==> op_fits(#[trigger] ops[i]),
        batch_storable(ops, dimension),
    ensures
        parse_ops(ops.len(), dimension, acc, enc_ops(ops) + tail) == Ok::<
            (Seq<OpModel>, Seq<u8>),
            Failure,
        >((acc + ops, tail)),
    decreases ops.len(),
{
    if ops.len() == 0 {
        assert(enc_ops(ops) + tail =~= tail);
        assert(acc + ops =~= acc);
    } else {
        let more = ops.drop_first();
        let end = enc_ops(more) + tail;
        assert(enc_ops(ops) + tail =~= enc_op(ops[0]) + end);
        law_op_roundtrip(ops[0], dimension, end);
        assert forall|i: int| 0 <= i < more.len() implies op_fits(#[trigger] more[i])
            && op_storable(more[i], dimension) by {
            assert(more[i] == ops[i + 1]);
        }
        assert forall|i: int| 0 <= i < more.len() implies op_storable(
            #[trigger] more[i],
            dimension,
        ) by {
            assert(more[i] == ops[i + 1]);
        }
        lemma_ops_roundtrip(more, dimension, acc.push(ops[0]), tail);
        assert(acc.push(ops[0]) + more =~= acc + ops);
    }
}

proof fn lemma_batch_body_roundtrip(ops: Seq<OpModel>, dimension: nat)
    requires
        batch_fits(ops),
        batch_storable(ops, dimension),
    ensures
        parse_batch_body(dimension, enc_batch_body(ops)) == Ok::<Seq<OpModel>, Failure>(ops),
{
    lemma_pow256_values();
    lemma_parse_le_roundtrip(ops.len(), 4, enc_ops(ops));
    lemma_ops_roundtrip(ops, dimension, Seq::empty(), Seq::empty());
    assert(enc_ops(ops) + Seq::<u8>::empty() =~= enc_ops(ops));
    assert(Seq::<OpModel>::empty() + ops =~= ops);
}

proof fn lemma_batches_roundtrip(
    batches: Seq<Seq<OpModel>>,
    dimension: nat,
    acc: Seq<Seq<OpModel>>,
    tail: Seq<u8>,
)
    requires
        forall|i: int|
            0 <= i < batches.len() ==> batch_fits(#[trigger] batches[i]) && batch_storable(
                batches[i],
                dimension,
            ),
    ensures
        parse_batches(dimension, acc, enc_batches(batches) + tail) == parse_batches(
            dimension,
            acc + batches,
            tail,
        ),
    decreases batches.len(),
{
    if batches.len() == 0 {
        assert(enc_batches(batches) + tail =~= tail);
        assert(acc + batches =~= acc);
    } else {
        lemma_pow256_values();
        let more = batches.drop_first();
        let ops = batches[0];
        let body = enc_batch_body(ops);
        let end = enc_batches(more) + tail;
        let b = enc_batches(batches) + tail;
        assert(b =~= le_bytes(body.len(), 4) + (body + end));
        lemma_parse_le_roundtrip(body.len(), 4, body + end);
        assert((body + end).take(body.len() as int) =~= body);
        assert((body + end).skip(body.len() as int) =~= end);
        lemma_batch_body_roundtrip(ops, dimension);
        assert forall|i: int| 0 <= i < more.len() implies batch_fits(#[trigger] more[i])
            && batch_storable(more[i], dimension) by {
            assert(more[i] == batches[i + 1]);
        }
        lemma_batches_roundtrip(more, dimension, acc.push(ops), tail);
        assert(acc.push(ops) + more =~= acc + batches);
    }
}

/// A log gives back the batches that were written to it, also where the last write was cut off at
/// any point: what is there of an incomplete batch is ignored.
pub proof fn law_wal_roundtrip(
    batches: Seq<Seq<OpModel>>,
    torn: Seq<OpModel>,
    kept: int,
    dimension: nat,
)
    requires
        forall|i: int|
            0 <= i < batches.len() ==> batch_fits(#[trigger] batches[i]) && batch_storable(
                batches[i],
                dimension,
            ),
        batch_fits(torn),
        0 <= kept < enc_batch(torn).len(),
    ensures
        parse_wal(dimension, enc_wal(batches) + enc_batch(torn).take(kept)) == Ok::<
            Seq<Seq<OpModel>>,
            Failure,
        >(batches),
{
    let tail = enc_batch(torn).take(kept);
    let b = enc_wal(batches) + tail;
    assert(b.take(4) =~= wal_magic());
    assert(b.skip(4) =~= enc_batches(batches) + tail);
    lemma_batches_roundtrip(batches, dimension, Seq::empty(), tail);
    assert(Seq::<Seq<OpModel>>::empty() + batches =~= batches);
    lemma_pow256_values();
    let body = enc_batch_body(torn);
    let len = le_bytes(body.len(), 4);
    lemma_le_bytes_len(body.len(), 4);
    if kept >= 4 {
        assert(tail =~= len + body.take(kept - 4));
        lemma_parse_le_roundtrip(body.len(), 4, body.take(kept - 4));
    }
}

pub(crate) fn write_key(out: &mut Vec<u8>, namespace: &str, id: &str) -> (r: Result<(), VectLiteError>)
    ensures
        ({
            let fits = text_fits(namespace@) && text_fits(id@);
            &&& fits ==> r is Ok && final(out)@ == old(out)@ + enc_key((namespace@, id@))
            &&& !fits ==> (r matches Err(e) && e@ == too_long())
        }),
{
    match write_text(out, namespace) {
        Ok(()) => {},
        Err(e) => {
            return Err(e);
        },
    }
    match write_text(out, id) {
        Ok(()) => {},
        Err(e) => {
            return Err(e);
        },
    }
    proof {
        assert(out@ =~= old(out)@ + enc_key((namespace@, id@)));
    }
    Ok(())
}

/// Appends a change.
pub fn write_wal_op(out: &mut Vec<u8>, op: &WalOp) -> (r: Result<(), VectLiteError>)
    ensures
        op_fits(op.deep_view()) ==> r is Ok && final(out)@ == old(out)@ + enc_op(op.deep_view()),
        !op_fits(op.deep_view()) ==> (r matches Err(e) && e@ == too_long()),
{
    let ghost start = out@;
    proof {
        reveal(enc_op);
        reveal(op_fits);
    }
    match op {
        WalOp::Upsert(record) => {
            out.push(1);
            let r = write_record(out, record);
            proof {
                if r is Ok {
                    assert(out@ =~= start + enc_op(op.deep_view()));
                }
            }
            r
        },
        WalOp::Delete { namespace, id } => {
            out.push(2);
            let r = write_key(out, namespace.as_str(), id.as_str());
            proof {
                if r is Ok {
                    assert(out@ =~= start + enc_op(op.deep_view()));
                }
            }
            r
        },
        WalOp::UpdateMetadata { namespace, id, metadata } => {
            out.push(3);
            match write_key(out, namespace.as_str(), id.as_str()) {
                Ok(()) => {},
                Err(e) => {
                    return Err(e);
                },
            }
            let r = write_metadata(out, metadata);
            proof {
                if r is Ok {
                    assert(out@ =~= start + enc_op(op.deep_view()));
                }
            }
            r
        },
        WalOp::SetTtl { namespace, id, expires_at } => {
            out.push(4);
            match write_key(out, namespace.as_str(), id.as_str()) {
                Ok(()) => {},
                Err(e) => {
                    return Err(e);
                },
            }
            let bits: u64 = match expires_at {
                Some(t) => *t,
                None => 0,
            };
            write_le(out, bits, 8);
            proof {
                assert(out@ =~= start + enc_op(op.deep_view()));
            }
            Ok(())
        },
    }
}

/// The bytes of a batch, as they are appended to the log.
pub fn encode_wal_batch(ops: &Vec<WalOp>) -> (r: Result<Vec<u8>, VectLiteError>)
    ensures
        batch_fits(ops.deep_view()) ==> (r matches Ok(b) && b@ == enc_batch(ops.deep_view())),
        !batch_fits(ops.deep_view()) ==> (r matches Err(e) && e@ == too_long()),
{
    let ghost all = ops.deep_view();
    let mut body: Vec<u8> = Vec::new();
    match write_len(&mut body, ops.len()) {
        Ok(()) => {},
        Err(e) => {
            return Err(e);
        },
    }
    let ghost head = body@;
    let mut i: usize = 0;
    proof {
        assert(all.skip(0) =~= all);
        assert(head =~= le_bytes(all.len(), 4));
    }
    while i < ops.len()
        invariant
            i <= ops@.len(),
            all == ops.deep_view(),
            body@ + enc_ops(all.skip(i as int)) == head + enc_ops(all),
            forall|k: int| 0 <= k < i ==> op_fits(#[trigger] all[k]),
        decreases ops@.len() - i,
    {
        let ghost before = body@;
        proof {
            assert(all[i as int] == ops@[i as int].deep_view());
            assert(all.skip(i as int).drop_first() =~= all.skip(i + 1));
        }
        match write_wal_op(&mut body, &ops[i]) {
            Ok(()) => {},
            Err(e) => {
                return Err(e);
            },
        }
        proof {
            assert(before + (enc_op(all[i as int]) + enc_ops(all.skip(i + 1))) =~= body@ + enc_ops(
                all.skip(i + 1),
            ));
        }
        i += 1;
    }
    proof {
        assert(body@ + enc_ops(all.skip(i as int)) =~= body@);
        assert(body@ == enc_batch_body(all));
    }
    let mut out: Vec<u8> = Vec::new();
    match write_len(&mut out, body.len()) {
        Ok(()) => {},
        Err(e) => {
            return Err(e);
        },
    }
    write_bytes(&mut out, body.as_slice());
    proof {
        assert(out@ =~= enc_batch(all));
    }
    Ok(out)
}

/// The header of a log file.
pub fn wal_header() -> (r: Vec<u8>)
    ensures
        r@ == wal_magic(),
{
    let mut out: Vec<u8> = Vec::new();
    out.push(0x56);
    out.push(0x57);
    out.push(0x4c);
    out.push(0x31);
    proof {
        assert(out@ =~= wal_magic());
    }
    out
}

pub(crate) fn read_key(reader: &mut Reader) -> (r: Result<(String, String), VectLiteError>)
    requires
        old(reader).wf(),
    ensures
        final(reader).wf(),
        crate::codec::agrees(r, final(reader).rest(), parse_key(old(reader).rest())),
{
    let namespace = match reader.text() {
        Ok(s) => s,
        Err(e) => {
            return Err(e);
        },
    };
    let id = match reader.text() {
        Ok(s) => s,
        Err(e) => {
            return Err(e);
        },
    };
    Ok((namespace, id))
}

/// Reads a change.
pub fn read_wal_op(reader: &mut Reader, dimension: usize) -> (r: Result<WalOp, VectLiteError>)
    requires
        old(reader).wf(),
    ensures
        final(reader).wf(),
        crate::codec::agrees(r, final(reader).rest(), parse_op(dimension as nat, old(reader).rest())),
{
    proof {
        reveal(parse_op);
    }
    let tag: u8 = match reader.u8() {
        Ok(t) => t,
        Err(e) => {
            return Err(e);
        },
    };
    match tag {
        1 => match read_record(reader, VERSION, dimension, "wal record ") {
            Ok(record) => Ok(WalOp::Upsert(record)),
            Err(e) => Err(e),
        },
        2 => match read_key(reader) {
            Ok((namespace, id)) => Ok(WalOp::Delete { namespace, id }),
            Err(e) => Err(e),
        },
        3 => match read_key(reader) {
            Ok((namespace, id)) => match read_metadata(reader) {
                Ok(metadata) => Ok(WalOp::UpdateMetadata { namespace, id, metadata }),
                Err(e) => Err(e),
            },
            Err(e) => Err(e),
        },
        4 => match read_key(reader) {
            Ok((namespace, id)) => match reader.u64() {
                Ok(bits) => Ok(WalOp::SetTtl { namespace, id, expires_at: expiry_from_bits(bits) }),
                Err(e) => Err(e),
            },
            Err(e) => Err(e),
        },
        _ => {
            let d = decimal_text(tag as u64);
            Err(VectLiteError::InvalidFormat(concat2("unknown WAL op tag ", d.as_str())))
        },
    }
}

fn read_batch_body(bytes: &[u8], dimension: usize) -> (r: Result<Vec<WalOp>, VectLiteError>)
    ensures
        match parse_batch_body(dimension as nat, bytes@) {
            Ok(ops) => r matches Ok(x) && x.deep_view() == ops,
            Err(e) => r matches Err(x) && x@ == e,
        },
{
    let mut reader = Reader::new(bytes);
    let n: u32 = match reader.u32() {
        Ok(n) => n,
        Err(e) => {
            return Err(e);
        },
    };
    let ghost from = reader.rest();
    let mut ops: Vec<WalOp> = Vec::new();
    let mut i: u32 = 0;
    proof {
        assert(ops.deep_view() =~= Seq::<OpModel>::empty());
    }
    while i < n
        invariant
            reader.wf(),
            i <= n,
            parse_ops((n - i) as nat, dimension as nat, ops.deep_view(), reader.rest())
                == parse_ops(n as nat, dimension as nat, Seq::empty(), from),
            parse_batch_body(dimension as nat, bytes@) == (match parse_ops(
                n as nat,
                dimension as nat,
                Seq::empty(),
                from,
            ) {
                Err(e) => Err(e),
                Ok((ops, _)) => Ok(ops),
            }),
        decreases n - i,
    {
        let ghost before = ops.deep_view();
        match read_wal_op(&mut reader, dimension) {
            Ok(op) => {
                ops.push(op);
                proof {
                    assert(ops.deep_view() =~= before.push(op.deep_view()));
                }
            },
            Err(e) => {
                return Err(e);
            },
        }
        i += 1;
    }
    Ok(ops)
}

/// The batches that a log holds.
pub fn read_wal(bytes: &[u8], dimension: usize) -> (r: Result<Vec<Vec<WalOp>>, VectLiteError>)
    ensures
        match parse_wal(dimension as nat, bytes@) {
            Ok(batches) => r matches Ok(x) && x.deep_view() == batches,
            Err(e) => r matches Err(x) && x@ == e,
        },
{
    let mut batches: Vec<Vec<WalOp>> = Vec::new();
    proof {
        assert(batches.deep_view() =~= Seq::<Seq<OpModel>>::empty());
    }
    if bytes.len() < 4 {
        return Ok(batches);
    }
    if bytes[0] != 0x56 || bytes[1] != 0x57 || bytes[2] != 0x4c || bytes[3] != 0x31 {
        proof {
            let head = bytes@.take(4);
            assert(head[0] == bytes@[0] && head[1] == bytes@[1] && head[2] == bytes@[2] && head[3]
                == bytes@[3]);
            assert(head != wal_magic());
        }
        return Err(invalid("invalid WAL header"));
    }
    proof {
        assert(bytes@.take(4) =~= wal_magic());
    }
    let mut reader = Reader { bytes, pos: 4 };
    loop
        invariant
            reader.wf(),
            parse_batches(dimension as nat, batches.deep_view(), reader.rest()) == parse_wal(
                dimension as nat,
                bytes@,
            ),
        decreases reader.rest().len(),
    {
        let ghost at = reader.rest();
        if reader.left() < 4 {
            return Ok(batches);
        }
        let len: u32 = match reader.u32() {
            Ok(n) => n,
            Err(e) => {
                return Err(e);
            },
        };
        if reader.left() < len as usize {
            return Ok(batches);
        }
        let body = match reader.take(len as usize) {
            Ok(b) => b,
            Err(e) => {
                return Err(e);
            },
        };
        let ghost before = batches.deep_view();
        match read_batch_body(body.as_slice(), dimension) {
            Ok(ops) => {
                batches.push(ops);
                proof {
                    assert(batches.deep_view() =~= before.push(ops.deep_view()));
                }
            },
            Err(e) => {
                return Err(e);
            },
        }
    }
}

} // verus!
