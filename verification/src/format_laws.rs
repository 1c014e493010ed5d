//! The bytes of files.
use vstd::prelude::*;
use crate::codec::{
    enc_text, le_bytes, lemma_parse_le_roundtrip, lemma_parse_text_roundtrip, lemma_pow256_values,
    parse_le, parse_text,
};
use crate::error::Failure;
use crate::manifest::{fnv, keys_bytes, signature};
use crate::metadata::ValueModel;
use crate::metric::{law_metric_tag_roundtrip, metric_tag, DistanceMetric};
use crate::ordered_map::insert_pair;
use crate::record::{KeyModel, RecordModel};
use crate::record_codec::{
    enc_multi, enc_named, enc_record, enc_record_head, enc_record_tail, enc_singles, enc_sparse,
    enc_vector, expiry_kept, law_multi_roundtrip, law_named_roundtrip, law_sparse_roundtrip,
    lemma_singles_roundtrip, parse_expiry, parse_multi, parse_named, parse_record, parse_record_head,
    parse_record_tail, parse_singles, parse_sparse, record_dimensioned, record_fits, record_ordered,
};
use crate::snapshot::{enc_records, enc_snapshot, parse_records, parse_snapshot, SnapshotModel};
use crate::sort::{insert_in_order, sorted};
use crate::value_codec::{enc_metadata, enc_value, law_metadata_roundtrip, parse_metadata};
use crate::wal::{enc_batch, enc_batch_body, enc_batches, enc_op, enc_wal, OpModel};
use vstd::utf8::encode_utf8;

verus! {

/// A number is kept in a fixed number of bytes, the least significant first.
pub proof fn law_number_bytes(v: nat, n: nat)
    ensures
        le_bytes(v, n).len() == n,
        n > 0 ==> le_bytes(v, n)[0] as nat == v % 256,
        n > 1 ==> le_bytes(v, n)[1] as nat == (v / 256) % 256,
        n > 2 ==> le_bytes(v, n)[2] as nat == (v / 65536) % 256,
        n > 3 ==> le_bytes(v, n)[3] as nat == (v / 16777216) % 256,
        n > 0 ==> le_bytes(v, n).skip(1) == le_bytes(v / 256, (n - 1) as nat),
    decreases n,
{
    reveal_with_fuel(le_bytes, 5);
    if n > 0 {
        law_number_bytes(v / 256, (n - 1) as nat);
        assert(le_bytes(v, n).skip(1) =~= le_bytes(v / 256, (n - 1) as nat));
        assert(v / 256 / 256 == v / 65536) by (nonlinear_arith);
        assert(v / 256 / 65536 == v / 16777216) by (nonlinear_arith);
        assert forall|i: int| 1 <= i < n implies #[trigger] le_bytes(v, n)[i] == le_bytes(
            v / 256,
            (n - 1) as nat,
        )[i - 1] by {}
    }
}

/// A text is kept as the number of its bytes in UTF-8, in four bytes, and those bytes.
pub proof fn law_text_bytes(s: Seq<char>)
    ensures
        enc_text(s).len() == 4 + encode_utf8(s).len(),
        enc_text(s).take(4) == le_bytes(encode_utf8(s).len(), 4),
        enc_text(s).skip(4) == encode_utf8(s),
{
    law_number_bytes(encode_utf8(s).len(), 4);
    assert(enc_text(s).take(4) =~= le_bytes(encode_utf8(s).len(), 4));
    assert(enc_text(s).skip(4) =~= encode_utf8(s));
}

/// A database file starts with the letters VDB1, the version seven in two bytes, the dimension in
/// four, one byte for the metric and the number of records in eight. Its records follow in order.
pub proof fn law_file_bytes(s: SnapshotModel, k: KeyModel, m: RecordModel)
    ensures
        ({
            let b = enc_snapshot(s);
            &&& b.len() >= 19
            &&& b[0] == 0x56 && b[1] == 0x44 && b[2] == 0x42 && b[3] == 0x31
            &&& b[4] == 7 && b[5] == 0
            &&& b.subrange(6, 10) == le_bytes(s.dimension, 4)
            &&& b[10] == match s.metric {
                DistanceMetric::Cosine => 0u8,
                DistanceMetric::Euclidean => 1u8,
                DistanceMetric::DotProduct => 2u8,
                DistanceMetric::Manhattan => 3u8,
            }
            &&& b.subrange(11, 19) == le_bytes(s.records.len(), 8)
            &&& s.records.len() == 0 ==> b.len() == 19
        }),
        enc_snapshot(SnapshotModel { records: s.records.push((k, m)), ..s }).skip(19)
            == enc_snapshot(s).skip(19) + enc_record(m),
{
    law_number_bytes(7, 2);
    law_number_bytes(s.dimension, 4);
    law_number_bytes(s.records.len(), 8);
    law_number_bytes(s.records.len() + 1, 8);
    let b = enc_snapshot(s);
    assert(b.subrange(6, 10) =~= le_bytes(s.dimension, 4));
    assert(b.subrange(11, 19) =~= le_bytes(s.records.len(), 8));
    let more = SnapshotModel { records: s.records.push((k, m)), ..s };
    assert(b.skip(19) =~= enc_records(s.records));
    assert(enc_snapshot(more).skip(19) =~= enc_records(more.records));
    lemma_records_push(s.records, k, m);
}

proof fn lemma_records_push(records: Seq<(KeyModel, RecordModel)>, k: KeyModel, m: RecordModel)
    ensures
        enc_records(records.push((k, m))) == enc_records(records) + enc_record(m),
    decreases records.len(),
{
    let all = records.push((k, m));
    if records.len() == 0 {
        assert(all.drop_first() =~= records);
        assert(enc_records(records) =~= Seq::<u8>::empty());
        assert(enc_record(m) + Seq::<u8>::empty() =~= Seq::<u8>::empty() + enc_record(m));
    } else {
        lemma_records_push(records.drop_first(), k, m);
        assert(all.drop_first() =~= records.drop_first().push((k, m)));
        assert(enc_records(all) =~= enc_records(records) + enc_record(m));
    }
}

/// A log starts with the letters VWL1. A batch is put behind those before it: the number of its
/// bytes and of its changes, four bytes each, and then the changes.
pub proof fn law_log_bytes(batches: Seq<Seq<OpModel>>, ops: Seq<OpModel>)
    ensures
        enc_wal(Seq::empty()) == seq![0x56u8, 0x57u8, 0x4cu8, 0x31u8],
        enc_wal(batches.push(ops)) == enc_wal(batches) + enc_batch(ops),
        enc_batch(ops).len() >= 8,
        enc_batch(ops).take(4) == le_bytes((enc_batch(ops).len() - 4) as nat, 4),
        enc_batch(ops).subrange(4, 8) == le_bytes(ops.len(), 4),
{
    assert(enc_wal(Seq::empty()) =~= seq![0x56u8, 0x57u8, 0x4cu8, 0x31u8]);
    lemma_batches_push(batches, ops);
    assert(enc_wal(batches.push(ops)) =~= enc_wal(batches) + enc_batch(ops));
    law_number_bytes(ops.len(), 4);
    law_number_bytes((enc_batch(ops).len() - 4) as nat, 4);
    law_number_bytes(enc_batch_body(ops).len(), 4);
    assert(enc_batch(ops).take(4) =~= le_bytes((enc_batch(ops).len() - 4) as nat, 4));
    assert(enc_batch(ops).subrange(4, 8) =~= le_bytes(ops.len(), 4));
}

proof fn lemma_batches_push(batches: Seq<Seq<OpModel>>, ops: Seq<OpModel>)
    ensures
        enc_batches(batches.push(ops)) == enc_batches(batches) + enc_batch(ops),
    decreases batches.len(),
{
    let all = batches.push(ops);
    if batches.len() == 0 {
        assert(all.drop_first() =~= batches);
        assert(enc_batches(all) =~= enc_batches(batches) + enc_batch(ops));
    } else {
        lemma_batches_push(batches.drop_first(), ops);
        assert(all.drop_first() =~= batches.drop_first().push(ops));
        assert(enc_batches(all) =~= enc_batches(batches) + enc_batch(ops));
    }
}

/// A change in the log: one byte says whether it is a record, a key to delete, a key with metadata
/// or a key with an expiry time, which is zero for none.
pub proof fn law_change_bytes(
    m: RecordModel,
    k: KeyModel,
    pairs: Seq<(Seq<char>, ValueModel)>,
    t: Option<u64>,
)
    ensures
        enc_op(OpModel::Upsert(m)) == seq![1u8] + enc_record(m),
        enc_op(OpModel::Delete(k)) == seq![2u8] + enc_text(k.0) + enc_text(k.1),
        enc_op(OpModel::UpdateMetadata(k, pairs)) == seq![3u8] + enc_text(k.0) + enc_text(k.1)
            + enc_metadata(pairs),
        enc_op(OpModel::SetTtl(k, t)) == seq![4u8] + enc_text(k.0) + enc_text(k.1) + le_bytes(
            match t {
                Some(x) => x as nat,
                None => 0,
            },
            8,
        ),
{
    reveal(enc_op);
    let key = enc_text(k.0) + enc_text(k.1);
    assert(seq![2u8] + key =~= seq![2u8] + enc_text(k.0) + enc_text(k.1));
    assert(seq![3u8] + key =~= seq![3u8] + enc_text(k.0) + enc_text(k.1));
    assert(seq![4u8] + key =~= seq![4u8] + enc_text(k.0) + enc_text(k.1));
}

/// A value of metadata: one byte says what it is, and what it holds follows: a text, eight bytes of a
/// number, one of a truth value, or a count in four bytes and the items.
pub proof fn law_value_bytes(v: ValueModel)
    ensures
        enc_value(v).len() > 0,
        enc_value(v)[0] == match v {
            ValueModel::Text(_) => 1u8,
            ValueModel::Integer(_) => 2u8,
            ValueModel::Float(_) => 3u8,
            ValueModel::Boolean(_) => 4u8,
            ValueModel::Null => 5u8,
            ValueModel::List(_) => 6u8,
            ValueModel::Object(_) => 7u8,
        },
        v matches ValueModel::Text(s) ==> enc_value(v).skip(1) == enc_text(s),
        v matches ValueModel::Integer(n) ==> enc_value(v).skip(1) == le_bytes(
            (n as int % 0x1_0000_0000_0000_0000) as nat,
            8,
        ),
        v matches ValueModel::Float(bits) ==> enc_value(v).skip(1) == le_bytes(bits as nat, 8),
        v matches ValueModel::Boolean(b) ==> enc_value(v).skip(1) == seq![if b { 1u8 } else { 0u8 }],
        v == ValueModel::Null ==> enc_value(v).len() == 1,
        v matches ValueModel::List(items) ==> enc_value(v).skip(1).take(4) == le_bytes(items.len(), 4),
        v matches ValueModel::Object(pairs) ==> enc_value(v).skip(1) == enc_metadata(pairs),
{
    match v {
        ValueModel::Text(s) => {
            assert(enc_value(v).skip(1) =~= enc_text(s));
        },
        ValueModel::Integer(n) => {
            assert(enc_value(v).skip(1) =~= le_bytes((n as int % 0x1_0000_0000_0000_0000) as nat, 8));
        },
        ValueModel::Float(bits) => {
            assert(enc_value(v).skip(1) =~= le_bytes(bits as nat, 8));
        },
        ValueModel::Boolean(b) => {
            assert(enc_value(v).skip(1) =~= seq![if b { 1u8 } else { 0u8 }]);
        },
        ValueModel::Null => {},
        ValueModel::List(items) => {
            law_number_bytes(items.len(), 4);
            assert(enc_value(v).skip(1).take(4) =~= le_bytes(items.len(), 4));
        },
        ValueModel::Object(pairs) => {
            assert(enc_value(v).skip(1) =~= enc_metadata(pairs));
        },
    }
}

/// The bytes of a record in the form of a version of the format: version two added namespaces,
/// three sparse vectors, four named vectors, five token vectors and seven expiry times.
pub open spec fn bytes_of_version(version: nat, m: RecordModel) -> Seq<u8> {
    let none = Seq::<u8>::empty();
    (if version >= 2 {
        enc_text(m.namespace)
    } else {
        none
    }) + enc_text(m.id) + enc_metadata(m.metadata) + enc_vector(m.vector) + (if version >= 4 {
        enc_named(m.vectors)
    } else {
        none
    }) + (if version >= 3 {
        enc_sparse(m.sparse)
    } else {
        none
    }) + (if version >= 5 {
        enc_multi(m.multi_vectors)
    } else {
        none
    }) + (if version >= 7 {
        le_bytes(
            match m.expires_at {
                Some(t) => t as nat,
                None => 0,
            },
            8,
        )
    } else {
        none
    })
}

/// A record as a version of the format can hold it.
pub open spec fn as_of_version(version: nat, m: RecordModel) -> RecordModel {
    RecordModel {
        namespace: if version >= 2 {
            m.namespace
        } else {
            Seq::empty()
        },
        sparse: if version >= 3 {
            m.sparse
        } else {
            Seq::empty()
        },
        vectors: if version >= 4 {
            m.vectors
        } else {
            Seq::empty()
        },
        multi_vectors: if version >= 5 {
            m.multi_vectors
        } else {
            Seq::empty()
        },
        expires_at: if version >= 7 {
            m.expires_at
        } else {
            None
        },
        ..m
    }
}

/// A record that was written in any version of the format is read, with what that version holds of
/// it and whatever follows; and records are written in the last version.
pub proof fn law_record_versions(
    version: nat,
    m: RecordModel,
    dimension: nat,
    label: Seq<char>,
    tail: Seq<u8>,
)
    requires
        record_fits(m),
        record_ordered(m),
        record_dimensioned(m, dimension),
        expiry_kept(m.expires_at),
    ensures
        parse_record(version, dimension, label, bytes_of_version(version, m) + tail) == Ok::<
            (RecordModel, Seq<u8>),
            Failure,
        >((as_of_version(version, m), tail)),
        enc_record(m) == bytes_of_version(7, m),
{
    lemma_pow256_values();
    reveal(enc_record_head);
    reveal(enc_record_tail);
    assert(enc_record(m) =~= bytes_of_version(7, m));
    lemma_old_tail(version, m, dimension, tail);
    assert(bytes_of_version(version, m) + tail =~= old_head(version, m) + (old_tail(version, m)
        + tail));
    lemma_old_head(version, m, dimension, label, old_tail(version, m) + tail);
}

spec fn old_head(version: nat, m: RecordModel) -> Seq<u8> {
    (if version >= 2 {
        enc_text(m.namespace)
    } else {
        Seq::empty()
    }) + enc_text(m.id) + enc_metadata(m.metadata) + enc_vector(m.vector)
}

spec fn old_tail(version: nat, m: RecordModel) -> Seq<u8> {
    (if version >= 4 {
        enc_named(m.vectors)
    } else {
        Seq::empty()
    }) + (if version >= 3 {
        enc_sparse(m.sparse)
    } else {
        Seq::empty()
    }) + (if version >= 5 {
        enc_multi(m.multi_vectors)
    } else {
        Seq::empty()
    }) + (if version >= 7 {
        le_bytes(
            match m.expires_at {
                Some(t) => t as nat,
                None => 0,
            },
            8,
        )
    } else {
        Seq::empty()
    })
}

proof fn lemma_joined(a: Seq<u8>, b: Seq<u8>, c: Seq<u8>, d: Seq<u8>, tail: Seq<u8>)
    ensures
        a + b + c + d + tail == a + (b + (c + (d + tail))),
        Seq::<u8>::empty() + tail == tail,
{
    assert(a + b + c + d + tail =~= a + (b + (c + (d + tail))));
    assert(Seq::<u8>::empty() + tail =~= tail);
}

#[verifier::spinoff_prover]
proof fn lemma_head_of_parts(
    version: nat,
    dimension: nat,
    label: Seq<char>,
    b: Seq<u8>,
    namespace: (Seq<char>, Seq<u8>),
    id: (Seq<char>, Seq<u8>),
    metadata: (Seq<(Seq<char>, ValueModel)>, Seq<u8>),
    components: Seq<u8>,
    vector: (Seq<u32>, Seq<u8>),
)
    requires
        version >= 2 ==> parse_text(b) == Ok::<(Seq<char>, Seq<u8>), Failure>(namespace),
        version < 2 ==> namespace == (Seq::<char>::empty(), b),
        parse_text(namespace.1) == Ok::<(Seq<char>, Seq<u8>), Failure>(id),
        parse_metadata(id.1) == Ok::<(Seq<(Seq<char>, ValueModel)>, Seq<u8>), Failure>(metadata),
        parse_le(metadata.1, 4) == Ok::<(nat, Seq<u8>), Failure>((dimension, components)),
        parse_singles(dimension, Seq::empty(), components) == Ok::<(Seq<u32>, Seq<u8>), Failure>(
            vector,
        ),
    ensures
        parse_record_head(version, dimension, label, b) == Ok::<
            ((Seq<char>, Seq<char>, Seq<(Seq<char>, ValueModel)>, Seq<u32>), Seq<u8>),
            Failure,
        >(((namespace.0, id.0, metadata.0, vector.0), vector.1)),
{
    reveal(parse_record_head);
}

proof fn lemma_old_head(
    version: nat,
    m: RecordModel,
    dimension: nat,
    label: Seq<char>,
    tail: Seq<u8>,
)
    requires
        record_fits(m),
        record_ordered(m),
        m.vector.len() == dimension,
    ensures
        parse_record_head(version, dimension, label, old_head(version, m) + tail) == Ok::<
            ((Seq<char>, Seq<char>, Seq<(Seq<char>, ValueModel)>, Seq<u32>), Seq<u8>),
            Failure,
        >(((as_of_version(version, m).namespace, m.id, m.metadata, m.vector), tail)),
{
    lemma_pow256_values();
    let start = if version >= 2 {
        enc_text(m.namespace)
    } else {
        Seq::empty()
    };
    let count = le_bytes(m.vector.len(), 4);
    let b4 = enc_singles(m.vector) + tail;
    let b3 = enc_vector(m.vector) + tail;
    let b2 = enc_metadata(m.metadata) + b3;
    let b1 = enc_text(m.id) + b2;
    lemma_joined(start, enc_text(m.id), enc_metadata(m.metadata), enc_vector(m.vector), tail);
    lemma_joined(start, start, start, start, b1);
    assert(count + enc_singles(m.vector) + tail =~= count + (enc_singles(m.vector) + tail));
    lemma_parse_text_roundtrip(m.namespace, b1);
    lemma_parse_text_roundtrip(m.id, b2);
    law_metadata_roundtrip(m.metadata, b3);
    lemma_parse_le_roundtrip(m.vector.len(), 4, b4);
    lemma_singles_roundtrip(m.vector, Seq::empty(), tail);
    assert(Seq::<u32>::empty() + m.vector =~= m.vector);
    lemma_head_of_parts(
        version,
        dimension,
        label,
        old_head(version, m) + tail,
        (as_of_version(version, m).namespace, b1),
        (m.id, b2),
        (m.metadata, b3),
        b4,
        (m.vector, tail),
    );
}

#[verifier::spinoff_prover]
proof fn lemma_tail_of_parts(
    version: nat,
    dimension: nat,
    b: Seq<u8>,
    named: (Seq<(Seq<char>, Seq<u32>)>, Seq<u8>),
    sparse: (Seq<(Seq<char>, u32)>, Seq<u8>),
    multi: (Seq<(Seq<char>, Seq<Seq<u32>>)>, Seq<u8>),
    expiry: (Option<u64>, Seq<u8>),
)
    requires
        version >= 4 ==> parse_named(dimension, b) == Ok::<
            (Seq<(Seq<char>, Seq<u32>)>, Seq<u8>),
            Failure,
        >(named),
        version < 4 ==> named == (Seq::<(Seq<char>, Seq<u32>)>::empty(), b),
        version >= 3 ==> parse_sparse(named.1) == Ok::<(Seq<(Seq<char>, u32)>, Seq<u8>), Failure>(
            sparse,
        ),
        version < 3 ==> sparse == (Seq::<(Seq<char>, u32)>::empty(), named.1),
        version >= 5 ==> parse_multi(sparse.1) == Ok::<
            (Seq<(Seq<char>, Seq<Seq<u32>>)>, Seq<u8>),
            Failure,
        >(multi),
        version < 5 ==> multi == (Seq::<(Seq<char>, Seq<Seq<u32>>)>::empty(), sparse.1),
        version >= 7 ==> parse_expiry(multi.1) == Ok::<(Option<u64>, Seq<u8>), Failure>(expiry),
        version < 7 ==> expiry == (None::<u64>, multi.1),
    ensures
        parse_record_tail(version, dimension, b) == Ok::<
            (
                (
                    Seq<(Seq<char>, Seq<u32>)>,
                    Seq<(Seq<char>, u32)>,
                    Seq<(Seq<char>, Seq<Seq<u32>>)>,
                    Option<u64>,
                ),
                Seq<u8>,
            ),
            Failure,
        >(((named.0, sparse.0, multi.0, expiry.0), expiry.1)),
{
    reveal(parse_record_tail);
}

proof fn lemma_old_tail(version: nat, m: RecordModel, dimension: nat, tail: Seq<u8>)
    requires
        record_fits(m),
        record_ordered(m),
        record_dimensioned(m, dimension),
        expiry_kept(m.expires_at),
    ensures
        ({
            let old = as_of_version(version, m);
            parse_record_tail(version, dimension, old_tail(version, m) + tail) == Ok::<
                (
                    (
                        Seq<(Seq<char>, Seq<u32>)>,
                        Seq<(Seq<char>, u32)>,
                        Seq<(Seq<char>, Seq<Seq<u32>>)>,
                        Option<u64>,
                    ),
                    Seq<u8>,
                ),
                Failure,
            >(((old.vectors, old.sparse, old.multi_vectors, old.expires_at), tail))
        }),
{
    lemma_pow256_values();
    let none = Seq::<u8>::empty();
    let bits: nat = match m.expires_at {
        Some(t) => t as nat,
        None => 0,
    };
    let named = if version >= 4 {
        enc_named(m.vectors)
    } else {
        none
    };
    let sparse = if version >= 3 {
        enc_sparse(m.sparse)
    } else {
        none
    };
    let multi = if version >= 5 {
        enc_multi(m.multi_vectors)
    } else {
        none
    };
    let expiry = if version >= 7 {
        le_bytes(bits, 8)
    } else {
        none
    };
    let b3 = expiry + tail;
    let b2 = multi + b3;
    let b1 = sparse + b2;
    lemma_joined(named, sparse, multi, expiry, tail);
    lemma_joined(none, none, none, none, b1);
    lemma_joined(none, none, none, none, b2);
    lemma_joined(none, none, none, none, b3);
    law_named_roundtrip(m.vectors, dimension, b1);
    law_sparse_roundtrip(m.sparse, b2);
    law_multi_roundtrip(m.multi_vectors, b3);
    lemma_parse_le_roundtrip(bits, 8, tail);
    let old = as_of_version(version, m);
    lemma_tail_of_parts(
        version,
        dimension,
        old_tail(version, m) + tail,
        (old.vectors, b1),
        (old.sparse, b2),
        (old.multi_vectors, b3),
        (old.expires_at, tail),
    );
}

/// The first bytes of a file of a version of the format. Files name their metric since version six.
pub open spec fn header_of_version(
    version: nat,
    dimension: nat,
    metric: DistanceMetric,
    count: nat,
) -> Seq<u8> {
    seq![0x56u8, 0x44u8, 0x42u8, 0x31u8] + le_bytes(version, 2) + le_bytes(dimension, 4) + (if version
        >= 6 {
        seq![
            match metric {
                DistanceMetric::Cosine => 0u8,
                DistanceMetric::Euclidean => 1u8,
                DistanceMetric::DotProduct => 2u8,
                DistanceMetric::Manhattan => 3u8,
            },
        ]
    } else {
        Seq::empty()
    }) + le_bytes(count, 8)
}

/// A file is read where its version is one of seven and its dimension is not zero: with as many
/// records as it names, and, where it names no metric, the cosine.
pub proof fn law_file_versions(
    version: nat,
    dimension: nat,
    metric: DistanceMetric,
    count: nat,
    b: Seq<u8>,
)
    requires
        version <= 0xffff,
        dimension <= 0xffff_ffff,
        count <= usize::MAX,
    ensures
        ({
            let file = header_of_version(version, dimension, metric, count) + b;
            let records = parse_records(count, version, dimension, Seq::empty(), b);
            if 1 <= version <= 7 && dimension > 0 {
                match records {
                    Ok(rows) => parse_snapshot(file) == Ok::<SnapshotModel, Failure>(
                        SnapshotModel {
                            dimension,
                            metric: if version >= 6 {
                                metric
                            } else {
                                DistanceMetric::Cosine
                            },
                            records: rows,
                        },
                    ),
                    Err(e) => parse_snapshot(file) == Err::<SnapshotModel, Failure>(e),
                }
            } else {
                parse_snapshot(file) is Err
            }
        }),
{
    lemma_pow256_values();
    let magic = seq![0x56u8, 0x44u8, 0x42u8, 0x31u8];
    let tag = if version >= 6 {
        seq![metric_tag(metric)]
    } else {
        Seq::empty()
    };
    let b4 = b;
    let b3 = le_bytes(count, 8) + b4;
    let b2 = tag + b3;
    let b1 = le_bytes(dimension, 4) + b2;
    let b0 = le_bytes(version, 2) + b1;
    let file = header_of_version(version, dimension, metric, count) + b;
    lemma_header(magic, le_bytes(version, 2), le_bytes(dimension, 4), tag, le_bytes(count, 8), b);
    assert(file == magic + b0);
    assert(file.take(4) =~= magic);
    assert(file.skip(4) =~= b0);
    lemma_parse_le_roundtrip(version, 2, b1);
    lemma_parse_le_roundtrip(dimension, 4, b2);
    lemma_parse_le_roundtrip(count, 8, b4);
    if version >= 6 {
        let t = metric_tag(metric);
        reveal_with_fuel(le_bytes, 2);
        assert(le_bytes(t as nat, 1) =~= tag);
        lemma_parse_le_roundtrip(t as nat, 1, b3);
        law_metric_tag_roundtrip(metric);
    } else {
        assert(b2 =~= b3);
    }
}

proof fn lemma_header(
    a: Seq<u8>,
    b: Seq<u8>,
    c: Seq<u8>,
    d: Seq<u8>,
    e: Seq<u8>,
    tail: Seq<u8>,
)
    ensures
        a + b + c + d + e + tail == a + (b + (c + (d + (e + tail)))),
{
    assert(a + b + c + d + e + tail =~= a + (b + (c + (d + (e + tail)))));
}

/// The records of a file of any version come one after the other, and a later record of a key
/// replaces an earlier one.
pub proof fn law_file_records(
    version: nat,
    m: RecordModel,
    dimension: nat,
    more: nat,
    rows: Seq<(KeyModel, RecordModel)>,
    b: Seq<u8>,
)
    requires
        record_fits(m),
        record_ordered(m),
        record_dimensioned(m, dimension),
        expiry_kept(m.expires_at),
    ensures
        ({
            let old = as_of_version(version, m);
            parse_records(more + 1, version, dimension, rows, bytes_of_version(version, m) + b)
                == parse_records(
                more,
                version,
                dimension,
                insert_pair::<(String, String), RecordModel>(rows, (old.namespace, old.id), old),
                b,
            )
        }),
        parse_records(0, version, dimension, rows, b) == Ok::<
            Seq<(KeyModel, RecordModel)>,
            Failure,
        >(rows),
{
    law_record_versions(version, m, dimension, "record "@, b);
}

/// The signature of a key is the 64-bit FNV-1a hash of the bytes of its namespace, a byte of all ones,
/// the bytes of its id and the byte before that one; no keys have the starting value of the hash.
pub proof fn law_signature(k: KeyModel, state: u64, bytes: Seq<u8>, byte: u8)
    ensures
        fnv(state, Seq::empty()) == state,
        fnv(state, bytes.push(byte)) == (fnv(state, bytes) ^ (byte as u64)).wrapping_mul(
            0x100_0000_01b3,
        ),
        signature(Seq::empty()) == 0xcbf2_9ce4_8422_2325u64,
        signature(seq![k]) == fnv(
            0xcbf2_9ce4_8422_2325,
            encode_utf8(k.0) + seq![0xffu8] + encode_utf8(k.1) + seq![0xfeu8],
        ),
{
    assert(bytes.push(byte).drop_last() =~= bytes);
    let one = seq![k];
    reveal_with_fuel(sorted, 2);
    reveal_with_fuel(insert_in_order, 2);
    reveal_with_fuel(keys_bytes, 2);
    assert(one.drop_last() =~= Seq::<KeyModel>::empty());
    assert(sorted::<(String, String)>(one) =~= one);
    assert(keys_bytes(one) =~= encode_utf8(k.0) + seq![0xffu8] + encode_utf8(k.1) + seq![0xfeu8]);
}

} // verus!
