//! The database file: a header and the records.
use vstd::prelude::*;
use crate::codec::{
    le_bytes, le_value, lemma_le_bytes_len, lemma_parse_le_roundtrip, lemma_pow256_values, parse_le,
    too_long, write_le, write_len, Parsed, Reader,
};
use crate::error::{invalid, Failure, VectLiteError};
use crate::metric::{law_metric_tag_roundtrip, metric_of_tag, metric_tag, DistanceMetric};
use crate::order::Key;
use crate::ordered_map::{ascending, insert_pair, lemma_insert_last, OrderedMap};
use crate::record::{KeyModel, Record, RecordModel};
use crate::record_codec::{
    enc_record, expiry_kept, law_record_roundtrip, parse_record, read_record, record_dimensioned,
    record_fits, record_ordered, write_record,
};
use crate::text::{concat2, decimal, decimal_text};
use crate::wal::VERSION;

verus! {

/// The records of a database in key order.
pub type Records = OrderedMap<(String, String), Record>;

/// What a database file holds.
#[verifier::ext_equal]
pub struct SnapshotModel {
    pub dimension: nat,
    pub metric: DistanceMetric,
    pub records: Seq<(KeyModel, RecordModel)>,
}

/// The contents of a database file.
pub struct Snapshot {
    pub dimension: usize,
    pub metric: DistanceMetric,
    pub records: Records,
}

impl Snapshot {
    pub open spec fn view(&self) -> SnapshotModel {
        SnapshotModel {
            dimension: self.dimension as nat,
            metric: self.metric,
            records: self.records.deep_view(),
        }
    }
}

/// The magic bytes of a database file.
pub open spec fn file_magic() -> Seq<u8> {
    seq![0x56u8, 0x44u8, 0x42u8, 0x31u8]
}

/// The records, one after the other.
pub open spec fn enc_records(records: Seq<(KeyModel, RecordModel)>) -> Seq<u8>
    decreases records.len(),
{
    if records.len() == 0 {
        Seq::empty()
    } else {
        enc_record(records[0].1) + enc_records(records.drop_first())
    }
}

/// The header of a database file.
pub open spec fn enc_header(dimension: nat, metric: DistanceMetric, count: nat) -> Seq<u8> {
    file_magic() + le_bytes(7, 2) + le_bytes(dimension, 4) + seq![metric_tag(metric)] + le_bytes(
        count,
        8,
    )
}

/// The bytes of a database file.
pub open spec fn enc_snapshot(s: SnapshotModel) -> Seq<u8> {
    enc_header(s.dimension, s.metric, s.records.len()) + enc_records(s.records)
}

/// Whether every length in a database file fits its length field.
pub open spec fn snapshot_fits(s: SnapshotModel) -> bool {
    &&& s.dimension <= 0xffff_ffff
    &&& forall|i: int| 0 <= i < s.records.len() ==> record_fits((#[trigger] s.records[i]).1)
}

/// Whether a record in its place can be read back.
pub open spec fn entry_storable(entry: (KeyModel, RecordModel), dimension: nat) -> bool {
    &&& entry.0 == entry.1.key()
    &&& record_ordered(entry.1)
    &&& record_dimensioned(entry.1, dimension)
    &&& expiry_kept(entry.1.expires_at)
}

/// Whether the contents of a database can be read back.
pub open spec fn snapshot_storable(s: SnapshotModel) -> bool {
    &&& 0 < s.dimension
    &&& s.records.len() <= usize::MAX
    &&& ascending::<(String, String), RecordModel>(s.records)
    &&& forall|i: int|
        0 <= i < s.records.len() ==> entry_storable(#[trigger] s.records[i], s.dimension)
}

/// Reads `n` more records into `acc`; a later record of a key replaces an earlier one.
pub open spec fn parse_records(
    n: nat,
    version: nat,
    dimension: nat,
    acc: Seq<(KeyModel, RecordModel)>,
    b: Seq<u8>,
) -> Result<Seq<(KeyModel, RecordModel)>, Failure>
    decreases n,
{
    if n == 0 {
        Ok(acc)
    } else {
        match parse_record(version, dimension, "record "@, b) {
            Err(e) => Err(e),
            Ok((m, rest)) => parse_records(
                (n - 1) as nat,
                version,
                dimension,
                insert_pair::<(String, String), RecordModel>(acc, m.key(), m),
                rest,
            ),
        }
    }
}

/// Reads a metric tag, which files have since version 6.
pub open spec fn parse_metric(version: nat, b: Seq<u8>) -> Parsed<DistanceMetric> {
    if version >= 6 {
        match parse_le(b, 1) {
            Err(e) => Err(e),
            Ok((tag, rest)) => match metric_of_tag(tag) {
                Err(e) => Err(e),
                Ok(m) => Ok((m, rest)),
            },
        }
    } else {
        Ok((DistanceMetric::Cosine, b))
    }
}

/// Reads a file after its magic bytes.
pub open spec fn parse_versioned(b: Seq<u8>) -> Result<SnapshotModel, Failure> {
    match parse_le(b, 2) {
        Err(e) => Err(e),
        Ok((version, b1)) => if version < 1 || version > 7 {
            Err(Failure::InvalidFormat("unsupported version "@ + decimal(version)))
        } else {
            match parse_le(b1, 4) {
                Err(e) => Err(e),
                Ok((dimension, b2)) => if dimension == 0 {
                    Err(Failure::InvalidFormat("dimension must be greater than zero"@))
                } else {
                    match parse_metric(version, b2) {
                        Err(e) => Err(e),
                        Ok((metric, b3)) => match parse_le(b3, 8) {
                            Err(e) => Err(e),
                            Ok((count, b4)) => if count > usize::MAX {
                                Err(
                                    Failure::InvalidFormat(
                                        "u64 value cannot fit into usize on this platform"@,
                                    ),
                                )
                            } else {
                                match parse_records(count, version, dimension, Seq::empty(), b4) {
                                    Err(e) => Err(e),
                                    Ok(records) => Ok(
                                        SnapshotModel { dimension, metric, records },
                                    ),
                                }
                            },
                        },
                    }
                },
            }
        },
    }
}

/// Reads a database file.
pub open spec fn parse_snapshot(b: Seq<u8>) -> Result<SnapshotModel, Failure> {
    if b.len() < 4 {
        Err(crate::codec::end_of_input())
    } else if b.take(4) != file_magic() {
        Err(Failure::InvalidFormat("missing VDB1 magic header"@))
    } else {
        parse_versioned(b.skip(4))
    }
}

proof fn lemma_records_roundtrip(
    records: Seq<(KeyModel, RecordModel)>,
    dimension: nat,
    acc: Seq<(KeyModel, RecordModel)>,
)
    requires
        ascending::<(String, String), RecordModel>(acc + records),
        forall|i: int| 0 <= i < records.len() ==> record_fits((#[trigger] records[i]).1),
        forall|i: int| 0 <= i < records.len() ==> entry_storable(#[trigger] records[i], dimension),
    ensures
        parse_records(records.len(), 7, dimension, acc, enc_records(records)) == Ok::<
            Seq<(KeyModel, RecordModel)>,
            Failure,
        >(acc + records),
    decreases records.len(),
{
    if records.len() == 0 {
        assert(acc + records =~= acc);
    } else {
        let more = records.drop_first();
        let (k, m) = records[0];
        assert(entry_storable(records[0], dimension));
        law_record_roundtrip(m, 7, dimension, "record "@, enc_records(more));
        let all = acc + records;
        assert forall|i: int| 0 <= i < acc.len() implies <(String, String) as Key>::before(
            (#[trigger] acc[i]).0,
            k,
        ) by {
            assert(all[i] == acc[i]);
            assert(all[acc.len() as int] == records[0]);
        }
        lemma_insert_last::<(String, String), RecordModel>(acc, k, m);
        assert forall|i: int| 0 <= i < more.len() implies record_fits((#[trigger] more[i]).1) by {
            assert(more[i] == records[i + 1]);
        }
        assert forall|i: int| 0 <= i < more.len() implies entry_storable(
            #[trigger] more[i],
            dimension,
        ) by {
            assert(more[i] == records[i + 1]);
        }
        assert(acc.push(records[0]) + more =~= all);
        lemma_records_roundtrip(more, dimension, acc.push(records[0]));
    }
}

/// A written database file gives back its contents.
pub proof fn law_snapshot_roundtrip(s: SnapshotModel)
    requires
        snapshot_fits(s),
        snapshot_storable(s),
    ensures
        parse_snapshot(enc_snapshot(s)) == Ok::<SnapshotModel, Failure>(s),
{
    lemma_pow256_values();
    let b = enc_snapshot(s);
    let b4 = enc_records(s.records);
    let b3 = le_bytes(s.records.len(), 8) + b4;
    let b2 = seq![metric_tag(s.metric)] + b3;
    let b1 = le_bytes(s.dimension, 4) + b2;
    let b0 = le_bytes(7, 2) + b1;
    lemma_le_bytes_len(7, 2);
    lemma_le_bytes_len(s.dimension, 4);
    lemma_le_bytes_len(s.records.len(), 8);
    assert(b =~= file_magic() + b0);
    assert(b.take(4) =~= file_magic());
    assert(b.skip(4) =~= b0);
    lemma_parse_le_roundtrip(7, 2, b1);
    lemma_parse_le_roundtrip(s.dimension, 4, b2);
    law_metric_tag_roundtrip(s.metric);
    assert(parse_le(b2, 1) == Ok::<(nat, Seq<u8>), Failure>((metric_tag(s.metric) as nat, b3))) by {
        let tag = metric_tag(s.metric);
        assert(b2.take(1) =~= seq![tag]);
        assert(b2.skip(1) =~= b3);
        assert(seq![tag].drop_first() =~= Seq::<u8>::empty());
        reveal_with_fuel(le_value, 2);
    }
    lemma_parse_le_roundtrip(s.records.len(), 8, b4);
    assert(Seq::<(KeyModel, RecordModel)>::empty() + s.records =~= s.records);
    lemma_records_roundtrip(s.records, s.dimension, Seq::empty());
}

/// The bytes of a database file.
pub fn write_snapshot(dimension: usize, metric: DistanceMetric, records: &Records) -> (r: Result<
    Vec<u8>,
    VectLiteError,
>)
    ensures
        ({
            let s = SnapshotModel {
                dimension: dimension as nat,
                metric,
                records: records.deep_view(),
            };
            &&& snapshot_fits(s) ==> (r matches Ok(b) && b@ == enc_snapshot(s))
            &&& !snapshot_fits(s) ==> (r matches Err(e) && e@ == too_long())
        }),
{
    let ghost all = records.pairs();
    let mut out: Vec<u8> = Vec::new();
    out.push(0x56);
    out.push(0x44);
    out.push(0x42);
    out.push(0x31);
    proof {
        assert(out@ =~= file_magic());
    }
    write_le(&mut out, 7, 2);
    match write_len(&mut out, dimension) {
        Ok(()) => {},
        Err(e) => {
            return Err(e);
        },
    }
    let ghost before = out@;
    out.push(metric.to_tag());
    proof {
        assert(out@ =~= before + seq![metric_tag(metric)]);
    }
    write_le(&mut out, records.len() as u64, 8);
    let ghost head = out@;
    proof {
        assert(head == enc_header(dimension as nat, metric, all.len()));
        assert(all.skip(0) =~= all);
    }
    let mut i: usize = 0;
    while i < records.len()
        invariant
            i <= all.len(),
            all == records.pairs(),
            out@ + enc_records(all.skip(i as int)) == head + enc_records(all),
            forall|k: int| 0 <= k < i ==> record_fits((#[trigger] all[k]).1),
        decreases all.len() - i,
    {
        let ghost before = out@;
        match write_record(&mut out, records.value_at(i)) {
            Ok(()) => {},
            Err(e) => {
                proof {
                    let s = SnapshotModel {
                        dimension: dimension as nat,
                        metric,
                        records: records.deep_view(),
                    };
                    assert(s.records[i as int] == all[i as int]);
                    assert(!snapshot_fits(s));
                }
                return Err(e);
            },
        }
        proof {
            assert(all.skip(i as int).drop_first() =~= all.skip(i + 1));
            assert(before + (enc_record(all[i as int].1) + enc_records(all.skip(i + 1))) =~= out@
                + enc_records(all.skip(i + 1)));
        }
        i += 1;
    }
    proof {
        assert(out@ + enc_records(all.skip(i as int)) =~= out@);
    }
    Ok(out)
}

/// Reads a database file.
pub fn read_snapshot(bytes: &[u8]) -> (r: Result<Snapshot, VectLiteError>)
    ensures
        match parse_snapshot(bytes@) {
            Ok(s) => r matches Ok(x) && x@ == s,
            Err(e) => r matches Err(x) && x@ == e,
        },
{
    if bytes.len() < 4 {
        return Err(VectLiteError::Io("failed to fill whole buffer".to_owned()));
    }
    if bytes[0] != 0x56 || bytes[1] != 0x44 || bytes[2] != 0x42 || bytes[3] != 0x31 {
        proof {
            let head = bytes@.take(4);
            assert(head[0] == bytes@[0] && head[1] == bytes@[1] && head[2] == bytes@[2] && head[3]
                == bytes@[3]);
            assert(head != file_magic());
        }
        return Err(invalid("missing VDB1 magic header"));
    }
    proof {
        assert(bytes@.take(4) =~= file_magic());
    }
    let mut reader = Reader { bytes, pos: 4 };
    let version: u16 = match reader.u16() {
        Ok(v) => v,
        Err(e) => {
            return Err(e);
        },
    };
    if version < 1 || version > VERSION {
        let d = decimal_text(version as u64);
        return Err(VectLiteError::InvalidFormat(concat2("unsupported version ", d.as_str())));
    }
    let dimension: u32 = match reader.u32() {
        Ok(v) => v,
        Err(e) => {
            return Err(e);
        },
    };
    if dimension == 0 {
        return Err(invalid("dimension must be greater than zero"));
    }
    let metric = if version >= 6 {
        let tag: u8 = match reader.u8() {
            Ok(t) => t,
            Err(e) => {
                return Err(e);
            },
        };
        match DistanceMetric::from_tag(tag) {
            Ok(m) => m,
            Err(e) => {
                return Err(e);
            },
        }
    } else {
        DistanceMetric::Cosine
    };
    let count: u64 = match reader.u64() {
        Ok(v) => v,
        Err(e) => {
            return Err(e);
        },
    };
    if count > usize::MAX as u64 {
        return Err(invalid("u64 value cannot fit into usize on this platform"));
    }
    let ghost from = reader.rest();
    let mut records: Records = OrderedMap::new();
    let mut i: u64 = 0;
    while i < count
        invariant
            reader.wf(),
            i <= count,
            parse_records(
                (count - i) as nat,
                version as nat,
                dimension as nat,
                records.pairs(),
                reader.rest(),
            ) == parse_records(
                count as nat,
                version as nat,
                dimension as nat,
                Seq::empty(),
                from,
            ),
            parse_snapshot(bytes@) == (match parse_records(
                count as nat,
                version as nat,
                dimension as nat,
                Seq::empty(),
                from,
            ) {
                Err(e) => Err(e),
                Ok(records) => Ok(
                    SnapshotModel { dimension: dimension as nat, metric, records },
                ),
            }),
        decreases count - i,
    {
        match read_record(&mut reader, version, dimension as usize, "record ") {
            Ok(record) => {
                let key = record.key();
                records.put(key, record);
            },
            Err(e) => {
                return Err(e);
            },
        }
        i += 1;
    }
    Ok(Snapshot { dimension: dimension as usize, metric, records })
}

} // verus!
