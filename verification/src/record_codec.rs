//! The byte format of records.
use vstd::prelude::*;
use crate::codec::{
    agrees, enc_text, le_bytes, lemma_parse_le_roundtrip, lemma_parse_text_roundtrip,
    lemma_pow256_values, parse_le, parse_text, text_fits, too_long, write_le, write_len, write_text,
    Parsed, Reader,
};
use crate::error::{invalid, Failure, VectLiteError};
use crate::float_bits::{double_eq, equal};
use crate::metadata::ValueModel;
use crate::order::Key;
use crate::ordered_map::{ascending, insert_pair, lemma_insert_last, OrderedMap};
use crate::record::{MultiVectors, NamedVectors, Record, RecordModel, SparseVector};
use crate::text::{concat2, concat5, decimal, decimal_text};
use crate::value_codec::{
    enc_metadata, law_metadata_roundtrip, pairs_fit, pairs_ordered, parse_metadata, read_metadata,
    write_metadata,
};

verus! {

/// The bytes of single-precision patterns.
pub open spec fn enc_singles(v: Seq<u32>) -> Seq<u8>
    decreases v.len(),
{
    if v.len() == 0 {
        Seq::empty()
    } else {
        le_bytes(v[0] as nat, 4) + enc_singles(v.drop_first())
    }
}

/// Reads `n` more single-precision patterns after those in `acc`.
pub open spec fn parse_singles(n: nat, acc: Seq<u32>, b: Seq<u8>) -> Parsed<Seq<u32>>
    decreases n,
{
    if n == 0 {
        Ok((acc, b))
    } else {
        match parse_le(b, 4) {
            Err(e) => Err(e),
            Ok((v, rest)) => parse_singles((n - 1) as nat, acc.push(v as u32), rest),
        }
    }
}

#[verifier::spinoff_prover]
pub proof fn lemma_singles_roundtrip(v: Seq<u32>, acc: Seq<u32>, tail: Seq<u8>)
    ensures
        parse_singles(v.len(), acc, enc_singles(v) + tail) == Ok::<(Seq<u32>, Seq<u8>), Failure>(
            (acc + v, tail),
        ),
    decreases v.len(),
{
    if v.len() == 0 {
        assert(enc_singles(v) + tail =~= tail);
        assert(acc + v =~= acc);
    } else {
        lemma_pow256_values();
        let more = v.drop_first();
        let b = enc_singles(v) + tail;
        assert(b =~= le_bytes(v[0] as nat, 4) + (enc_singles(more) + tail));
        lemma_parse_le_roundtrip(v[0] as nat, 4, enc_singles(more) + tail);
        lemma_singles_roundtrip(more, acc.push(v[0]), tail);
        assert(acc.push(v[0]) + more =~= acc + v);
    }
}

/// Appends single-precision patterns.
pub fn write_singles(out: &mut Vec<u8>, v: &Vec<u32>)
    ensures
        final(out)@ == old(out)@ + enc_singles(v.deep_view()),
{
    let ghost all = v.deep_view();
    let mut i: usize = 0;
    proof {
        assert(all.skip(0) =~= all);
    }
    while i < v.len()
        invariant
            i <= v@.len(),
            all == v.deep_view(),
            out@ + enc_singles(all.skip(i as int)) == old(out)@ + enc_singles(all),
        decreases v@.len() - i,
    {
        let ghost before = out@;
        write_le(out, v[i] as u64, 4);
        proof {
            assert(all[i as int] == v@[i as int]);
            assert(all.skip(i as int).drop_first() =~= all.skip(i + 1));
            assert(before + (le_bytes(all[i as int] as nat, 4) + enc_singles(all.skip(i + 1)))
                =~= out@ + enc_singles(all.skip(i + 1)));
        }
        i += 1;
    }
    proof {
        assert(out@ + enc_singles(all.skip(i as int)) =~= out@);
    }
}

/// Reads `n` single-precision patterns.
pub fn read_singles(reader: &mut Reader, n: usize) -> (r: Result<Vec<u32>, VectLiteError>)
    requires
        old(reader).wf(),
    ensures
        final(reader).wf(),
        agrees(r, final(reader).rest(), parse_singles(n as nat, Seq::empty(), old(reader).rest())),
{
    let mut out: Vec<u32> = Vec::new();
    let mut i: usize = 0;
    proof {
        assert(out.deep_view() =~= Seq::<u32>::empty());
    }
    while i < n
        invariant
            reader.wf(),
            i <= n,
            parse_singles((n - i) as nat, out.deep_view(), reader.rest()) == parse_singles(
                n as nat,
                Seq::empty(),
                old(reader).rest(),
            ),
        decreases n - i,
    {
        let ghost before = out.deep_view();
        match reader.u32() {
            Ok(v) => {
                out.push(v);
                proof {
                    assert(out.deep_view() =~= before.push(v));
                }
            },
            Err(e) => {
                return Err(e);
            },
        }
        i += 1;
    }
    Ok(out)
}

/// The bytes of a vector: its length and its components.
pub open spec fn enc_vector(v: Seq<u32>) -> Seq<u8> {
    le_bytes(v.len(), 4) + enc_singles(v)
}

/// The bytes of the entries of a sparse vector.
pub open spec fn enc_sparse_pairs(pairs: Seq<(Seq<char>, u32)>) -> Seq<u8>
    decreases pairs.len(),
{
    if pairs.len() == 0 {
        Seq::empty()
    } else {
        enc_text(pairs[0].0) + le_bytes(pairs[0].1 as nat, 4) + enc_sparse_pairs(
            pairs.drop_first(),
        )
    }
}

/// The bytes of a sparse vector: the number of terms, then each term and its weight.
pub open spec fn enc_sparse(pairs: Seq<(Seq<char>, u32)>) -> Seq<u8> {
    le_bytes(pairs.len(), 4) + enc_sparse_pairs(pairs)
}

/// Whether every length in a sparse vector fits its length field.
pub open spec fn sparse_fits(pairs: Seq<(Seq<char>, u32)>) -> bool {
    pairs.len() <= 0xffff_ffff && forall|i: int|
        0 <= i < pairs.len() ==> text_fits((#[trigger] pairs[i]).0)
}

/// Reads `n` more terms into `acc`.
pub open spec fn parse_sparse_pairs(n: nat, acc: Seq<(Seq<char>, u32)>, b: Seq<u8>) -> Parsed<
    Seq<(Seq<char>, u32)>,
>
    decreases n,
{
    if n == 0 {
        Ok((acc, b))
    } else {
        match parse_text(b) {
            Err(e) => Err(e),
            Ok((term, mid)) => match parse_le(mid, 4) {
                Err(e) => Err(e),
                Ok((w, rest)) => parse_sparse_pairs(
                    (n - 1) as nat,
                    insert_pair::<String, u32>(acc, term, w as u32),
                    rest,
                ),
            },
        }
    }
}

/// Reads a sparse vector.
pub open spec fn parse_sparse(b: Seq<u8>) -> Parsed<Seq<(Seq<char>, u32)>> {
    match parse_le(b, 4) {
        Err(e) => Err(e),
        Ok((n, rest)) => parse_sparse_pairs(n, Seq::empty(), rest),
    }
}

/// In ascending pairs that continue `acc`, the first key comes after all of `acc`.
proof fn lemma_continues<B>(acc: Seq<(Seq<char>, B)>, pairs: Seq<(Seq<char>, B)>)
    requires
        ascending::<String, B>(acc + pairs),
        pairs.len() > 0,
    ensures
        forall|i: int|
            0 <= i < acc.len() ==> <String as Key>::before((#[trigger] acc[i]).0, pairs[0].0),
        acc.push(pairs[0]) + pairs.drop_first() == acc + pairs,
{
    let all = acc + pairs;
    assert forall|i: int| 0 <= i < acc.len() implies <String as Key>::before(
        (#[trigger] acc[i]).0,
        pairs[0].0,
    ) by {
        assert(all[i] == acc[i]);
        assert(all[acc.len() as int] == pairs[0]);
    }
    assert(acc.push(pairs[0]) + pairs.drop_first() =~= all);
}

#[verifier::spinoff_prover]
proof fn lemma_sparse_pairs_roundtrip(
    pairs: Seq<(Seq<char>, u32)>,
    acc: Seq<(Seq<char>, u32)>,
    tail: Seq<u8>,
)
    requires
        ascending::<String, u32>(acc + pairs),
        forall|i: int| 0 <= i < pairs.len() ==> text_fits((#[trigger] pairs[i]).0),
    ensures
        parse_sparse_pairs(pairs.len(), acc, enc_sparse_pairs(pairs) + tail) == Ok::<
            (Seq<(Seq<char>, u32)>, Seq<u8>),
            Failure,
        >((acc + pairs, tail)),
    decreases pairs.len(),
{
    if pairs.len() == 0 {
        assert(enc_sparse_pairs(pairs) + tail =~= tail);
        assert(acc + pairs =~= acc);
    } else {
        lemma_pow256_values();
        let more = pairs.drop_first();
        let (term, w) = pairs[0];
        let end = enc_sparse_pairs(more) + tail;
        let mid = le_bytes(w as nat, 4) + end;
        assert(enc_sparse_pairs(pairs) + tail =~= enc_text(term) + mid);
        lemma_parse_text_roundtrip(term, mid);
        lemma_parse_le_roundtrip(w as nat, 4, end);
        lemma_continues(acc, pairs);
        lemma_insert_last::<String, u32>(acc, term, w);
        assert forall|i: int| 0 <= i < more.len() implies text_fits((#[trigger] more[i]).0) by {
            assert(more[i] == pairs[i + 1]);
        }
        lemma_sparse_pairs_roundtrip(more, acc.push(pairs[0]), tail);
    }
}

/// A written sparse vector is read back.
pub proof fn law_sparse_roundtrip(pairs: Seq<(Seq<char>, u32)>, tail: Seq<u8>)
    requires
        sparse_fits(pairs),
        ascending::<String, u32>(pairs),
    ensures
        parse_sparse(enc_sparse(pairs) + tail) == Ok::<(Seq<(Seq<char>, u32)>, Seq<u8>), Failure>(
            (pairs, tail),
        ),
{
    lemma_pow256_values();
    assert(enc_sparse(pairs) + tail =~= le_bytes(pairs.len(), 4) + (enc_sparse_pairs(pairs)
        + tail));
    lemma_parse_le_roundtrip(pairs.len(), 4, enc_sparse_pairs(pairs) + tail);
    assert(Seq::<(Seq<char>, u32)>::empty() + pairs =~= pairs);
    lemma_sparse_pairs_roundtrip(pairs, Seq::empty(), tail);
}

/// Appends a sparse vector.
pub fn write_sparse_vector(out: &mut Vec<u8>, sparse: &SparseVector) -> (r: Result<
    (),
    VectLiteError,
>)
    ensures
        sparse_fits(sparse.pairs()) ==> r is Ok && final(out)@ == old(out)@ + enc_sparse(
            sparse.pairs(),
        ),
        !sparse_fits(sparse.pairs()) ==> (r matches Err(e) && e@ == too_long()),
{
    let ghost start = out@;
    match write_len(out, sparse.len()) {
        Ok(()) => {},
        Err(e) => {
            return Err(e);
        },
    }
    let ghost all = sparse.pairs();
    let ghost head = out@;
    let mut i: usize = 0;
    proof {
        assert(all.skip(0) =~= all);
    }
    while i < sparse.len()
        invariant
            i <= all.len(),
            all == sparse.pairs(),
            all.len() <= 0xffff_ffff,
            out@ + enc_sparse_pairs(all.skip(i as int)) == head + enc_sparse_pairs(all),
            forall|k: int| 0 <= k < i ==> text_fits((#[trigger] all[k]).0),
        decreases all.len() - i,
    {
        let ghost before = out@;
        match write_text(out, sparse.key_at(i).as_str()) {
            Ok(()) => {},
            Err(e) => {
                return Err(e);
            },
        }
        write_le(out, *sparse.value_at(i) as u64, 4);
        proof {
            assert(all.skip(i as int).drop_first() =~= all.skip(i + 1));
            assert(before + (enc_text(all[i as int].0) + le_bytes(all[i as int].1 as nat, 4)
                + enc_sparse_pairs(all.skip(i + 1))) =~= out@ + enc_sparse_pairs(all.skip(i + 1)));
        }
        i += 1;
    }
    proof {
        assert(out@ + enc_sparse_pairs(all.skip(i as int)) =~= out@);
        assert(out@ =~= start + enc_sparse(all));
    }
    Ok(())
}

/// Reads a sparse vector.
pub fn read_sparse_vector(reader: &mut Reader) -> (r: Result<SparseVector, VectLiteError>)
    requires
        old(reader).wf(),
    ensures
        final(reader).wf(),
        agrees(r, final(reader).rest(), parse_sparse(old(reader).rest())),
{
    let n: u32 = match reader.u32() {
        Ok(n) => n,
        Err(e) => {
            return Err(e);
        },
    };
    let ghost from = reader.rest();
    let mut map: SparseVector = OrderedMap::new();
    let mut i: u32 = 0;
    while i < n
        invariant
            reader.wf(),
            i <= n,
            parse_sparse_pairs((n - i) as nat, map.pairs(), reader.rest()) == parse_sparse_pairs(
                n as nat,
                Seq::empty(),
                from,
            ),
            parse_sparse(old(reader).rest()) == parse_sparse_pairs(n as nat, Seq::empty(), from),
        decreases n - i,
    {
        let term = match reader.text() {
            Ok(k) => k,
            Err(e) => {
                return Err(e);
            },
        };
        let w: u32 = match reader.u32() {
            Ok(v) => v,
            Err(e) => {
                return Err(e);
            },
        };
        map.insert(term, w);
        i += 1;
    }
    Ok(map)
}

/// The bytes of named vectors, each its name, length and components.
pub open spec fn enc_named_pairs(pairs: Seq<(Seq<char>, Seq<u32>)>) -> Seq<u8>
    decreases pairs.len(),
{
    if pairs.len() == 0 {
        Seq::empty()
    } else {
        enc_text(pairs[0].0) + enc_vector(pairs[0].1) + enc_named_pairs(pairs.drop_first())
    }
}

/// The bytes of named vectors with their number.
pub open spec fn enc_named(pairs: Seq<(Seq<char>, Seq<u32>)>) -> Seq<u8> {
    le_bytes(pairs.len(), 4) + enc_named_pairs(pairs)
}

/// Whether every length in named vectors fits its length field.
pub open spec fn named_fit(pairs: Seq<(Seq<char>, Seq<u32>)>) -> bool {
    pairs.len() <= 0xffff_ffff && forall|i: int|
        0 <= i < pairs.len() ==> text_fits((#[trigger] pairs[i]).0) && pairs[i].1.len()
            <= 0xffff_ffff
}

/// Reads `n` more named vectors of the given dimension into `acc`.
pub open spec fn parse_named_pairs(
    n: nat,
    dimension: nat,
    acc: Seq<(Seq<char>, Seq<u32>)>,
    b: Seq<u8>,
) -> Parsed<Seq<(Seq<char>, Seq<u32>)>>
    decreases n,
{
    if n == 0 {
        Ok((acc, b))
    } else {
        match parse_text(b) {
            Err(e) => Err(e),
            Ok((name, b1)) => if name.len() == 0 {
                Err(Failure::InvalidFormat("named vectors must not use an empty name"@))
            } else {
                match parse_le(b1, 4) {
                    Err(e) => Err(e),
                    Ok((len, b2)) => if len != dimension {
                        Err(
                            Failure::InvalidFormat(
                                "named vector "@ + name + " has length "@ + decimal(len)
                                    + ", expected "@ + decimal(dimension),
                            ),
                        )
                    } else {
                        match parse_singles(len, Seq::empty(), b2) {
                            Err(e) => Err(e),
                            Ok((v, rest)) => parse_named_pairs(
                                (n - 1) as nat,
                                dimension,
                                insert_pair::<String, Seq<u32>>(acc, name, v),
                                rest,
                            ),
                        }
                    },
                }
            },
        }
    }
}

/// Reads named vectors.
pub open spec fn parse_named(dimension: nat, b: Seq<u8>) -> Parsed<Seq<(Seq<char>, Seq<u32>)>> {
    match parse_le(b, 4) {
        Err(e) => Err(e),
        Ok((n, rest)) => parse_named_pairs(n, dimension, Seq::empty(), rest),
    }
}

/// Whether named vectors have non-empty names and the given dimension.
pub open spec fn named_valid(pairs: Seq<(Seq<char>, Seq<u32>)>, dimension: nat) -> bool {
    forall|i: int|
        0 <= i < pairs.len() ==> (#[trigger] pairs[i]).0.len() > 0 && pairs[i].1.len() == dimension
}

#[verifier::spinoff_prover]
proof fn lemma_named_step(
    pairs: Seq<(Seq<char>, Seq<u32>)>,
    dimension: nat,
    acc: Seq<(Seq<char>, Seq<u32>)>,
    tail: Seq<u8>,
)
    requires
        pairs.len() > 0,
        pairs[0].0.len() > 0,
        pairs[0].1.len() == dimension <= 0xffff_ffff,
        text_fits(pairs[0].0),
        forall|i: int| 0 <= i < acc.len() ==> String::before((#[trigger] acc[i]).0, pairs[0].0),
    ensures
        parse_named_pairs(pairs.len(), dimension, acc, enc_named_pairs(pairs) + tail)
            == parse_named_pairs(
            (pairs.len() - 1) as nat,
            dimension,
            acc.push(pairs[0]),
            enc_named_pairs(pairs.drop_first()) + tail,
        ),
{
    lemma_pow256_values();
    let (name, v) = pairs[0];
    let end = enc_named_pairs(pairs.drop_first()) + tail;
    let b2 = enc_singles(v) + end;
    let b1 = le_bytes(v.len(), 4) + b2;
    assert(enc_named_pairs(pairs) + tail =~= enc_text(name) + b1);
    lemma_parse_text_roundtrip(name, b1);
    lemma_parse_le_roundtrip(v.len(), 4, b2);
    lemma_singles_roundtrip(v, Seq::empty(), end);
    assert(Seq::<u32>::empty() + v =~= v);
    lemma_insert_last::<String, Seq<u32>>(acc, name, v);
}

#[verifier::spinoff_prover]
proof fn lemma_named_pairs_roundtrip(
    pairs: Seq<(Seq<char>, Seq<u32>)>,
    dimension: nat,
    acc: Seq<(Seq<char>, Seq<u32>)>,
    tail: Seq<u8>,
)
    requires
        ascending::<String, Seq<u32>>(acc + pairs),
        named_valid(pairs, dimension),
        dimension <= 0xffff_ffff,
        forall|i: int| 0 <= i < pairs.len() ==> text_fits((#[trigger] pairs[i]).0),
    ensures
        parse_named_pairs(pairs.len(), dimension, acc, enc_named_pairs(pairs) + tail) == Ok::<
            (Seq<(Seq<char>, Seq<u32>)>, Seq<u8>),
            Failure,
        >((acc + pairs, tail)),
    decreases pairs.len(),
{
    if pairs.len() == 0 {
        assert(enc_named_pairs(pairs) + tail =~= tail);
        assert(acc + pairs =~= acc);
    } else {
        let more = pairs.drop_first();
        lemma_continues(acc, pairs);
        lemma_named_step(pairs, dimension, acc, tail);
        assert forall|i: int| 0 <= i < more.len() implies text_fits((#[trigger] more[i]).0)
            && more[i].0.len() > 0 && more[i].1.len() == dimension by {
            assert(more[i] == pairs[i + 1]);
        }
        assert(acc.push(pairs[0]) + more =~= acc + pairs);
        lemma_named_pairs_roundtrip(more, dimension, acc.push(pairs[0]), tail);
    }
}

/// Written named vectors of one dimension are read back.
pub proof fn law_named_roundtrip(
    pairs: Seq<(Seq<char>, Seq<u32>)>,
    dimension: nat,
    tail: Seq<u8>,
)
    requires
        named_fit(pairs),
        named_valid(pairs, dimension),
        dimension <= 0xffff_ffff,
        ascending::<String, Seq<u32>>(pairs),
    ensures
        parse_named(dimension, enc_named(pairs) + tail) == Ok::<
            (Seq<(Seq<char>, Seq<u32>)>, Seq<u8>),
            Failure,
        >((pairs, tail)),
{
    lemma_pow256_values();
    assert(enc_named(pairs) + tail =~= le_bytes(pairs.len(), 4) + (enc_named_pairs(pairs) + tail));
    lemma_parse_le_roundtrip(pairs.len(), 4, enc_named_pairs(pairs) + tail);
    assert(Seq::<(Seq<char>, Seq<u32>)>::empty() + pairs =~= pairs);
    lemma_named_pairs_roundtrip(pairs, dimension, Seq::empty(), tail);
}

/// Appends named vectors.
pub fn write_named_vectors(out: &mut Vec<u8>, vectors: &NamedVectors) -> (r: Result<
    (),
    VectLiteError,
>)
    ensures
        named_fit(vectors.pairs()) ==> r is Ok && final(out)@ == old(out)@ + enc_named(
            vectors.pairs(),
        ),
        !named_fit(vectors.pairs()) ==> (r matches Err(e) && e@ == too_long()),
{
    let ghost start = out@;
    match write_len(out, vectors.len()) {
        Ok(()) => {},
        Err(e) => {
            return Err(e);
        },
    }
    let ghost all = vectors.pairs();
    let ghost head = out@;
    let mut i: usize = 0;
    proof {
        assert(all.skip(0) =~= all);
    }
    while i < vectors.len()
        invariant
            i <= all.len(),
            all == vectors.pairs(),
            all.len() <= 0xffff_ffff,
            out@ + enc_named_pairs(all.skip(i as int)) == head + enc_named_pairs(all),
            forall|k: int|
                0 <= k < i ==> text_fits((#[trigger] all[k]).0) && all[k].1.len() <= 0xffff_ffff,
        decreases all.len() - i,
    {
        let ghost before = out@;
        match write_text(out, vectors.key_at(i).as_str()) {
            Ok(()) => {},
            Err(e) => {
                return Err(e);
            },
        }
        let v = vectors.value_at(i);
        match write_len(out, v.len()) {
            Ok(()) => {},
            Err(e) => {
                return Err(e);
            },
        }
        write_singles(out, v);
        proof {
            assert(all.skip(i as int).drop_first() =~= all.skip(i + 1));
            assert(before + (enc_text(all[i as int].0) + enc_vector(all[i as int].1)
                + enc_named_pairs(all.skip(i + 1))) =~= out@ + enc_named_pairs(all.skip(i + 1)));
        }
        i += 1;
    }
    proof {
        assert(out@ + enc_named_pairs(all.skip(i as int)) =~= out@);
        assert(out@ =~= start + enc_named(all));
    }
    Ok(())
}

/// Reads named vectors of the given dimension.
pub fn read_named_vectors(reader: &mut Reader, dimension: usize) -> (r: Result<
    NamedVectors,
    VectLiteError,
>)
    requires
        old(reader).wf(),
    ensures
        final(reader).wf(),
        agrees(r, final(reader).rest(), parse_named(dimension as nat, old(reader).rest())),
{
    let n: u32 = match reader.u32() {
        Ok(n) => n,
        Err(e) => {
            return Err(e);
        },
    };
    let ghost from = reader.rest();
    let mut map: NamedVectors = OrderedMap::new();
    let mut i: u32 = 0;
    while i < n
        invariant
            reader.wf(),
            i <= n,
            parse_named_pairs((n - i) as nat, dimension as nat, map.pairs(), reader.rest())
                == parse_named_pairs(n as nat, dimension as nat, Seq::empty(), from),
            parse_named(dimension as nat, old(reader).rest()) == parse_named_pairs(
                n as nat,
                dimension as nat,
                Seq::empty(),
                from,
            ),
        decreases n - i,
    {
        let name = match reader.text() {
            Ok(k) => k,
            Err(e) => {
                return Err(e);
            },
        };
        if name.as_str().is_empty() {
            return Err(invalid("named vectors must not use an empty name"));
        }
        let len: u32 = match reader.u32() {
            Ok(v) => v,
            Err(e) => {
                return Err(e);
            },
        };
        if len as usize != dimension {
            let l = decimal_text(len as u64);
            let d = decimal_text(dimension as u64);
            let head = concat5("named vector ", name.as_str(), " has length ", l.as_str(), ", expected ");
            return Err(VectLiteError::InvalidFormat(concat2(head.as_str(), d.as_str())));
        }
        let v = match read_singles(reader, len as usize) {
            Ok(v) => v,
            Err(e) => {
                return Err(e);
            },
        };
        map.insert(name, v);
        i += 1;
    }
    Ok(map)
}

/// The dimension of token vectors: that of the first one.
pub open spec fn token_dim(tokens: Seq<Seq<u32>>) -> nat {
    if tokens.len() == 0 {
        0
    } else {
        tokens[0].len()
    }
}

/// The components of token vectors, one vector after the other.
pub open spec fn enc_tokens(tokens: Seq<Seq<u32>>) -> Seq<u8>
    decreases tokens.len(),
{
    if tokens.len() == 0 {
        Seq::empty()
    } else {
        enc_singles(tokens[0]) + enc_tokens(tokens.drop_first())
    }
}

/// The bytes of a space: its name, token dimension, number of tokens and their components.
pub open spec fn enc_space(name: Seq<char>, tokens: Seq<Seq<u32>>) -> Seq<u8> {
    enc_text(name) + le_bytes(token_dim(tokens), 4) + le_bytes(tokens.len(), 4) + enc_tokens(tokens)
}

/// The bytes of spaces, one after the other.
pub open spec fn enc_multi_pairs(pairs: Seq<(Seq<char>, Seq<Seq<u32>>)>) -> Seq<u8>
    decreases pairs.len(),
{
    if pairs.len() == 0 {
        Seq::empty()
    } else {
        enc_space(pairs[0].0, pairs[0].1) + enc_multi_pairs(pairs.drop_first())
    }
}

/// The bytes of spaces with their number.
pub open spec fn enc_multi(pairs: Seq<(Seq<char>, Seq<Seq<u32>>)>) -> Seq<u8> {
    le_bytes(pairs.len(), 4) + enc_multi_pairs(pairs)
}

/// Whether every length in spaces fits its length field.
pub open spec fn multi_fit(pairs: Seq<(Seq<char>, Seq<Seq<u32>>)>) -> bool {
    pairs.len() <= 0xffff_ffff && forall|i: int|
        0 <= i < pairs.len() ==> text_fits((#[trigger] pairs[i]).0) && token_dim(pairs[i].1)
            <= 0xffff_ffff && pairs[i].1.len() <= 0xffff_ffff
}

/// Whether the token vectors of a space have one dimension.
pub open spec fn uniform(tokens: Seq<Seq<u32>>) -> bool {
    forall|i: int| 0 <= i < tokens.len() ==> (#[trigger] tokens[i]).len() == token_dim(tokens)
}

/// Whether the token vectors of each space have one dimension.
pub open spec fn multi_uniform(pairs: Seq<(Seq<char>, Seq<Seq<u32>>)>) -> bool {
    forall|i: int| 0 <= i < pairs.len() ==> uniform((#[trigger] pairs[i]).1)
}

/// Reads `n` more token vectors of a dimension after those in `acc`.
pub open spec fn parse_tokens(n: nat, dim: nat, acc: Seq<Seq<u32>>, b: Seq<u8>) -> Parsed<
    Seq<Seq<u32>>,
>
    decreases n,
{
    if n == 0 {
        Ok((acc, b))
    } else {
        match parse_singles(dim, Seq::empty(), b) {
            Err(e) => Err(e),
            Ok((v, rest)) => parse_tokens((n - 1) as nat, dim, acc.push(v), rest),
        }
    }
}

/// Reads `n` more spaces into `acc`.
pub open spec fn parse_multi_pairs(
    n: nat,
    acc: Seq<(Seq<char>, Seq<Seq<u32>>)>,
    b: Seq<u8>,
) -> Parsed<Seq<(Seq<char>, Seq<Seq<u32>>)>>
    decreases n,
{
    if n == 0 {
        Ok((acc, b))
    } else {
        match parse_text(b) {
            Err(e) => Err(e),
            Ok((name, b1)) => match parse_le(b1, 4) {
                Err(e) => Err(e),
                Ok((dim, b2)) => match parse_le(b2, 4) {
                    Err(e) => Err(e),
                    Ok((count, b3)) => match parse_tokens(count, dim, Seq::empty(), b3) {
                        Err(e) => Err(e),
                        Ok((tokens, rest)) => parse_multi_pairs(
                            (n - 1) as nat,
                            insert_pair::<String, Seq<Seq<u32>>>(acc, name, tokens),
                            rest,
                        ),
                    },
                },
            },
        }
    }
}

/// Reads spaces of token vectors.
pub open spec fn parse_multi(b: Seq<u8>) -> Parsed<Seq<(Seq<char>, Seq<Seq<u32>>)>> {
    match parse_le(b, 4) {
        Err(e) => Err(e),
        Ok((n, rest)) => parse_multi_pairs(n, Seq::empty(), rest),
    }
}

pub proof fn lemma_tokens_roundtrip(
    tokens: Seq<Seq<u32>>,
    dim: nat,
    acc: Seq<Seq<u32>>,
    tail: Seq<u8>,
)
    requires
        forall|i: int| 0 <= i < tokens.len() ==> (#[trigger] tokens[i]).len() == dim,
    ensures
        parse_tokens(tokens.len(), dim, acc, enc_tokens(tokens) + tail) == Ok::<
            (Seq<Seq<u32>>, Seq<u8>),
            Failure,
        >((acc + tokens, tail)),
    decreases tokens.len(),
{
    if tokens.len() == 0 {
        assert(enc_tokens(tokens) + tail =~= tail);
        assert(acc + tokens =~= acc);
    } else {
        let more = tokens.drop_first();
        let end = enc_tokens(more) + tail;
        assert(enc_tokens(tokens) + tail =~= enc_singles(tokens[0]) + end);
        lemma_singles_roundtrip(tokens[0], Seq::empty(), end);
        assert(Seq::<u32>::empty() + tokens[0] =~= tokens[0]);
        assert forall|i: int| 0 <= i < more.len() implies (#[trigger] more[i]).len() == dim by {
            assert(more[i] == tokens[i + 1]);
        }
        lemma_tokens_roundtrip(more, dim, acc.push(tokens[0]), tail);
        assert(acc.push(tokens[0]) + more =~= acc + tokens);
    }
}

proof fn lemma_concat5(
    a: Seq<u8>,
    b: Seq<u8>,
    c: Seq<u8>,
    d: Seq<u8>,
    e: Seq<u8>,
    tail: Seq<u8>,
)
    ensures
        a + b + c + d + e + tail == a + (b + (c + (d + (e + tail)))),
{
    assert(a + b + c + d + e + tail =~= a + (b + (c + (d + (e + tail)))));
}

#[verifier::rlimit(40)]
proof fn lemma_multi_pairs_roundtrip(
    pairs: Seq<(Seq<char>, Seq<Seq<u32>>)>,
    acc: Seq<(Seq<char>, Seq<Seq<u32>>)>,
    tail: Seq<u8>,
)
    requires
        ascending::<String, Seq<Seq<u32>>>(acc + pairs),
        multi_uniform(pairs),
        forall|i: int|
            0 <= i < pairs.len() ==> text_fits((#[trigger] pairs[i]).0) && token_dim(pairs[i].1)
                <= 0xffff_ffff && pairs[i].1.len() <= 0xffff_ffff,
    ensures
        parse_multi_pairs(pairs.len(), acc, enc_multi_pairs(pairs) + tail) == Ok::<
            (Seq<(Seq<char>, Seq<Seq<u32>>)>, Seq<u8>),
            Failure,
        >((acc + pairs, tail)),
    decreases pairs.len(),
{
    if pairs.len() == 0 {
        assert(enc_multi_pairs(pairs) + tail =~= tail);
        assert(acc + pairs =~= acc);
    } else {
        lemma_pow256_values();
        let more = pairs.drop_first();
        let (name, tokens) = pairs[0];
        let dim = token_dim(tokens);
        let end = enc_multi_pairs(more) + tail;
        let b3 = enc_tokens(tokens) + end;
        let b2 = le_bytes(tokens.len(), 4) + b3;
        let b1 = le_bytes(dim, 4) + b2;
        lemma_concat5(
            enc_text(name),
            le_bytes(dim, 4),
            le_bytes(tokens.len(), 4),
            enc_tokens(tokens),
            enc_multi_pairs(more),
            tail,
        );
        assert(enc_multi_pairs(pairs) + tail == enc_text(name) + b1);
        assert(uniform(pairs[0].1));
        lemma_parse_text_roundtrip(name, b1);
        lemma_parse_le_roundtrip(dim, 4, b2);
        lemma_parse_le_roundtrip(tokens.len(), 4, b3);
        lemma_tokens_roundtrip(tokens, dim, Seq::empty(), end);
        assert(Seq::<Seq<u32>>::empty() + tokens =~= tokens);
        lemma_continues(acc, pairs);
        lemma_insert_last::<String, Seq<Seq<u32>>>(acc, name, tokens);
        assert forall|i: int| 0 <= i < more.len() implies text_fits((#[trigger] more[i]).0)
            && token_dim(more[i].1) <= 0xffff_ffff && more[i].1.len() <= 0xffff_ffff && uniform(
            more[i].1,
        ) by {
            assert(more[i] == pairs[i + 1]);
        }
        lemma_multi_pairs_roundtrip(more, acc.push(pairs[0]), tail);
    }
}

/// Written spaces of uniform token vectors are read back.
pub proof fn law_multi_roundtrip(pairs: Seq<(Seq<char>, Seq<Seq<u32>>)>, tail: Seq<u8>)
    requires
        multi_fit(pairs),
        multi_uniform(pairs),
        ascending::<String, Seq<Seq<u32>>>(pairs),
    ensures
        parse_multi(enc_multi(pairs) + tail) == Ok::<
            (Seq<(Seq<char>, Seq<Seq<u32>>)>, Seq<u8>),
            Failure,
        >((pairs, tail)),
{
    lemma_pow256_values();
    assert(enc_multi(pairs) + tail =~= le_bytes(pairs.len(), 4) + (enc_multi_pairs(pairs) + tail));
    lemma_parse_le_roundtrip(pairs.len(), 4, enc_multi_pairs(pairs) + tail);
    assert(Seq::<(Seq<char>, Seq<Seq<u32>>)>::empty() + pairs =~= pairs);
    lemma_multi_pairs_roundtrip(pairs, Seq::empty(), tail);
}

pub(crate) fn write_tokens(out: &mut Vec<u8>, tokens: &Vec<Vec<u32>>)
    ensures
        final(out)@ == old(out)@ + enc_tokens(tokens.deep_view()),
{
    let ghost all = tokens.deep_view();
    let mut i: usize = 0;
    proof {
        assert(all.skip(0) =~= all);
    }
    while i < tokens.len()
        invariant
            i <= tokens@.len(),
            all == tokens.deep_view(),
            out@ + enc_tokens(all.skip(i as int)) == old(out)@ + enc_tokens(all),
        decreases tokens@.len() - i,
    {
        let ghost before = out@;
        write_singles(out, &tokens[i]);
        proof {
            assert(all[i as int] == tokens@[i as int].deep_view());
            assert(all.skip(i as int).drop_first() =~= all.skip(i + 1));
            assert(before + (enc_singles(all[i as int]) + enc_tokens(all.skip(i + 1))) =~= out@
                + enc_tokens(all.skip(i + 1)));
        }
        i += 1;
    }
    proof {
        assert(out@ + enc_tokens(all.skip(i as int)) =~= out@);
    }
}

/// Appends a space of token vectors.
fn write_space(out: &mut Vec<u8>, name: &str, tokens: &Vec<Vec<u32>>) -> (r: Result<
    (),
    VectLiteError,
>)
    ensures
        ({
            let t = tokens.deep_view();
            let fits = text_fits(name@) && token_dim(t) <= 0xffff_ffff && t.len() <= 0xffff_ffff;
            &&& fits ==> r is Ok && final(out)@ == old(out)@ + enc_space(name@, t)
            &&& !fits ==> (r matches Err(e) && e@ == too_long())
        }),
{
    match write_text(out, name) {
        Ok(()) => {},
        Err(e) => {
            return Err(e);
        },
    }
    let dim: usize = if tokens.len() == 0 {
        0
    } else {
        proof {
            assert(tokens.deep_view()[0] == tokens@[0].deep_view());
        }
        tokens[0].len()
    };
    match write_len(out, dim) {
        Ok(()) => {},
        Err(e) => {
            return Err(e);
        },
    }
    match write_len(out, tokens.len()) {
        Ok(()) => {},
        Err(e) => {
            return Err(e);
        },
    }
    write_tokens(out, tokens);
    proof {
        assert(out@ =~= old(out)@ + enc_space(name@, tokens.deep_view()));
    }
    Ok(())
}

/// Appends spaces of token vectors.
pub fn write_multi_vectors(out: &mut Vec<u8>, multi_vectors: &MultiVectors) -> (r: Result<
    (),
    VectLiteError,
>)
    ensures
        multi_fit(multi_vectors.pairs()) ==> r is Ok && final(out)@ == old(out)@ + enc_multi(
            multi_vectors.pairs(),
        ),
        !multi_fit(multi_vectors.pairs()) ==> (r matches Err(e) && e@ == too_long()),
{
    let ghost start = out@;
    match write_len(out, multi_vectors.len()) {
        Ok(()) => {},
        Err(e) => {
            return Err(e);
        },
    }
    let ghost all = multi_vectors.pairs();
    let ghost head = out@;
    let mut i: usize = 0;
    proof {
        assert(all.skip(0) =~= all);
    }
    while i < multi_vectors.len()
        invariant
            i <= all.len(),
            all == multi_vectors.pairs(),
            all.len() <= 0xffff_ffff,
            out@ + enc_multi_pairs(all.skip(i as int)) == head + enc_multi_pairs(all),
            forall|k: int|
                0 <= k < i ==> text_fits((#[trigger] all[k]).0) && token_dim(all[k].1)
                    <= 0xffff_ffff && all[k].1.len() <= 0xffff_ffff,
        decreases all.len() - i,
    {
        let ghost before = out@;
        match write_space(out, multi_vectors.key_at(i).as_str(), multi_vectors.value_at(i)) {
            Ok(()) => {},
            Err(e) => {
                return Err(e);
            },
        }
        proof {
            assert(all.skip(i as int).drop_first() =~= all.skip(i + 1));
            assert(before + (enc_space(all[i as int].0, all[i as int].1) + enc_multi_pairs(
                all.skip(i + 1),
            )) =~= out@ + enc_multi_pairs(all.skip(i + 1)));
        }
        i += 1;
    }
    proof {
        assert(out@ + enc_multi_pairs(all.skip(i as int)) =~= out@);
        assert(out@ =~= start + enc_multi(all));
    }
    Ok(())
}

pub(crate) fn read_tokens(reader: &mut Reader, n: usize, dim: usize) -> (r: Result<
    Vec<Vec<u32>>,
    VectLiteError,
>)
    requires
        old(reader).wf(),
    ensures
        final(reader).wf(),
        agrees(
            r,
            final(reader).rest(),
            parse_tokens(n as nat, dim as nat, Seq::empty(), old(reader).rest()),
        ),
{
    let mut out: Vec<Vec<u32>> = Vec::new();
    let mut i: usize = 0;
    proof {
        assert(out.deep_view() =~= Seq::<Seq<u32>>::empty());
    }
    while i < n
        invariant
            reader.wf(),
            i <= n,
            parse_tokens((n - i) as nat, dim as nat, out.deep_view(), reader.rest())
                == parse_tokens(n as nat, dim as nat, Seq::empty(), old(reader).rest()),
        decreases n - i,
    {
        let ghost before = out.deep_view();
        match read_singles(reader, dim) {
            Ok(v) => {
                out.push(v);
                proof {
                    assert(out.deep_view() =~= before.push(v.deep_view()));
                }
            },
            Err(e) => {
                return Err(e);
            },
        }
        i += 1;
    }
    Ok(out)
}

/// Reads spaces of token vectors.
pub fn read_multi_vectors(reader: &mut Reader) -> (r: Result<MultiVectors, VectLiteError>)
    requires
        old(reader).wf(),
    ensures
        final(reader).wf(),
        agrees(r, final(reader).rest(), parse_multi(old(reader).rest())),
{
    let n: u32 = match reader.u32() {
        Ok(n) => n,
        Err(e) => {
            return Err(e);
        },
    };
    let ghost from = reader.rest();
    let mut map: MultiVectors = OrderedMap::new();
    let mut i: u32 = 0;
    while i < n
        invariant
            reader.wf(),
            i <= n,
            parse_multi_pairs((n - i) as nat, map.pairs(), reader.rest()) == parse_multi_pairs(
                n as nat,
                Seq::empty(),
                from,
            ),
            parse_multi(old(reader).rest()) == parse_multi_pairs(n as nat, Seq::empty(), from),
        decreases n - i,
    {
        let name = match reader.text() {
            Ok(k) => k,
            Err(e) => {
                return Err(e);
            },
        };
        let dim: u32 = match reader.u32() {
            Ok(v) => v,
            Err(e) => {
                return Err(e);
            },
        };
        let count: u32 = match reader.u32() {
            Ok(v) => v,
            Err(e) => {
                return Err(e);
            },
        };
        let tokens = match read_tokens(reader, count as usize, dim as usize) {
            Ok(v) => v,
            Err(e) => {
                return Err(e);
            },
        };
        map.insert(name, tokens);
        i += 1;
    }
    Ok(map)
}

/// The stored form of an expiry time: zero stands for none.
pub open spec fn expiry_bits(expires_at: Option<u64>) -> u64 {
    match expires_at {
        Some(t) => t,
        None => 0,
    }
}

/// The expiry time of a stored form; both zeros stand for none.
pub open spec fn expiry_of(bits: u64) -> Option<u64> {
    if double_eq(bits, 0) {
        None
    } else {
        Some(bits)
    }
}

/// Reads an expiry time.
pub open spec fn parse_expiry(b: Seq<u8>) -> Parsed<Option<u64>> {
    match parse_le(b, 8) {
        Err(e) => Err(e),
        Ok((bits, rest)) => Ok((expiry_of(bits as u64), rest)),
    }
}

/// The bytes of a record.
pub open spec fn enc_record(m: RecordModel) -> Seq<u8> {
    enc_record_head(m) + enc_record_tail(m)
}

/// The bytes of a record up to its main vector.
#[verifier::opaque]
pub open spec fn enc_record_head(m: RecordModel) -> Seq<u8> {
    enc_text(m.namespace) + enc_text(m.id) + enc_metadata(m.metadata) + enc_vector(m.vector)
}

/// The bytes of a record after its main vector.
#[verifier::opaque]
pub open spec fn enc_record_tail(m: RecordModel) -> Seq<u8> {
    enc_named(m.vectors) + enc_sparse(m.sparse) + enc_multi(m.multi_vectors) + le_bytes(
        expiry_bits(m.expires_at) as nat,
        8,
    )
}

/// Whether every length in a record fits its length field.
pub open spec fn record_fits(m: RecordModel) -> bool {
    &&& text_fits(m.namespace)
    &&& text_fits(m.id)
    &&& pairs_fit(m.metadata)
    &&& m.vector.len() <= 0xffff_ffff
    &&& named_fit(m.vectors)
    &&& sparse_fits(m.sparse)
    &&& multi_fit(m.multi_vectors)
}

/// Whether the maps of a record are ascending.
pub open spec fn record_ordered(m: RecordModel) -> bool {
    &&& pairs_ordered(m.metadata)
    &&& ascending::<String, Seq<u32>>(m.vectors)
    &&& ascending::<String, u32>(m.sparse)
    &&& ascending::<String, Seq<Seq<u32>>>(m.multi_vectors)
}

/// Whether the vectors of a record suit the given dimension.
pub open spec fn record_dimensioned(m: RecordModel, dimension: nat) -> bool {
    &&& m.vector.len() == dimension
    &&& named_valid(m.vectors, dimension)
    &&& multi_uniform(m.multi_vectors)
}

/// The namespace, id, metadata and main vector of a record of a format version.
#[verifier::opaque]
pub open spec fn parse_record_head(
    version: nat,
    dimension: nat,
    label: Seq<char>,
    b: Seq<u8>,
) -> Parsed<(Seq<char>, Seq<char>, Seq<(Seq<char>, ValueModel)>, Seq<u32>)> {
    let first: Parsed<Seq<char>> = if version >= 2 {
        parse_text(b)
    } else {
        Ok((Seq::empty(), b))
    };
    match first {
        Err(e) => Err(e),
        Ok((namespace, b1)) => match parse_text(b1) {
            Err(e) => Err(e),
            Ok((id, b2)) => match parse_metadata(b2) {
                Err(e) => Err(e),
                Ok((metadata, b3)) => match parse_le(b3, 4) {
                    Err(e) => Err(e),
                    Ok((len, b4)) => if len != dimension {
                        Err(
                            Failure::InvalidFormat(
                                label + id + " has vector length "@ + decimal(len)
                                    + ", expected "@ + decimal(dimension),
                            ),
                        )
                    } else {
                        match parse_singles(len, Seq::empty(), b4) {
                            Err(e) => Err(e),
                            Ok((vector, rest)) => Ok(((namespace, id, metadata, vector), rest)),
                        }
                    },
                },
            },
        },
    }
}

/// The named vectors, sparse vector, spaces and expiry time of a record of a format version.
#[verifier::opaque]
pub open spec fn parse_record_tail(version: nat, dimension: nat, b: Seq<u8>) -> Parsed<
    (
        Seq<(Seq<char>, Seq<u32>)>,
        Seq<(Seq<char>, u32)>,
        Seq<(Seq<char>, Seq<Seq<u32>>)>,
        Option<u64>,
    ),
> {
    let named: Parsed<Seq<(Seq<char>, Seq<u32>)>> = if version >= 4 {
        parse_named(dimension, b)
    } else {
        Ok((Seq::empty(), b))
    };
    match named {
        Err(e) => Err(e),
        Ok((vectors, b1)) => {
            let second: Parsed<Seq<(Seq<char>, u32)>> = if version >= 3 {
                parse_sparse(b1)
            } else {
                Ok((Seq::empty(), b1))
            };
            match second {
                Err(e) => Err(e),
                Ok((sparse, b2)) => {
                    let third: Parsed<Seq<(Seq<char>, Seq<Seq<u32>>)>> = if version >= 5 {
                        parse_multi(b2)
                    } else {
                        Ok((Seq::empty(), b2))
                    };
                    match third {
                        Err(e) => Err(e),
                        Ok((multi, b3)) => {
                            let last: Parsed<Option<u64>> = if version >= 7 {
                                parse_expiry(b3)
                            } else {
                                Ok((None, b3))
                            };
                            match last {
                                Err(e) => Err(e),
                                Ok((expires_at, rest)) => Ok(
                                    ((vectors, sparse, multi, expires_at), rest),
                                ),
                            }
                        },
                    }
                },
            }
        },
    }
}

/// Reads a record of a format version. Version 2 added namespaces, 3 sparse vectors, 4 named
/// vectors, 5 token vectors and 7 expiry times.
pub open spec fn parse_record(
    version: nat,
    dimension: nat,
    label: Seq<char>,
    b: Seq<u8>,
) -> Parsed<RecordModel> {
    match parse_record_head(version, dimension, label, b) {
        Err(e) => Err(e),
        Ok(((namespace, id, metadata, vector), mid)) => match parse_record_tail(
            version,
            dimension,
            mid,
        ) {
            Err(e) => Err(e),
            Ok(((vectors, sparse, multi_vectors, expires_at), rest)) => Ok(
                (
                    RecordModel {
                        namespace,
                        id,
                        vector,
                        vectors,
                        sparse,
                        metadata,
                        multi_vectors,
                        expires_at,
                    },
                    rest,
                ),
            ),
        },
    }
}

/// Whether an expiry time is not the zero that stands for none.
pub open spec fn expiry_kept(expires_at: Option<u64>) -> bool {
    expires_at matches Some(t) ==> !double_eq(t, 0)
}

proof fn lemma_concat4(a: Seq<u8>, b: Seq<u8>, c: Seq<u8>, d: Seq<u8>, tail: Seq<u8>)
    ensures
        a + b + c + d + tail == a + (b + (c + (d + tail))),
{
    assert(a + b + c + d + tail =~= a + (b + (c + (d + tail))));
}

proof fn lemma_record_head_roundtrip(
    m: RecordModel,
    version: nat,
    dimension: nat,
    label: Seq<char>,
    tail: Seq<u8>,
)
    requires
        record_fits(m),
        record_ordered(m),
        m.vector.len() == dimension,
        version >= 2,
    ensures
        parse_record_head(version, dimension, label, enc_record_head(m) + tail) == Ok::<
            ((Seq<char>, Seq<char>, Seq<(Seq<char>, ValueModel)>, Seq<u32>), Seq<u8>),
            Failure,
        >(((m.namespace, m.id, m.metadata, m.vector), tail)),
{
    lemma_pow256_values();
    reveal(parse_record_head);
    reveal(enc_record_head);
    let b4 = enc_singles(m.vector) + tail;
    let b3 = enc_vector(m.vector) + tail;
    let b2 = enc_metadata(m.metadata) + b3;
    let b1 = enc_text(m.id) + b2;
    lemma_concat4(
        enc_text(m.namespace),
        enc_text(m.id),
        enc_metadata(m.metadata),
        enc_vector(m.vector),
        tail,
    );
    assert(b3 =~= le_bytes(m.vector.len(), 4) + b4);
    lemma_parse_text_roundtrip(m.namespace, b1);
    lemma_parse_text_roundtrip(m.id, b2);
    law_metadata_roundtrip(m.metadata, b3);
    lemma_parse_le_roundtrip(m.vector.len(), 4, b4);
    lemma_singles_roundtrip(m.vector, Seq::empty(), tail);
    assert(Seq::<u32>::empty() + m.vector =~= m.vector);
}

#[verifier::spinoff_prover]
proof fn lemma_tail_from_parts(
    version: nat,
    dimension: nat,
    b0: Seq<u8>,
    named: (Seq<(Seq<char>, Seq<u32>)>, Seq<u8>),
    sparse: (Seq<(Seq<char>, u32)>, Seq<u8>),
    multi: (Seq<(Seq<char>, Seq<Seq<u32>>)>, Seq<u8>),
    expiry: (Option<u64>, Seq<u8>),
)
    requires
        version >= 7,
        parse_named(dimension, b0) == Ok::<(Seq<(Seq<char>, Seq<u32>)>, Seq<u8>), Failure>(named),
        parse_sparse(named.1) == Ok::<(Seq<(Seq<char>, u32)>, Seq<u8>), Failure>(sparse),
        parse_multi(sparse.1) == Ok::<(Seq<(Seq<char>, Seq<Seq<u32>>)>, Seq<u8>), Failure>(multi),
        parse_expiry(multi.1) == Ok::<(Option<u64>, Seq<u8>), Failure>(expiry),
    ensures
        parse_record_tail(version, dimension, b0) == Ok::<
            (
                (
                    Seq<(Seq<char>, Seq<u32>)>,
                    Seq<(Seq<char>, u32)>,
                    Seq<(Seq<char>, Seq<Seq<u32>>)>,
                    Option<u64>,
                ),
                Seq<u8>,
            ),
            Failure,
        >(((named.0, sparse.0, multi.0, expiry.0), expiry.1)),
{
    reveal(parse_record_tail);
}

#[verifier::spinoff_prover]
proof fn lemma_record_tail_roundtrip(
    m: RecordModel,
    version: nat,
    dimension: nat,
    tail: Seq<u8>,
)
    requires
        record_fits(m),
        record_ordered(m),
        record_dimensioned(m, dimension),
        expiry_kept(m.expires_at),
        version >= 7,
    ensures
        parse_record_tail(version, dimension, enc_record_tail(m) + tail) == Ok::<
            (
                (
                    Seq<(Seq<char>, Seq<u32>)>,
                    Seq<(Seq<char>, u32)>,
                    Seq<(Seq<char>, Seq<Seq<u32>>)>,
                    Option<u64>,
                ),
                Seq<u8>,
            ),
            Failure,
        >(((m.vectors, m.sparse, m.multi_vectors, m.expires_at), tail)),
{
    lemma_pow256_values();
    reveal(enc_record_tail);
    let expiry = le_bytes(expiry_bits(m.expires_at) as nat, 8);
    let b3 = expiry + tail;
    let b2 = enc_multi(m.multi_vectors) + b3;
    let b1 = enc_sparse(m.sparse) + b2;
    lemma_concat4(enc_named(m.vectors), enc_sparse(m.sparse), enc_multi(m.multi_vectors), expiry, tail);
    law_named_roundtrip(m.vectors, dimension, b1);
    law_sparse_roundtrip(m.sparse, b2);
    law_multi_roundtrip(m.multi_vectors, b3);
    lemma_parse_le_roundtrip(expiry_bits(m.expires_at) as nat, 8, tail);
    lemma_tail_from_parts(
        version,
        dimension,
        enc_record_tail(m) + tail,
        (m.vectors, b1),
        (m.sparse, b2),
        (m.multi_vectors, b3),
        (m.expires_at, tail),
    );
}

/// A written record is read back, whatever follows it. An expiry time of zero is not: its stored
/// form stands for none.
pub proof fn law_record_roundtrip(
    m: RecordModel,
    version: nat,
    dimension: nat,
    label: Seq<char>,
    tail: Seq<u8>,
)
    requires
        record_fits(m),
        record_ordered(m),
        record_dimensioned(m, dimension),
        expiry_kept(m.expires_at),
        version >= 7,
    ensures
        parse_record(version, dimension, label, enc_record(m) + tail) == Ok::<
            (RecordModel, Seq<u8>),
            Failure,
        >((m, tail)),
{
    assert(enc_record(m) + tail =~= enc_record_head(m) + (enc_record_tail(m) + tail));
    lemma_record_head_roundtrip(m, version, dimension, label, enc_record_tail(m) + tail);
    lemma_record_tail_roundtrip(m, version, dimension, tail);
}

proof fn lemma_append4(start: Seq<u8>, a: Seq<u8>, b: Seq<u8>, c: Seq<u8>, d: Seq<u8>)
    ensures
        start + a + b + c + d == start + (a + b + c + d),
{
    assert(start + a + b + c + d =~= start + (a + b + c + d));
}

fn write_record_head(out: &mut Vec<u8>, record: &Record) -> (r: Result<(), VectLiteError>)
    ensures
        ({
            let m = record@;
            let fits = text_fits(m.namespace) && text_fits(m.id) && pairs_fit(m.metadata)
                && m.vector.len() <= 0xffff_ffff;
            &&& fits ==> r is Ok && final(out)@ == old(out)@ + enc_record_head(m)
            &&& !fits ==> (r matches Err(e) && e@ == too_long())
        }),
{
    let ghost start = out@;
    match write_text(out, record.namespace.as_str()) {
        Ok(()) => {},
        Err(e) => {
            return Err(e);
        },
    }
    match write_text(out, record.id.as_str()) {
        Ok(()) => {},
        Err(e) => {
            return Err(e);
        },
    }
    match write_metadata(out, &record.metadata) {
        Ok(()) => {},
        Err(e) => {
            return Err(e);
        },
    }
    let ghost before = out@;
    match write_len(out, record.vector.len()) {
        Ok(()) => {},
        Err(e) => {
            return Err(e);
        },
    }
    write_singles(out, &record.vector);
    proof {
        reveal(enc_record_head);
        let m = record@;
        assert(out@ =~= before + enc_vector(m.vector));
        lemma_append4(
            start,
            enc_text(m.namespace),
            enc_text(m.id),
            enc_metadata(m.metadata),
            enc_vector(m.vector),
        );
    }
    Ok(())
}

fn write_record_tail(out: &mut Vec<u8>, record: &Record) -> (r: Result<(), VectLiteError>)
    ensures
        ({
            let m = record@;
            let fits = named_fit(m.vectors) && sparse_fits(m.sparse) && multi_fit(m.multi_vectors);
            &&& fits ==> r is Ok && final(out)@ == old(out)@ + enc_record_tail(m)
            &&& !fits ==> (r matches Err(e) && e@ == too_long())
        }),
{
    let ghost start = out@;
    match write_named_vectors(out, &record.vectors) {
        Ok(()) => {},
        Err(e) => {
            return Err(e);
        },
    }
    match write_sparse_vector(out, &record.sparse) {
        Ok(()) => {},
        Err(e) => {
            return Err(e);
        },
    }
    match write_multi_vectors(out, &record.multi_vectors) {
        Ok(()) => {},
        Err(e) => {
            return Err(e);
        },
    }
    let bits: u64 = match record.expires_at {
        Some(t) => t,
        None => 0,
    };
    write_le(out, bits, 8);
    proof {
        reveal(enc_record_tail);
        let m = record@;
        lemma_append4(
            start,
            enc_named(m.vectors),
            enc_sparse(m.sparse),
            enc_multi(m.multi_vectors),
            le_bytes(expiry_bits(m.expires_at) as nat, 8),
        );
    }
    Ok(())
}

/// Appends a record.
pub fn write_record(out: &mut Vec<u8>, record: &Record) -> (r: Result<(), VectLiteError>)
    ensures
        record_fits(record@) ==> r is Ok && final(out)@ == old(out)@ + enc_record(record@),
        !record_fits(record@) ==> (r matches Err(e) && e@ == too_long()),
{
    match write_record_head(out, record) {
        Ok(()) => {},
        Err(e) => {
            return Err(e);
        },
    }
    let r = write_record_tail(out, record);
    proof {
        if r is Ok {
            assert(out@ =~= old(out)@ + enc_record(record@));
        }
    }
    r
}

/// The expiry time of a stored form.
pub fn expiry_from_bits(bits: u64) -> (r: Option<u64>)
    ensures
        r == expiry_of(bits),
{
    if equal(bits, 0) {
        None
    } else {
        Some(bits)
    }
}

/// Reads a record of a format version.
pub fn read_record(reader: &mut Reader, version: u16, dimension: usize, label: &str) -> (r: Result<
    Record,
    VectLiteError,
>)
    requires
        old(reader).wf(),
    ensures
        final(reader).wf(),
        agrees(
            r,
            final(reader).rest(),
            parse_record(version as nat, dimension as nat, label@, old(reader).rest()),
        ),
{
    proof {
        reveal(parse_record_head);
        reveal(parse_record_tail);
    }
    let namespace = if version >= 2 {
        match reader.text() {
            Ok(s) => s,
            Err(e) => {
                return Err(e);
            },
        }
    } else {
        String::new()
    };
    let id = match reader.text() {
        Ok(s) => s,
        Err(e) => {
            return Err(e);
        },
    };
    let metadata = match read_metadata(reader) {
        Ok(m) => m,
        Err(e) => {
            return Err(e);
        },
    };
    let len: u32 = match reader.u32() {
        Ok(n) => n,
        Err(e) => {
            return Err(e);
        },
    };
    if len as usize != dimension {
        let l = decimal_text(len as u64);
        let d = decimal_text(dimension as u64);
        let head = concat5(label, id.as_str(), " has vector length ", l.as_str(), ", expected ");
        return Err(VectLiteError::InvalidFormat(concat2(head.as_str(), d.as_str())));
    }
    let vector = match read_singles(reader, len as usize) {
        Ok(v) => v,
        Err(e) => {
            return Err(e);
        },
    };
    let ghost mid = reader.rest();
    let vectors: NamedVectors = if version >= 4 {
        match read_named_vectors(reader, dimension) {
            Ok(v) => v,
            Err(e) => {
                return Err(e);
            },
        }
    } else {
        OrderedMap::new()
    };
    let sparse: SparseVector = if version >= 3 {
        match read_sparse_vector(reader) {
            Ok(v) => v,
            Err(e) => {
                return Err(e);
            },
        }
    } else {
        OrderedMap::new()
    };
    let multi_vectors: MultiVectors = if version >= 5 {
        match read_multi_vectors(reader) {
            Ok(v) => v,
            Err(e) => {
                return Err(e);
            },
        }
    } else {
        OrderedMap::new()
    };
    let expires_at = if version >= 7 {
        match reader.u64() {
            Ok(bits) => expiry_from_bits(bits),
            Err(e) => {
                return Err(e);
            },
        }
    } else {
        None
    };
    Ok(Record { namespace, id, vector, vectors, sparse, metadata, multi_vectors, expires_at })
}

} // verus!
