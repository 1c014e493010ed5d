//! Which records a database takes.
use vstd::prelude::*;
use crate::ann::names_valid;
use crate::error::{invalid, Failure, VectLiteError};
use crate::record::{MultiVectors, NamedVectors, Record, RecordModel};
use crate::record_codec::{record_dimensioned, token_dim, uniform};
use crate::text::{concat2, concat3, decimal, decimal_text};

verus! {

/// What is wrong with the length of a vector, if anything.
pub open spec fn vector_defect(len: nat, dimension: nat) -> Option<Failure> {
    if len != dimension {
        Some(Failure::DimensionMismatch { expected: dimension as usize, found: len as usize })
    } else {
        None
    }
}

/// What is wrong with named vectors from position `i` on, if anything.
pub open spec fn named_defect(
    vectors: Seq<(Seq<char>, Seq<u32>)>,
    dimension: nat,
    i: int,
) -> Option<Failure>
    decreases vectors.len() - i,
{
    if i < 0 || i >= vectors.len() {
        None
    } else if vectors[i].0.len() == 0 {
        Some(Failure::InvalidFormat("named vectors must not use an empty name"@))
    } else if vectors[i].1.len() != dimension {
        vector_defect(vectors[i].1.len(), dimension)
    } else {
        named_defect(vectors, dimension, i + 1)
    }
}

/// The error for a token vector without components.
pub open spec fn empty_token(space: Seq<char>) -> Failure {
    Failure::InvalidFormat(
        "multi-vector space '"@ + space + "' contains an empty token vector"@,
    )
}

/// The error for token vectors of several dimensions.
pub open spec fn uneven_tokens(space: Seq<char>, expected: nat, found: nat) -> Failure {
    Failure::InvalidFormat(
        ("multi-vector space '"@ + space + "' has inconsistent token dimensions: expected "@)
            + decimal(expected) + ", found "@ + decimal(found),
    )
}

/// What is wrong with the token vectors of a space from position `j` on, if anything. Where
/// `every` is set, an empty token vector is reported wherever it stands, and else only in the
/// first place.
pub open spec fn tokens_defect(
    space: Seq<char>,
    tokens: Seq<Seq<u32>>,
    every: bool,
    j: int,
) -> Option<Failure>
    decreases tokens.len() - j,
{
    if j < 0 || j >= tokens.len() {
        None
    } else if tokens[j].len() == 0 && (every || j == 0) {
        Some(empty_token(space))
    } else if tokens[j].len() != token_dim(tokens) {
        Some(uneven_tokens(space, token_dim(tokens), tokens[j].len()))
    } else {
        tokens_defect(space, tokens, every, j + 1)
    }
}

/// What is wrong with spaces of token vectors from position `i` on, if anything.
pub open spec fn spaces_defect(
    spaces: Seq<(Seq<char>, Seq<Seq<u32>>)>,
    every: bool,
    i: int,
) -> Option<Failure>
    decreases spaces.len() - i,
{
    if i < 0 || i >= spaces.len() {
        None
    } else if spaces[i].0.len() == 0 {
        Some(Failure::InvalidFormat("multi-vector space names must not be empty"@))
    } else {
        match tokens_defect(spaces[i].0, spaces[i].1, every, 0) {
            Some(f) => Some(f),
            None => spaces_defect(spaces, every, i + 1),
        }
    }
}

/// What is wrong with the vectors of a record, if anything.
pub open spec fn record_defect(m: RecordModel, dimension: nat, every: bool) -> Option<Failure> {
    match vector_defect(m.vector.len(), dimension) {
        Some(f) => Some(f),
        None => match named_defect(m.vectors, dimension, 0) {
            Some(f) => Some(f),
            None => spaces_defect(m.multi_vectors, every, 0),
        },
    }
}

/// Whether a result reports a defect.
pub open spec fn reports(r: Result<(), VectLiteError>, defect: Option<Failure>) -> bool {
    match defect {
        Some(f) => r matches Err(e) && e@ == f,
        None => r is Ok,
    }
}

fn mismatch(expected: usize, found: usize) -> (r: VectLiteError)
    ensures
        r@ == (Failure::DimensionMismatch { expected, found }),
{
    VectLiteError::DimensionMismatch { expected, found }
}

/// Checks the length of a vector.
pub fn validate_vector(vector: &Vec<u32>, dimension: usize) -> (r: Result<(), VectLiteError>)
    ensures
        reports(r, vector_defect(vector@.len(), dimension as nat)),
{
    if vector.len() != dimension {
        Err(mismatch(dimension, vector.len()))
    } else {
        Ok(())
    }
}

fn validate_named(vectors: &NamedVectors, dimension: usize) -> (r: Result<(), VectLiteError>)
    ensures
        reports(r, named_defect(vectors.pairs(), dimension as nat, 0)),
{
    let ghost all = vectors.pairs();
    let mut i: usize = 0;
    while i < vectors.len()
        invariant
            i <= all.len(),
            all == vectors.pairs(),
            named_defect(all, dimension as nat, i as int) == named_defect(
                all,
                dimension as nat,
                0,
            ),
        decreases all.len() - i,
    {
        if vectors.key_at(i).as_str().is_empty() {
            return Err(invalid("named vectors must not use an empty name"));
        }
        let v = vectors.value_at(i);
        if v.len() != dimension {
            return Err(mismatch(dimension, v.len()));
        }
        i += 1;
    }
    Ok(())
}

fn empty_token_error(space: &str) -> (r: VectLiteError)
    ensures
        r@ == empty_token(space@),
{
    VectLiteError::InvalidFormat(
        concat3("multi-vector space '", space, "' contains an empty token vector"),
    )
}

fn uneven_tokens_error(space: &str, expected: usize, found: usize) -> (r: VectLiteError)
    ensures
        r@ == uneven_tokens(space@, expected as nat, found as nat),
{
    let head = concat3(
        "multi-vector space '",
        space,
        "' has inconsistent token dimensions: expected ",
    );
    let e = decimal_text(expected as u64);
    let f = decimal_text(found as u64);
    let tail = concat3(e.as_str(), ", found ", f.as_str());
    let text = concat2(head.as_str(), tail.as_str());
    proof {
        assert(text@ =~= ("multi-vector space '"@ + space@
            + "' has inconsistent token dimensions: expected "@) + decimal(expected as nat)
            + ", found "@ + decimal(found as nat));
    }
    VectLiteError::InvalidFormat(text)
}

fn validate_tokens(space: &str, tokens: &Vec<Vec<u32>>, every: bool) -> (r: Result<
    (),
    VectLiteError,
>)
    ensures
        reports(r, tokens_defect(space@, tokens.deep_view(), every, 0)),
{
    let ghost all = tokens.deep_view();
    let mut j: usize = 0;
    while j < tokens.len()
        invariant
            j <= tokens@.len(),
            all == tokens.deep_view(),
            tokens_defect(space@, all, every, j as int) == tokens_defect(space@, all, every, 0),
        decreases tokens@.len() - j,
    {
        let n: usize = tokens[j].len();
        let first: usize = tokens[0].len();
        proof {
            assert(all[j as int] == tokens@[j as int].deep_view());
            assert(all[0] == tokens@[0].deep_view());
        }
        if n == 0 && (every || j == 0) {
            return Err(empty_token_error(space));
        }
        if n != first {
            return Err(uneven_tokens_error(space, first, n));
        }
        j += 1;
    }
    Ok(())
}

fn validate_spaces(spaces: &MultiVectors, every: bool) -> (r: Result<(), VectLiteError>)
    ensures
        reports(r, spaces_defect(spaces.pairs(), every, 0)),
{
    let ghost all = spaces.pairs();
    let mut i: usize = 0;
    while i < spaces.len()
        invariant
            i <= all.len(),
            all == spaces.pairs(),
            spaces_defect(all, every, i as int) == spaces_defect(all, every, 0),
        decreases all.len() - i,
    {
        let name = spaces.key_at(i);
        if name.as_str().is_empty() {
            return Err(invalid("multi-vector space names must not be empty"));
        }
        match validate_tokens(name.as_str(), spaces.value_at(i), every) {
            Ok(()) => {},
            Err(e) => {
                return Err(e);
            },
        }
        i += 1;
    }
    Ok(())
}

/// Checks the vectors of a record.
pub fn validate_record(record: &Record, dimension: usize, every: bool) -> (r: Result<
    (),
    VectLiteError,
>)
    ensures
        reports(r, record_defect(record@, dimension as nat, every)),
{
    match validate_vector(&record.vector, dimension) {
        Ok(()) => {},
        Err(e) => {
            return Err(e);
        },
    }
    match validate_named(&record.vectors, dimension) {
        Ok(()) => {},
        Err(e) => {
            return Err(e);
        },
    }
    validate_spaces(&record.multi_vectors, every)
}

proof fn lemma_named_valid(vectors: Seq<(Seq<char>, Seq<u32>)>, dimension: nat, i: int)
    requires
        0 <= i,
        named_defect(vectors, dimension, i) is None,
    ensures
        forall|k: int|
            i <= k < vectors.len() ==> (#[trigger] vectors[k]).0.len() > 0 && vectors[k].1.len()
                == dimension,
    decreases vectors.len() - i,
{
    if i < vectors.len() {
        lemma_named_valid(vectors, dimension, i + 1);
    }
}

proof fn lemma_tokens_even(space: Seq<char>, tokens: Seq<Seq<u32>>, every: bool, j: int)
    requires
        0 <= j,
        tokens_defect(space, tokens, every, j) is None,
    ensures
        forall|k: int| j <= k < tokens.len() ==> (#[trigger] tokens[k]).len() == token_dim(tokens),
    decreases tokens.len() - j,
{
    if j < tokens.len() {
        lemma_tokens_even(space, tokens, every, j + 1);
    }
}

proof fn lemma_spaces_even(spaces: Seq<(Seq<char>, Seq<Seq<u32>>)>, every: bool, i: int)
    requires
        0 <= i,
        spaces_defect(spaces, every, i) is None,
    ensures
        forall|k: int| i <= k < spaces.len() ==> uniform((#[trigger] spaces[k]).1),
    decreases spaces.len() - i,
{
    if i < spaces.len() {
        lemma_tokens_even(spaces[i].0, spaces[i].1, every, 0);
        lemma_spaces_even(spaces, every, i + 1);
    }
}

/// A record that a database takes suits its dimension.
pub proof fn law_valid_record(m: RecordModel, dimension: nat, every: bool)
    requires
        record_defect(m, dimension, every) is None,
    ensures
        record_dimensioned(m, dimension),
        names_valid(m),
{
    lemma_named_valid(m.vectors, dimension, 0);
    lemma_spaces_even(m.multi_vectors, every, 0);
}

} // verus!
