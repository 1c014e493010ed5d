//! Errors.
use vstd::prelude::*;
use crate::order::Duplicate;
use crate::text::{concat2, concat3, concat5, decimal, decimal_text};

verus! {

/// What went wrong.
#[derive(Debug)]
pub enum VectLiteError {
    /// An input or output operation failed; holds its message.
    Io(String),
    InvalidFormat(String),
    DimensionMismatch { expected: usize, found: usize },
    DuplicateId { namespace: String, id: String },
    ReadOnly,
    LockContention(String),
}

/// The mathematical value of an error.
pub enum Failure {
    Io(Seq<char>),
    InvalidFormat(Seq<char>),
    DimensionMismatch { expected: usize, found: usize },
    DuplicateId { namespace: Seq<char>, id: Seq<char> },
    ReadOnly,
    LockContention(Seq<char>),
}

impl DeepView for VectLiteError {
    type V = Failure;

    open spec fn deep_view(&self) -> Failure {
        match *self {
            VectLiteError::Io(m) => Failure::Io(m@),
            VectLiteError::InvalidFormat(m) => Failure::InvalidFormat(m@),
            VectLiteError::DimensionMismatch { expected, found } => Failure::DimensionMismatch {
                expected,
                found,
            },
            VectLiteError::DuplicateId { namespace, id } => Failure::DuplicateId {
                namespace: namespace@,
                id: id@,
            },
            VectLiteError::ReadOnly => Failure::ReadOnly,
            VectLiteError::LockContention(m) => Failure::LockContention(m@),
        }
    }
}

impl VectLiteError {
    pub open spec fn view(&self) -> Failure {
        self.deep_view()
    }
}

/// The text of an error.
pub open spec fn failure_text(f: Failure) -> Seq<char> {
    match f {
        Failure::Io(m) => "io error: "@ + m,
        Failure::InvalidFormat(m) => "invalid .vdb format: "@ + m,
        Failure::DimensionMismatch { expected, found } => "vector dimension mismatch: expected "@
            + decimal(expected as nat) + ", found "@ + decimal(found as nat)
            + ". If you changed embedding models, delete the existing .vdb file or use a different path to create a new database with dimension "@
            + decimal(found as nat),
        Failure::DuplicateId { namespace, id } => if namespace.len() == 0 {
            "a record with id '"@ + id + "' already exists"@
        } else {
            "a record with id '"@ + id + "' already exists in namespace '"@ + namespace + "'"@
        },
        Failure::ReadOnly => "database is opened in read-only mode"@,
        Failure::LockContention(m) => "lock contention: "@ + m,
    }
}

/// What an error is about, without the words that say which error it is.
pub open spec fn failure_detail(f: Failure) -> Seq<char> {
    match f {
        Failure::Io(m) => m,
        Failure::InvalidFormat(m) => m,
        Failure::DimensionMismatch { expected, found } => "expected "@ + decimal(expected as nat)
            + ", found "@ + decimal(found as nat),
        Failure::DuplicateId { namespace, id } => if namespace.len() == 0 {
            "id '"@ + id + "' already exists"@
        } else {
            "id '"@ + id + "' already exists in namespace '"@ + namespace + "'"@
        },
        Failure::ReadOnly => Seq::empty(),
        Failure::LockContention(m) => m,
    }
}

impl VectLiteError {
    /// What the error is about, for callers that name the error themselves.
    pub fn detail(&self) -> (r: String)
        ensures
            r@ == failure_detail(self@),
    {
        match self {
            VectLiteError::Io(m) => m.duplicate(),
            VectLiteError::InvalidFormat(m) => m.duplicate(),
            VectLiteError::DimensionMismatch { expected, found } => {
                let e = decimal_text(*expected as u64);
                let f = decimal_text(*found as u64);
                let head = concat3("expected ", e.as_str(), ", found ");
                concat2(head.as_str(), f.as_str())
            },
            VectLiteError::DuplicateId { namespace, id } => {
                if namespace.as_str().is_empty() {
                    concat3("id '", id.as_str(), "' already exists")
                } else {
                    concat5(
                        "id '",
                        id.as_str(),
                        "' already exists in namespace '",
                        namespace.as_str(),
                        "'",
                    )
                }
            },
            VectLiteError::ReadOnly => String::new(),
            VectLiteError::LockContention(m) => m.duplicate(),
        }
    }

    /// The text shown to a user.
    pub fn message(&self) -> (r: String)
        ensures
            r@ == failure_text(self@),
    {
        match self {
            VectLiteError::Io(m) => concat2("io error: ", m.as_str()),
            VectLiteError::InvalidFormat(m) => concat2("invalid .vdb format: ", m.as_str()),
            VectLiteError::DimensionMismatch { expected, found } => {
                let e = decimal_text(*expected as u64);
                let f = decimal_text(*found as u64);
                let head = concat5(
                    "vector dimension mismatch: expected ",
                    e.as_str(),
                    ", found ",
                    f.as_str(),
                    ". If you changed embedding models, delete the existing .vdb file or use a different path to create a new database with dimension ",
                );
                concat2(head.as_str(), f.as_str())
            },
            VectLiteError::DuplicateId { namespace, id } => {
                if namespace.as_str().is_empty() {
                    concat3("a record with id '", id.as_str(), "' already exists")
                } else {
                    concat5(
                        "a record with id '",
                        id.as_str(),
                        "' already exists in namespace '",
                        namespace.as_str(),
                        "'",
                    )
                }
            },
            VectLiteError::ReadOnly => "database is opened in read-only mode".to_owned(),
            VectLiteError::LockContention(m) => concat2("lock contention: ", m.as_str()),
        }
    }
}

/// An `InvalidFormat` error with a fixed message.
pub(crate) fn invalid(message: &str) -> (r: VectLiteError)
    ensures
        r@ == Failure::InvalidFormat(message@),
{
    VectLiteError::InvalidFormat(message.to_owned())
}

} // verus!
