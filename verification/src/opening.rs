//! How a database is opened for a caller that may or may not know it.
use vstd::prelude::*;
use crate::error::{Failure, VectLiteError};
use crate::float_bits::{double_finite, double_is_finite, double_lt, less};
use crate::text::{concat2, concat3};

verus! {

/// What is done to open a database.
#[derive(Clone, Copy, Debug, PartialEq, Eq, Structural)]
pub enum Opening {
    /// It is opened for reading alone.
    Read,
    /// It is opened, whatever its dimension.
    Open,
    /// It is opened, and its dimension has to be the given one.
    OpenAs(usize),
    /// It is made with the given dimension.
    Create(usize),
}

/// What is done to open a file that is there or not.
pub open spec fn opening_of(present: bool, dimension: Option<usize>, read_only: bool) -> Result<
    Opening,
    Seq<char>,
> {
    if read_only {
        if present {
            Ok(Opening::Read)
        } else {
            Err("cannot open non-existent database in read-only mode"@)
        }
    } else {
        match (present, dimension) {
            (true, Some(n)) => Ok(Opening::OpenAs(n)),
            (true, None) => Ok(Opening::Open),
            (false, Some(n)) => Ok(Opening::Create(n)),
            (false, None) => Err("dimension is required when creating a new database"@),
        }
    }
}

/// Decides how a file is opened that is there or not.
pub fn plan_opening(present: bool, dimension: Option<usize>, read_only: bool) -> (r: Result<
    Opening,
    String,
>)
    ensures
        match opening_of(present, dimension, read_only) {
            Ok(o) => r == Ok::<Opening, String>(o),
            Err(m) => r matches Err(e) && e@ == m,
        },
{
    if read_only {
        if present {
            return Ok(Opening::Read);
        }
        return Err("cannot open non-existent database in read-only mode".to_owned());
    }
    match (present, dimension) {
        (true, Some(n)) => Ok(Opening::OpenAs(n)),
        (true, None) => Ok(Opening::Open),
        (false, Some(n)) => Ok(Opening::Create(n)),
        (false, None) => Err("dimension is required when creating a new database".to_owned()),
    }
}

/// What is done when a lock is held by another.
#[derive(Clone, Copy, Debug, PartialEq, Eq, Structural)]
pub enum LockStep {
    /// It is not waited for.
    Refuse,
    /// It was waited for as long as it may be.
    TimedOut,
    /// It is tried again after a pause.
    Wait,
}

/// Decides what is done when a lock is held by another after `waited` nanoseconds of waiting;
/// `limit` is how many may be waited, where any may.
pub fn lock_step(limit: Option<u128>, waited: u128) -> (r: LockStep)
    ensures
        r == match limit {
            None => LockStep::Refuse,
            Some(n) => if waited >= n {
                LockStep::TimedOut
            } else {
                LockStep::Wait
            },
        },
{
    match limit {
        None => LockStep::Refuse,
        Some(n) => if waited >= n {
            LockStep::TimedOut
        } else {
            LockStep::Wait
        },
    }
}

/// The name of a lock that others may share or that nobody may.
pub open spec fn lock_name(shared: bool) -> Seq<char> {
    if shared {
        "shared"@
    } else {
        "exclusive"@
    }
}

/// The error for a lock on `path` that was not got: `reason` says why, and `waited` for how many
/// seconds it was waited for, where it was.
pub fn lock_refused(shared: bool, path: &str, waited: Option<&str>, reason: &str) -> (r:
    VectLiteError)
    ensures
        r@ == Failure::LockContention(
            "could not acquire "@ + lock_name(shared) + " lock on '"@ + path@ + "'"@ + (
            match waited {
                Some(seconds) => " after "@ + seconds@ + "s"@,
                None => Seq::<char>::empty(),
            }) + ": "@ + reason@,
        ),
{
    let name: &str = if shared {
        "shared"
    } else {
        "exclusive"
    };
    let wanted = concat3("could not acquire ", name, " lock on '");
    let place = concat3(wanted.as_str(), path, "'");
    let tried = match waited {
        Some(seconds) => {
            let time = concat3(" after ", seconds, "s");
            concat2(place.as_str(), time.as_str())
        },
        None => place,
    };
    let message = concat3(tried.as_str(), ": ", reason);
    proof {
        let said = match waited {
            Some(seconds) => " after "@ + seconds@ + "s"@,
            None => Seq::<char>::empty(),
        };
        assert(tried@ =~= "could not acquire "@ + lock_name(shared) + " lock on '"@ + path@ + "'"@
            + said);
        assert(message@ =~= tried@ + ": "@ + reason@);
    }
    VectLiteError::LockContention(message)
}

/// Whether a number of seconds can be waited for: it is finite and not negative.
pub open spec fn waitable(seconds: u64) -> bool {
    double_is_finite(seconds) && !double_lt(seconds, 0)
}

/// Refuses a number of seconds that cannot be waited for; `label` says what it is for.
pub fn check_timeout(seconds: u64, label: &str) -> (r: Result<(), VectLiteError>)
    ensures
        waitable(seconds) ==> r is Ok,
        !waitable(seconds) ==> (r matches Err(e) && e@ == Failure::InvalidFormat(
            label@ + " must be a finite, non-negative number of seconds"@,
        )),
{
    if !double_finite(seconds) || less(seconds, 0) {
        return Err(
            VectLiteError::InvalidFormat(
                concat2(label, " must be a finite, non-negative number of seconds"),
            ),
        );
    }
    Ok(())
}

} // verus!
