//! What can go wrong while items are inserted.

use std::collections::TryReserveError;
use vstd::prelude::*;
use vstd::std_specs::convert::FromSpecImpl;

verus! {

/// The one recoverable failure: storage could not be grown, for the pending items of an
/// inserter or for the bucket list of a buffer.
#[derive(Debug)]
pub struct InsertionError(TryReserveError);

impl InsertionError {
    /// The failed reservation behind this error.
    pub closed spec fn reservation(&self) -> TryReserveError {
        self.0
    }

    /// The failed reservation that caused this error.
    pub fn cause(&self) -> (inner: Option<&TryReserveError>)
        ensures
            inner == Some(&self.reservation()),
    {
        Some(&self.0)
    }

    /// The message for this error.
    pub fn to_string(&self) -> (message: String)
        ensures
            message@ == "Could not add items to accumulator"@,
    {
        "Could not add items to accumulator".to_owned()
    }
}

impl From<TryReserveError> for InsertionError {
    fn from(inner: TryReserveError) -> (error: Self)
        ensures
            error.reservation() == inner,
    {
        InsertionError(inner)
    }
}

impl FromSpecImpl<TryReserveError> for InsertionError {
    open spec fn obeys_from_spec() -> bool {
        true
    }

    closed spec fn from_spec(inner: TryReserveError) -> Self {
        InsertionError(inner)
    }
}

/// The result of an insertion: on failure, the error comes with what could not be inserted.
pub type InsertionResult<T> = Result<(), (InsertionError, T)>;

} // verus!
