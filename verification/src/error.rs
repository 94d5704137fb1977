//! The single error taxonomy of the storage contract.

use vstd::prelude::*;

verus! {

/// Every way an operation of the storage contract can fail.
#[derive(Clone, Copy, Debug, PartialEq, Eq, Structural)]
pub enum Error {
    /// The store could not be reached or the atomic unit did not commit.
    /// Nothing was written; the whole call may be repeated.
    StoreUnavailable,
    /// A value at rest has no in-memory representation (corrupt or
    /// out-of-range data). Repeating the call does not help.
    ConversionError,
    /// A value handed in does not have the shape the store can hold.
    /// Indicates a mistake on the caller's side.
    ConstraintViolation,
}

impl Error {
    /// Whether repeating the failed call can succeed without any change to
    /// its input or to the stored data.
    pub fn is_retryable(&self) -> (r: bool)
        ensures
            r == (*self == Error::StoreUnavailable),
    {
        match self {
            Error::StoreUnavailable => true,
            Error::ConversionError => false,
            Error::ConstraintViolation => false,
        }
    }
}

} // verus!
