//! The ways in which an operation of this crate can fail.

use vstd::prelude::*;

verus! {

/// Why an operation was refused.
#[derive(Clone, Copy, Debug, PartialEq, Eq, Structural)]
pub enum Error {
    /// A curve was asked for on a side that is not a power of two, or on a
    /// grid that is not square.
    InvalidDimensions,
    /// More bytes were to be trimmed than the buffer holds.
    InvalidRange,
}

impl Error {
    /// A short description of the failure, for diagnostics.
    pub fn message(&self) -> (text: &'static str)
        ensures
            text@ == (match *self {
                Error::InvalidDimensions => "grid must be square with a power of two side"@,
                Error::InvalidRange => "trim lengths exceed the buffer length"@,
            }),
    {
        match self {
            Error::InvalidDimensions => "grid must be square with a power of two side",
            Error::InvalidRange => "trim lengths exceed the buffer length",
        }
    }
}

} // verus!
