//! The error taxonomy of the engine.

use vstd::prelude::*;

verus! {

/// What can go wrong when reading from the repository model.
///
/// `NotFound` reports a hash with no object stored under it; a
/// `SerializationError` reports stored bytes that do not parse as the
/// structure expected of them.
#[derive(Clone, Copy, Debug, PartialEq, Eq, Structural)]
pub enum VcsError {
    NotFound,
    SerializationError,
}

impl VcsError {
    /// A short human-readable description, for drivers that print errors.
    pub fn describe(&self) -> (r: &'static str)
        ensures
            *self is NotFound ==> r@ == "not found"@,
            *self is SerializationError ==> r@ == "serialization error"@,
    {
        match self {
            VcsError::NotFound => "not found",
            VcsError::SerializationError => "serialization error",
        }
    }
}

} // verus!
