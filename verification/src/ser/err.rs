//! The encode-side error type of a later revision of the interface.

use vstd::prelude::*;

verus! {

/// What can go wrong while encoding: only a failure reported by the
/// caller's own data model, carried as text.
#[derive(Debug, PartialEq, Eq)]
pub enum BencodingSerializeError {
    /// A failure reported while walking the caller's data model.
    SerdeSerializeError(String),
}

impl BencodingSerializeError {
    /// The text carried by the error.
    pub fn message(&self) -> (r: &String)
        ensures
            self matches BencodingSerializeError::SerdeSerializeError(m) && r@ == m@,
    {
        match self {
            Self::SerdeSerializeError(m) => m,
        }
    }
}

} // verus!
