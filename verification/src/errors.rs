//! Store-layer errors.
//!
//! Absence is never an error: membership tests and remove-if-absent report
//! it through their return value. These errors cover malformed stored
//! values, invariant violations such as a counter underflow, and records
//! that are owed but missing.

use vstd::prelude::*;

verus! {

/// An error from the store layer.
#[derive(Debug, PartialEq, Eq)]
pub enum StdError {
    /// A generic error with a message.
    GenericErr { msg: String },
    /// A stored value could not be decoded.
    ParseErr { target: String, msg: String },
    /// A record that was expected to exist is missing.
    NotFound { kind: String },
}

impl StdError {
    /// A human-readable description of the error.
    pub fn message(&self) -> (r: String)
        ensures
            match self {
                StdError::GenericErr { msg } => r@ == msg@,
                StdError::ParseErr { target, msg } => r@ == "Error parsing into type "@ + target@
                    + ": "@ + msg@,
                StdError::NotFound { kind } => r@ == "not found: "@ + kind@,
            },
    {
        match self {
            StdError::GenericErr { msg } => msg.clone(),
            StdError::ParseErr { target, msg } => String::from_str("Error parsing into type ")
                .concat(target.as_str())
                .concat(": ")
                .concat(msg.as_str()),
            StdError::NotFound { kind } => String::from_str("not found: ").concat(kind.as_str()),
        }
    }
}

} // verus!
