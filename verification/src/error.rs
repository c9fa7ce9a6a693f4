//! Errors of the wire codec.

use vstd::prelude::*;

verus! {

/// What went wrong while a term was put on, or taken off, the wire.
#[derive(Debug, Clone)]
pub enum Error {
    /// A free-form failure.
    Message(String),
    /// An identifier or a string literal is longer than the runtime allows.
    LimitExceeded(String),
}

impl Error {
    /// The text carried by the error.
    pub open spec fn text(self) -> Seq<char> {
        match self {
            Error::Message(s) => s@,
            Error::LimitExceeded(s) => s@,
        }
    }

    /// The text carried by the error, as a fresh string.
    pub fn to_text(&self) -> (r: String)
        ensures
            r@ == self.text(),
    {
        match self {
            Error::Message(s) => s.clone(),
            Error::LimitExceeded(s) => s.clone(),
        }
    }
}

} // verus!
