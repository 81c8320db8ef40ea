//! A simple message-carrying error type for callers that want a single
//! human-readable description rather than a structured lexical error.

use vstd::prelude::*;

verus! {

/// An error value holding a human-readable description.
#[derive(Debug)]
pub struct MietteError {
    details: String,
}

impl View for MietteError {
    type V = Seq<char>;

    closed spec fn view(&self) -> Seq<char> {
        self.details@
    }
}

impl MietteError {
    /// Wraps a message into an error value.
    pub fn new(msg: String) -> (r: MietteError)
        ensures
            r@ == msg@,
    {
        MietteError { details: msg }
    }

    /// The human-readable description this error carries.
    pub fn message(&self) -> (r: &String)
        ensures
            r@ == self@,
    {
        &self.details
    }
}

} // verus!
