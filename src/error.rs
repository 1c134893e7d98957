//! The two error families: failures while parsing and failures while reducing.
use vstd::prelude::*;

verus! {

/// A failure while parsing program text or operator definitions.
#[derive(Debug)]
pub struct ParseError(pub String);

impl ParseError {
    pub fn new(message: &str) -> (r: Self)
        ensures
            r.0@ == message@,
    {
        ParseError(message.to_owned())
    }

    /// The text shown to a user.
    pub fn message(&self) -> (r: String)
        ensures
            r@ == self.0@,
    {
        self.0.clone()
    }
}

/// A failure while reducing a program.
#[derive(Debug)]
pub struct RuntimeError(pub String);

impl RuntimeError {
    pub fn new(message: &str) -> (r: Self)
        ensures
            r.0@ == message@,
    {
        RuntimeError(message.to_owned())
    }

    /// The text shown to a user.
    pub fn message(&self) -> (r: String)
        ensures
            r@ == self.0@,
    {
        self.0.clone()
    }
}

} // verus!
