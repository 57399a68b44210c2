//! The error of the library.
use vstd::prelude::*;

verus! {

/// What can go wrong while parsing or drawing.
#[derive(Debug)]
pub enum LiteParseError {
    /// The configuration asks for something that is not there.
    Config(String),
    /// An image could not be encoded.
    Image(String),
    /// Anything else.
    Other(String),
}

impl LiteParseError {
    /// The text that describes the error.
    pub open spec fn description(self) -> Seq<char> {
        match self {
            LiteParseError::Config(text) => text@,
            LiteParseError::Image(text) => text@,
            LiteParseError::Other(text) => text@,
        }
    }

    /// The text that describes the error.
    pub fn message(&self) -> (r: String)
        ensures
            r@ == self.description(),
    {
        match self {
            LiteParseError::Config(text) => text.clone(),
            LiteParseError::Image(text) => text.clone(),
            LiteParseError::Other(text) => text.clone(),
        }
    }
}

} // verus!
