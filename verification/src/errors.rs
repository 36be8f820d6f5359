//! The error of the query parser.

use vstd::prelude::*;
use vstd::string::StringExecFns;

verus! {

/// A query could not be parsed.
#[derive(Debug)]
pub struct ParsingError {
    pub message: String,
}

impl ParsingError {
    /// An error with the given message.
    pub fn new(message: &str) -> (error: Self)
        ensures
            error.message@ == message@,
    {
        Self { message: message.to_owned() }
    }

    /// The error as a line of text: the word `ParsingError`, then the message.
    pub fn to_string(&self) -> (text: String)
        ensures
            text@ == "ParsingError: "@ + self.message@,
    {
        "ParsingError: ".to_owned().concat(self.message.as_str())
    }
}

impl From<String> for ParsingError {
    fn from(error: String) -> (result: Self) {
        ParsingError { message: error }
    }
}

impl vstd::std_specs::convert::FromSpecImpl<String> for ParsingError {
    open spec fn obeys_from_spec() -> bool {
        true
    }

    open spec fn from_spec(error: String) -> Self {
        ParsingError { message: error }
    }
}

} // verus!
