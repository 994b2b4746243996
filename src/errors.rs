use vstd::prelude::*;

verus! {

/// An error raised while reading a board, a move or another textual value.
#[derive(Debug)]
pub struct ParseError {
    pub message: String,
}

pub type ParseResult<T> = Result<T, ParseError>;

impl ParseError {
    pub fn new(message: &str) -> (r: ParseError)
        ensures
            r.message@ == message@,
    {
        ParseError { message: message.to_owned() }
    }

    /// The human-readable description of the error.
    pub fn message(&self) -> (r: String)
        ensures
            r@ == self.message@,
    {
        self.message.as_str().to_owned()
    }
}

} // verus!
