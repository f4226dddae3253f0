//! Why a pass over a document can stop.

use vstd::prelude::*;

verus! {

/// Why a processing pass stopped.
#[derive(Clone, Copy, Debug, PartialEq, Eq, Structural)]
pub enum ErrorType {
    /// A byte was needed and the input had none left.
    UnexpectedEnd,
}

pub type ProcessingResult<T> = Result<T, ErrorType>;

impl ErrorType {
    /// A short description for diagnostics.
    pub fn message(&self) -> (text: &'static str)
        ensures
            text@ == "unexpected end of input"@,
    {
        match self {
            ErrorType::UnexpectedEnd => "unexpected end of input",
        }
    }
}

} // verus!
