//! The error that every decoder of this crate reports.

use vstd::prelude::*;
use vstd::std_specs::convert::FromSpecImpl;
use crate::parser::UnexpectedEof;

verus! {

/// Why a buffer could not be decoded.
#[derive(Debug, Copy, Clone, PartialEq, Eq, Structural)]
pub enum ParseError {
    /// The parts of the file contradict each other: a link to a section of
    /// the wrong kind, a size below a fixed header's, a number that does not
    /// fit the machine's address width, a missing section.
    MalformedInput,
    /// A read, a skip or a seek ran past the end of the buffer.
    UnexpectedEof,
}

impl ParseError {
    /// A short text that describes the error.
    pub fn message(&self) -> (text: String)
        ensures
            text@ == match *self {
                ParseError::MalformedInput => "Malformed input file"@,
                ParseError::UnexpectedEof => "Unexpected end of file"@,
            },
    {
        match self {
            ParseError::MalformedInput => "Malformed input file".to_owned(),
            ParseError::UnexpectedEof => "Unexpected end of file".to_owned(),
        }
    }
}

/// The same result with the cursor's error turned into
/// [`ParseError::UnexpectedEof`].
pub fn end_of_input<T>(r: Result<T, UnexpectedEof>) -> (out: Result<T, ParseError>)
    ensures
        out == match r {
            Ok(v) => Ok::<T, ParseError>(v),
            Err(_) => Err::<T, ParseError>(ParseError::UnexpectedEof),
        },
{
    match r {
        Ok(v) => Ok(v),
        Err(_) => Err(ParseError::UnexpectedEof),
    }
}

impl From<core::num::TryFromIntError> for ParseError {
    fn from(_e: core::num::TryFromIntError) -> (r: Self) {
        ParseError::MalformedInput
    }
}

impl FromSpecImpl<core::num::TryFromIntError> for ParseError {
    open spec fn obeys_from_spec() -> bool {
        true
    }

    open spec fn from_spec(_e: core::num::TryFromIntError) -> Self {
        ParseError::MalformedInput
    }
}

impl From<UnexpectedEof> for ParseError {
    fn from(_e: UnexpectedEof) -> (r: Self) {
        ParseError::UnexpectedEof
    }
}

impl FromSpecImpl<UnexpectedEof> for ParseError {
    open spec fn obeys_from_spec() -> bool {
        true
    }

    open spec fn from_spec(_e: UnexpectedEof) -> Self {
        ParseError::UnexpectedEof
    }
}

} // verus!
