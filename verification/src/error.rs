//! What can go wrong while a cookie file is read.
use vstd::prelude::*;

verus! {

/// Why a line was rejected.
#[derive(Clone, Copy, Debug, PartialEq, Eq, Structural)]
pub enum SyntaxErrorKind {
    /// The line is neither blank nor a comment, and splitting it at tabs gave
    /// `found` fields where seven are needed.
    FieldCount { found: usize },
    /// The fifth field is not a signed decimal integer of 64 bits.
    Expiration,
}

/// Where a line stops being well-formed, and why.
#[derive(Clone, Copy, Debug, PartialEq, Eq, Structural)]
pub struct LineError {
    /// Bytes of the line before the place at fault: the start of the
    /// expiration field; the end of the line where fields are missing; the
    /// tab behind the seventh field where there are too many.
    pub offset: usize,
    pub kind: SyntaxErrorKind,
}

/// The first line of the input that was rejected, where in it, and why.
#[derive(Clone, Copy, Debug, PartialEq, Eq, Structural)]
pub struct SyntaxError {
    /// Number of the line, counted from one.
    pub line: usize,
    /// Bytes of that line before the place at fault.
    pub offset: usize,
    pub kind: SyntaxErrorKind,
}

/// The two ways in which reading a cookie file fails.
#[derive(Clone, Debug, PartialEq, Eq)]
pub enum Error {
    /// The text is not a well-formed cookie file.
    ParseError(SyntaxError),
    /// The text could not be obtained; the message is the cause as the
    /// supplier of the text reported it.
    IoError(String),
}

impl Error {
    /// Whether the text itself was at fault.
    pub fn is_syntax(&self) -> (yes: bool)
        ensures
            yes == (*self is ParseError),
    {
        match self {
            Error::ParseError(_) => true,
            Error::IoError(_) => false,
        }
    }

    /// The rejected line, for a syntax error.
    pub fn syntax(&self) -> (detail: Option<SyntaxError>)
        ensures
            detail == match *self {
                Error::ParseError(e) => Some(e),
                Error::IoError(_) => None,
            },
    {
        match self {
            Error::ParseError(e) => Some(*e),
            Error::IoError(_) => None,
        }
    }
}

} // verus!
