//! The ways in which a frame or a request can be wrong.

use vstd::prelude::*;

verus! {

/// Why a buffer cannot be the start of any frame.
#[derive(Clone, Copy, Debug, PartialEq, Eq, Structural)]
pub enum ParseError {
    /// The first byte of a frame is none of the five type tags.
    UnknownTypeTag,
    /// An integer, a length or a count is not a decimal 64-bit number.
    InvalidNumber,
    /// A length or a count is negative and not the null marker.
    InvalidLength,
    /// The bytes after a bulk string's payload are not a line terminator.
    MissingTerminator,
    /// Arrays are nested deeper than the parser follows.
    NestingTooDeep,
}

impl ParseError {
    /// The reason in words.
    pub open spec fn reason_text(self) -> Seq<char> {
        match self {
            ParseError::UnknownTypeTag => "unknown type tag"@,
            ParseError::InvalidNumber => "invalid number"@,
            ParseError::InvalidLength => "invalid length"@,
            ParseError::MissingTerminator => "missing terminator"@,
            ParseError::NestingTooDeep => "nesting too deep"@,
        }
    }

    /// The reason in words.
    pub fn reason(self) -> (r: &'static str)
        ensures
            r@ == self.reason_text(),
    {
        match self {
            ParseError::UnknownTypeTag => "unknown type tag",
            ParseError::InvalidNumber => "invalid number",
            ParseError::InvalidLength => "invalid length",
            ParseError::MissingTerminator => "missing terminator",
            ParseError::NestingTooDeep => "nesting too deep",
        }
    }
}

/// Why a value is no request.
#[derive(Clone, Copy, Debug, PartialEq, Eq, Structural)]
pub enum RequestError {
    /// The value is not an array.
    NotAnArray,
    /// The array is empty: it names no command.
    EmptyArray,
    /// The value is not a bulk string where one is required.
    NotABulkString,
}

} // verus!
