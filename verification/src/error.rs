use vstd::prelude::*;

verus! {

/// Categories of failure.
#[derive(Debug, PartialEq, Eq, Clone, Copy, Structural)]
pub enum ErrorType {
    /// Unexpected characters or tokens, malformed numerals, unmatched parentheses.
    BadParse,
    /// An identifier with no value in the context.
    UnboundIdentifier,
    /// Division by zero, zero to the power zero, or a result that is not a finite number.
    UndefinedOperation,
    /// Reserved for values too large to represent.
    Overflow,
}

/// A failure, with the half-open span `[start, end)` of the source text it refers to.
#[derive(Debug, PartialEq, Eq)]
pub struct Error {
    pub error_type: ErrorType,
    pub message: String,
    pub start: usize,
    pub end: usize,
}

/// The mathematical content of an [`Error`].
pub struct SpecError {
    pub error_type: ErrorType,
    pub message: Seq<char>,
    pub start: int,
    pub end: int,
}

impl View for Error {
    type V = SpecError;

    open spec fn view(&self) -> SpecError {
        SpecError {
            error_type: self.error_type,
            message: self.message@,
            start: self.start as int,
            end: self.end as int,
        }
    }
}

impl Error {
    pub fn new(error_type: ErrorType, message: String, start: usize, end: usize) -> (e: Error)
        ensures
            e.error_type == error_type,
            e.message == message,
            e.start == start,
            e.end == end,
    {
        Error { error_type, message, start, end }
    }
}

/// A `BadParse` failure with the given message and span.
pub open spec fn bad_parse(message: Seq<char>, start: int, end: int) -> SpecError {
    SpecError { error_type: ErrorType::BadParse, message, start, end }
}

} // verus!
