//! The failures that the library reports to its callers.

use vstd::prelude::*;

verus! {

/// Why an operation of the library failed.
#[derive(Clone, Copy, Debug, PartialEq, Eq, Structural, Hash)]
pub enum CodeError {
    /// A message has more bits than the code carries.
    MessageTooLong,
    /// A received word is not exactly one code word long.
    WrongLength,
    /// A division by the zero polynomial or by the zero element.
    DivisionByZero,
    /// A linear system has no pivot in some column.
    Singular,
}

impl CodeError {
    /// A short description of the failure.
    pub fn message(&self) -> (s: &'static str)
        ensures
            s@ == (match *self {
                CodeError::MessageTooLong => "Message is too long"@,
                CodeError::WrongLength => "Received message has wrong length"@,
                CodeError::DivisionByZero => "division by zero"@,
                CodeError::Singular => "matrix is singular"@,
            }),
    {
        match self {
            CodeError::MessageTooLong => "Message is too long",
            CodeError::WrongLength => "Received message has wrong length",
            CodeError::DivisionByZero => "division by zero",
            CodeError::Singular => "matrix is singular",
        }
    }
}

} // verus!
