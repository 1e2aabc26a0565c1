//! The failures that document commands report.

use vstd::prelude::*;

verus! {

/// The class of a failed command.
#[derive(PartialEq, Eq, Structural, Clone, Copy, Debug)]
pub enum JsonError {
    /// A malformed path or a malformed operand.
    Syntax,
    /// An operation applied to a node of the wrong kind.
    TypeMismatch,
    /// A key or a path that resolves to nothing where a node is required.
    NotFound,
    /// An array index or insert position outside the array.
    OutOfRange,
    /// A document format that is declared but not implemented.
    UnsupportedFormat,
    /// A command given the wrong number of arguments.
    WrongArity,
}

/// The message that a client gets for each class of failure.
pub open spec fn message_of(e: JsonError) -> Seq<char> {
    match e {
        JsonError::Syntax => "ERR syntax error"@,
        JsonError::TypeMismatch => "ERR wrong type of path value"@,
        JsonError::NotFound => "ERR path does not exist"@,
        JsonError::OutOfRange => "ERR array index out of range"@,
        JsonError::UnsupportedFormat => "ERR format not supported yet"@,
        JsonError::WrongArity => "ERR wrong number of arguments"@,
    }
}

impl JsonError {
    /// A message for a client.
    pub fn message(&self) -> (r: &'static str)
        ensures
            r@ == message_of(*self),
    {
        match self {
            JsonError::Syntax => "ERR syntax error",
            JsonError::TypeMismatch => "ERR wrong type of path value",
            JsonError::NotFound => "ERR path does not exist",
            JsonError::OutOfRange => "ERR array index out of range",
            JsonError::UnsupportedFormat => "ERR format not supported yet",
            JsonError::WrongArity => "ERR wrong number of arguments",
        }
    }
}

} // verus!
