//! What a refused document was refused for, and where.

use vstd::prelude::*;

verus! {

/// Why a walk over a document stopped.
#[derive(Clone, Copy, Debug, PartialEq, Eq, Structural)]
pub enum ErrorCode {
    /// A byte that cannot stand where it stands.
    UnexpectedCharacter,
    /// The document ended inside a value, or before one began.
    UnexpectedEnd,
    /// Something other than whitespace follows the value.
    TrailingContent,
    /// A backslash in a string starts no escape the string reader decodes.
    InvalidEscape,
    /// A `\u` escape names half of a surrogate pair without the other half.
    InvalidSurrogate,
    /// Arrays and objects nest deeper than the walk follows them.
    DepthExceeded,
}

/// A refusal: its reason, and the byte offset it was found at.
#[derive(Clone, Copy, Debug, PartialEq, Eq, Structural)]
pub struct Error {
    /// Why the document was refused.
    pub code: ErrorCode,
    /// The offset, in bytes from the start of the document, the walk stopped at.
    pub position: usize,
}

impl Error {
    /// The refusal for `code` at `position`.
    pub fn new(code: ErrorCode, position: usize) -> (e: Error)
        ensures
            e.code == code,
            e.position == position,
    {
        Error { code, position }
    }
}

} // verus!
