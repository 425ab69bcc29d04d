use vstd::prelude::*;
use crate::header::Tag;

verus! {

/// What went wrong while decoding or encoding.
#[derive(Clone, Copy, Debug, PartialEq, Eq, Structural)]
pub enum ErrorKind {
    /// Not enough bytes to decode the requested structure.
    Incomplete,
    /// A length exceeds the largest length this codec represents.
    Overflow,
    /// A length octet uses a forbidden encoding.
    Overlength,
    /// Decoding the length of a value with the given tag failed.
    Length { tag: Tag },
    /// The tag found is not the one the type being decoded expects.
    UnexpectedTag { expected: Tag, actual: Tag },
    /// A missing or malformed end-of-content marker.
    EndOfContent,
    /// The input was not entirely consumed.
    TrailingData { decoded: u32, remaining: u32 },
    /// Indefinite-length values nested beyond the scanner's limit.
    RecursionLimitExceeded,
    /// A SET OF already holds an element with the same encoding.
    DuplicateElement,
    /// The value bytes break the rules of the type with this tag.
    Value { tag: Tag },
}

/// An error together with the reader position at which it was detected.
#[derive(Clone, Copy, Debug, PartialEq, Eq, Structural)]
pub struct Error {
    pub kind: ErrorKind,
    pub position: u32,
}

impl ErrorKind {
    /// Annotates this kind with a position.
    pub fn at(self, position: u32) -> (e: Error)
        ensures
            e.kind == self,
            e.position == position,
    {
        Error { kind: self, position }
    }
}

} // verus!
