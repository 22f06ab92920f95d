//! The errors that a conversion can end with.

use vstd::prelude::*;

verus! {

/// The two ways in which a document can be unfit for conversion.
#[derive(Clone, Copy, Debug, PartialEq, Eq, Structural)]
pub enum ErrorKind {
    /// The markup is malformed: unmatched or unclosed tags, broken attributes,
    /// unknown entity references.
    StructuralError,
    /// A name, an attribute value or a piece of character data is not valid
    /// UTF-8.
    TextEncodingError,
}

/// An error together with a description of what was found.
#[derive(Debug)]
pub struct ParseError {
    pub kind: ErrorKind,
    pub detail: String,
}

/// The mathematical value of a [`ParseError`].
pub struct Fault {
    pub kind: ErrorKind,
    pub detail: Seq<char>,
}

impl View for ParseError {
    type V = Fault;

    open spec fn view(&self) -> Fault {
        Fault { kind: self.kind, detail: self.detail@ }
    }
}

/// A structural fault with the given description.
pub open spec fn structural(detail: Seq<char>) -> Fault {
    Fault { kind: ErrorKind::StructuralError, detail }
}

/// The fault reported for bytes that are not valid UTF-8.
pub open spec fn invalid_text() -> Fault {
    Fault { kind: ErrorKind::TextEncodingError, detail: "invalid UTF-8"@ }
}

impl ParseError {
    /// A structural error with the given description.
    pub fn structural(detail: String) -> (e: ParseError)
        ensures
            e@ == structural(detail@),
    {
        ParseError { kind: ErrorKind::StructuralError, detail }
    }

    /// The error for bytes that are not valid UTF-8.
    pub fn invalid_text() -> (e: ParseError)
        ensures
            e@ == invalid_text(),
    {
        ParseError { kind: ErrorKind::TextEncodingError, detail: "invalid UTF-8".to_owned() }
    }
}

} // verus!
