//! The single error type of the front end.
//!
//! The first failure anywhere in a scan aborts the whole operation; there is
//! no recovery and no second diagnostic.

use crate::span::{Pos, PosV};
use vstd::prelude::*;

verus! {

/// Why lexing (or loading the input) failed.
#[derive(Debug, PartialEq, Eq)]
pub enum Error {
    /// Input ran out while a group or a string literal was still open.
    Eof(Pos),
    /// The file could not be read; carries the reader's message verbatim.
    ReadError(String),
    /// A character matched no lexical class, or stood where it may not.
    UnexpectedChar(char, Pos),
    /// Reserved but unimplemented syntax: a block comment or a string escape.
    UnsupportedConstruct(Pos),
    /// Bracket nesting went past the configured maximum depth.
    TooDeep(Pos),
}

/// Mathematical value of an [`Error`].
pub enum ErrorV {
    Eof(PosV),
    ReadError(Seq<char>),
    UnexpectedChar(char, PosV),
    UnsupportedConstruct(PosV),
    TooDeep(PosV),
}

impl View for Error {
    type V = ErrorV;

    open spec fn view(&self) -> ErrorV {
        match self {
            Error::Eof(p) => ErrorV::Eof(p@),
            Error::ReadError(s) => ErrorV::ReadError(s@),
            Error::UnexpectedChar(c, p) => ErrorV::UnexpectedChar(*c, p@),
            Error::UnsupportedConstruct(p) => ErrorV::UnsupportedConstruct(p@),
            Error::TooDeep(p) => ErrorV::TooDeep(p@),
        }
    }
}

} // verus!
