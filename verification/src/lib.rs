//! Lexical front end for the Cannon language: a recursive group scanner that
//! turns source text into a tree of classified tokens and bracket groups, each
//! carrying an exact row/column span, and a highlighter that reconstructs the
//! source text with color codes from the tree alone.

pub mod ast;
pub mod chars;
pub mod error;
pub mod highlight;
pub mod lex;
pub mod span;
