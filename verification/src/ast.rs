//! Shapes of the syntax tree a later parser stage will produce from the
//! lexeme tree. Nothing builds them yet; they only fix the data layout.

use crate::span::Span;
use vstd::prelude::*;

verus! {

/// Visibility of an item; a public item records the span of its marker.
pub enum Vis {
    Priv,
    Pub(Span),
}

/// An identifier with its span.
pub struct Id {
    pub span: Span,
    pub value: String,
}

/// What a pattern can be.
pub enum PatternBody {
    Id(Id),
}

/// A pattern with its span.
pub struct Pattern {
    pub span: Span,
    pub body: PatternBody,
}

/// What a type expression can be.
pub enum TypeBody {
    Named(Id),
}

/// A type expression with its span.
pub struct Type {
    pub span: Span,
    pub body: TypeBody,
}

/// One parameter of a function: its pattern and its type.
pub struct Param {
    pub span: Span,
    pub name: Pattern,
    pub ty: Type,
}

/// A function item.
pub struct Fn {
    pub vis: Vis,
    pub name: Id,
    pub params: Vec<Param>,
}

/// A type alias: the new name and what it stands for.
pub struct Alias {
    pub vis: Vis,
    pub new: Type,
    pub under: Type,
}

/// What an item can be.
pub enum ItemBody {
    Alias(Alias),
    Fn(Fn),
}

/// One item with its span.
pub struct Item {
    pub span: Span,
    pub body: ItemBody,
}

/// A whole source file: its span and its items.
pub struct File {
    pub span: Span,
    pub items: Vec<Item>,
}

} // verus!
