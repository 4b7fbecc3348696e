//! Source positions and spans.
//!
//! A position is a 1-indexed `(row, column)` pair. Consuming a newline moves
//! to the start of the next row; consuming any other character advances the
//! column by one. A span records the position of the first consumed character
//! and the position one past the last consumed character.

use vstd::prelude::*;

verus! {

/// A source position: row, then column, both 1-indexed.
#[derive(Clone, Copy, Debug, PartialEq, Eq, Structural)]
pub struct Pos(pub usize, pub usize);

/// Mathematical value of a position.
pub struct PosV {
    pub row: int,
    pub col: int,
}

impl View for Pos {
    type V = PosV;

    open spec fn view(&self) -> PosV {
        PosV { row: self.0 as int, col: self.1 as int }
    }
}

/// A half-open position range: `start` is the first consumed character,
/// `end` is one past the last consumed character.
#[derive(Clone, Copy, Debug, PartialEq, Eq, Structural)]
pub struct Span {
    pub start: Pos,
    pub end: Pos,
}

/// Mathematical value of a span.
pub struct SpanV {
    pub start: PosV,
    pub end: PosV,
}

impl View for Span {
    type V = SpanV;

    open spec fn view(&self) -> SpanV {
        SpanV { start: self.start@, end: self.end@ }
    }
}

/// Document order on positions, allowing equality.
pub open spec fn pos_le(a: PosV, b: PosV) -> bool {
    a.row < b.row || (a.row == b.row && a.col <= b.col)
}

/// Strict document order on positions.
pub open spec fn pos_lt(a: PosV, b: PosV) -> bool {
    a.row < b.row || (a.row == b.row && a.col < b.col)
}

/// The position one column to the right.
pub open spec fn pos_next_col(p: PosV) -> PosV {
    PosV { row: p.row, col: p.col + 1 }
}

/// The position one column to the left.
pub open spec fn pos_prev_col(p: PosV) -> PosV {
    PosV { row: p.row, col: p.col - 1 }
}

/// The position reached after consuming one character: a newline starts the
/// next row at column 1, anything else advances the column.
pub open spec fn pos_step(p: PosV, c: char) -> PosV {
    if c == '\n' {
        PosV { row: p.row + 1, col: 1 }
    } else {
        pos_next_col(p)
    }
}

} // verus!
