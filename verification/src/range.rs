//! Positions, provenance ranges and the boundary events derived from them.

use vstd::prelude::*;

verus! {

/// A place in a source text: a line and a column on it.
#[derive(Copy, Clone, Debug, PartialEq, Eq, Structural, Hash)]
pub struct Position {
    pub line: usize,
    pub column: usize,
}

/// Whether a boundary event opens or closes its range.
#[derive(Copy, Clone, Debug, PartialEq, Eq, Structural, Hash)]
pub enum SeparatorType {
    Start,
    End,
}

/// One end of a range inside one file: where it lies, which end it is, and
/// the identifier of the range.
#[derive(Copy, Clone, Debug, PartialEq, Eq, Structural, Hash)]
pub struct RangeSeparator {
    pub pos: Position,
    pub sep: SeparatorType,
    pub idx: usize,
}

/// A provenance range: the file it lies in, by the file's identifier, and
/// its two ends.
#[derive(Copy, Clone, Debug, PartialEq, Eq, Structural, Hash)]
pub struct Range {
    pub source: usize,
    pub start: Position,
    pub end: Position,
}

/// Lexicographic order on positions: by line, then by column.
pub open spec fn pos_lt(a: Position, b: Position) -> bool {
    a.line < b.line || (a.line == b.line && a.column < b.column)
}

/// Rank of an event kind: an opening event sorts before a closing one.
pub open spec fn sep_rank(s: SeparatorType) -> int {
    match s {
        SeparatorType::Start => 0,
        SeparatorType::End => 1,
    }
}

/// Order on boundary events: by position, then kind (opening first), then
/// identifier.
pub open spec fn sep_le(a: RangeSeparator, b: RangeSeparator) -> bool {
    pos_lt(a.pos, b.pos) || (a.pos == b.pos && (sep_rank(a.sep) < sep_rank(b.sep) || (a.sep
        == b.sep && a.idx <= b.idx)))
}

/// Every neighbouring pair, and hence every pair, is in order.
pub open spec fn seps_sorted(s: Seq<RangeSeparator>) -> bool {
    forall|i: int, j: int| 0 <= i < j < s.len() ==> sep_le(#[trigger] s[i], #[trigger] s[j])
}

impl Position {
    /// Whether this position lies strictly before `other`.
    pub fn before(&self, other: &Position) -> (r: bool)
        ensures
            r == pos_lt(*self, *other),
    {
        self.line < other.line || (self.line == other.line && self.column < other.column)
    }
}

impl RangeSeparator {
    /// Whether this event sorts at or before `other`.
    pub fn le(&self, other: &RangeSeparator) -> (r: bool)
        ensures
            r == sep_le(*self, *other),
    {
        if self.pos.before(&other.pos) {
            true
        } else if self.pos == other.pos {
            match (self.sep, other.sep) {
                (SeparatorType::Start, SeparatorType::End) => true,
                (SeparatorType::End, SeparatorType::Start) => false,
                _ => self.idx <= other.idx,
            }
        } else {
            false
        }
    }
}

} // verus!
