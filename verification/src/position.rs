use vstd::prelude::*;

verus! {

/// A place in a document: a line and a column, both counted from zero.
#[derive(Clone, Copy, Debug, PartialEq, Eq, Hash, Structural)]
pub struct Position {
    pub line: u32,
    pub character: u32,
}

/// The part of a document from `start` up to `end`.
#[derive(Clone, Copy, Debug, PartialEq, Eq, Hash, Structural)]
pub struct Range {
    pub start: Position,
    pub end: Position,
}

impl Position {
    /// The order of positions in a document.
    pub open spec fn before(self, other: Position) -> bool {
        self.line < other.line || (self.line == other.line && self.character < other.character)
    }

    /// Whether `self` comes strictly before `other`.
    pub fn is_before(&self, other: &Position) -> (r: bool)
        ensures
            r == self.before(*other),
    {
        self.line < other.line || (self.line == other.line && self.character < other.character)
    }
}

impl Range {
    /// The empty range at the start of a document.
    pub open spec fn origin() -> Range {
        Range {
            start: Position { line: 0, character: 0 },
            end: Position { line: 0, character: 0 },
        }
    }

    /// The empty range at the start of a document.
    pub fn at_origin() -> (r: Range)
        ensures
            r == Range::origin(),
    {
        Range {
            start: Position { line: 0, character: 0 },
            end: Position { line: 0, character: 0 },
        }
    }
}

} // verus!
