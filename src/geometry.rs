use vstd::prelude::*;

verus! {

/// A zero-based row/column position in the source text.
#[derive(Debug, Clone, Copy, PartialEq, Eq, Structural)]
pub struct GPoint {
    pub row: usize,
    pub column: usize,
}

/// A span of the source text: byte offsets (used for slicing) plus the
/// informational row/column end points.
#[derive(Debug, Clone, Copy, PartialEq, Eq, Structural)]
pub struct GRange {
    pub start_byte: usize,
    pub end_byte: usize,
    pub start_point: GPoint,
    pub end_point: GPoint,
}

/// A graph vertex: the parser's node id, its kind tag and its span.
#[derive(Debug, Clone, Copy, PartialEq, Eq, Structural)]
pub struct GNode {
    pub id: usize,
    pub kind_id: u16,
    pub range: GRange,
}

/// A directed parent-to-child edge, as positions in a vertex list.
#[derive(Debug, Clone, Copy, PartialEq, Eq, Structural)]
pub struct Edge {
    pub source: usize,
    pub target: usize,
}

/// Lexicographic order on points: by row, then by column.
pub open spec fn point_le(a: GPoint, b: GPoint) -> bool {
    a.row < b.row || (a.row == b.row && a.column <= b.column)
}

impl GPoint {
    pub fn new(row: usize, column: usize) -> (r: GPoint)
        ensures
            r.row == row,
            r.column == column,
    {
        GPoint { row, column }
    }

    /// Compares two points lexicographically.
    pub fn le(&self, other: &GPoint) -> (r: bool)
        ensures
            r == point_le(*self, *other),
    {
        self.row < other.row || (self.row == other.row && self.column <= other.column)
    }
}

impl GRange {
    /// The range is well formed: it does not end before it starts.
    pub open spec fn well_formed(self) -> bool {
        self.start_byte <= self.end_byte && point_le(self.start_point, self.end_point)
    }

    /// Whether the byte span lies inside a buffer of `len` bytes.
    pub open spec fn fits(self, len: nat) -> bool {
        self.start_byte <= self.end_byte && self.end_byte <= len
    }

    pub fn is_well_formed(&self) -> (r: bool)
        ensures
            r == self.well_formed(),
    {
        self.start_byte <= self.end_byte && self.start_point.le(&self.end_point)
    }
}

} // verus!
