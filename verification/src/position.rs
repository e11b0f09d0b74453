//! Positions in a document and ranges between them.
use vstd::prelude::*;

verus! {

/// A caret position: block index plus byte offset into that block's flattened
/// text. Positions order lexicographically by `(block, byte)`: earlier in the
/// document is less.
#[derive(Clone, Copy, Debug, PartialEq, Eq, Structural, PartialOrd, Ord, Default)]
pub struct DocPos {
    /// Index of the block (paragraph).
    pub block: usize,
    /// Byte offset into that block's flattened text.
    pub byte: usize,
}

/// Document order on positions.
pub open spec fn pos_le(a: DocPos, b: DocPos) -> bool {
    a.block < b.block || (a.block == b.block && a.byte <= b.byte)
}

impl DocPos {
    /// A position at `byte` within `block`.
    pub fn new(block: usize, byte: usize) -> (p: Self)
        ensures
            p.block == block,
            p.byte == byte,
    {
        DocPos { block, byte }
    }

    /// Whether `self` comes no later than `other` in document order.
    pub fn le(&self, other: &DocPos) -> (r: bool)
        ensures
            r == pos_le(*self, *other),
    {
        self.block < other.block || (self.block == other.block && self.byte <= other.byte)
    }
}

/// A selection between two positions, in either document order.
#[derive(Clone, Copy, Debug, PartialEq, Eq, Structural)]
pub struct DocRange {
    /// One endpoint (not necessarily the earlier one).
    pub start: DocPos,
    /// The other endpoint (not necessarily the later one).
    pub end: DocPos,
}

/// The endpoints of `r` in document order.
pub open spec fn ordered_spec(r: DocRange) -> (DocPos, DocPos) {
    if pos_le(r.start, r.end) {
        (r.start, r.end)
    } else {
        (r.end, r.start)
    }
}

impl DocRange {
    /// A range between `start` and `end`.
    pub fn new(start: DocPos, end: DocPos) -> (r: Self)
        ensures
            r.start == start,
            r.end == end,
    {
        DocRange { start, end }
    }

    /// A zero-width range at one position.
    pub fn collapsed(pos: DocPos) -> (r: Self)
        ensures
            r.start == pos,
            r.end == pos,
    {
        DocRange { start: pos, end: pos }
    }

    /// Whether the range selects nothing.
    pub fn is_empty(&self) -> (b: bool)
        ensures
            b == (self.start == self.end),
    {
        self.start == self.end
    }

    /// `(low, high)`: the two endpoints in document order.
    pub fn ordered(&self) -> (r: (DocPos, DocPos))
        ensures
            r == ordered_spec(*self),
            pos_le(r.0, r.1),
    {
        if self.start.le(&self.end) {
            (self.start, self.end)
        } else {
            (self.end, self.start)
        }
    }

    /// The earlier endpoint.
    pub fn min(&self) -> (p: DocPos)
        ensures
            p == ordered_spec(*self).0,
    {
        self.ordered().0
    }

    /// The later endpoint.
    pub fn max(&self) -> (p: DocPos)
        ensures
            p == ordered_spec(*self).1,
    {
        self.ordered().1
    }
}

/// The ordered endpoints are the two endpoints, low first.
pub proof fn lemma_ordered_endpoints(r: DocRange)
    ensures
        pos_le(ordered_spec(r).0, ordered_spec(r).1),
        (ordered_spec(r).0 == r.start && ordered_spec(r).1 == r.end) || (ordered_spec(r).0
            == r.end && ordered_spec(r).1 == r.start),
        ordered_spec(r) == ordered_spec(DocRange { start: r.end, end: r.start }),
{
}

} // verus!
