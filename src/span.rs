use vstd::prelude::*;

verus! {

/// A half-open byte range `[start, end)` into a source text.
#[derive(Debug, Clone, Copy, PartialEq, Eq, Structural)]
pub struct Span {
    pub start: u32,
    pub end: u32,
}

impl Span {
    pub fn new(start: u32, end: u32) -> (r: Span)
        ensures
            r.start == start,
            r.end == end,
    {
        Span { start, end }
    }

    /// Number of bytes the span covers (zero for an inverted range).
    pub open spec fn len(self) -> nat {
        if self.start <= self.end {
            (self.end - self.start) as nat
        } else {
            0
        }
    }

    /// The byte offset `i` lies inside the span.
    pub open spec fn contains(self, i: int) -> bool {
        self.start <= i < self.end
    }
}

} // verus!
