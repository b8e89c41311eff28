//! Source locations: a half-open range of character offsets into one file.

use vstd::prelude::*;

verus! {

/// A half-open range `[start, end)` of character offsets into the source
/// text of a single file. Offsets count characters of the source sequence,
/// and a well-formed span never runs backwards.
#[derive(Clone, Copy, PartialEq, Eq, Structural, Debug)]
pub struct Span {
    pub start: usize,
    pub end: usize,
}

impl Span {
    /// A span is well formed when it does not run backwards.
    pub open spec fn wf(self) -> bool {
        self.start <= self.end
    }

    pub fn new(start: usize, end: usize) -> (s: Span)
        requires
            start <= end,
        ensures
            s == (Span { start, end }),
            s.wf(),
    {
        Span { start, end }
    }
}

} // verus!
