//! Spans of the buffer.

use vstd::prelude::*;

verus! {

/// A span `[start, end)` of the buffer, by offsets. It names either source
/// bytes or bytes already written, and copies nothing.
#[derive(Clone, Copy, Debug, PartialEq, Eq, Structural)]
pub struct ProcessorRange {
    pub start: usize,
    pub end: usize,
}

impl ProcessorRange {
    /// Whether the span runs forward.
    pub open spec fn ordered(&self) -> bool {
        self.start <= self.end
    }

    pub open spec fn spec_len(&self) -> int {
        self.end - self.start
    }

    #[verifier::when_used_as_spec(spec_len_usize)]
    pub fn len(&self) -> (n: usize)
        requires
            self.ordered(),
        ensures
            n == self.spec_len(),
    {
        self.end - self.start
    }

    pub open spec fn spec_len_usize(&self) -> usize {
        (self.end - self.start) as usize
    }

    pub fn empty(&self) -> (r: bool)
        ensures
            r == (self.start >= self.end),
    {
        self.start >= self.end
    }

    pub fn nonempty(&self) -> (r: bool)
        ensures
            r == (self.start < self.end),
    {
        self.start < self.end
    }
}

} // verus!
