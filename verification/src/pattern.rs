//! Searching a text for a fixed run of bytes.

use vstd::prelude::*;

verus! {

/// Whether `needle` stands in `hay` at index `at`.
pub open spec fn occurs_at(hay: Seq<u8>, needle: Seq<u8>, at: int) -> bool {
    &&& 0 <= at
    &&& at + needle.len() <= hay.len()
    &&& hay.subrange(at, at + needle.len()) == needle
}

/// Whether `at` is the first index at which `needle` stands in `hay`.
pub open spec fn first_occurrence(hay: Seq<u8>, needle: Seq<u8>, at: int) -> bool {
    &&& occurs_at(hay, needle, at)
    &&& forall|j: int| 0 <= j < at ==> !occurs_at(hay, needle, j)
}

/// Whether `needle` stands nowhere in `hay`.
pub open spec fn absent(hay: Seq<u8>, needle: Seq<u8>) -> bool {
    forall|j: int| !occurs_at(hay, needle, j)
}

/// A fixed byte sequence to search for.
pub struct SinglePattern {
    seq: Vec<u8>,
}

impl View for SinglePattern {
    type V = Seq<u8>;

    closed spec fn view(&self) -> Seq<u8> {
        self.seq@
    }
}

impl SinglePattern {
    pub fn new(seq: Vec<u8>) -> (pattern: SinglePattern)
        ensures
            pattern@ == seq@,
    {
        SinglePattern { seq }
    }

    pub fn len(&self) -> (n: usize)
        ensures
            n == self@.len(),
    {
        self.seq.len()
    }

    /// Whether the pattern stands in `haystack` at `at`.
    fn matches_at(&self, haystack: &[u8], at: usize) -> (r: bool)
        requires
            at + self@.len() <= haystack@.len(),
        ensures
            r == occurs_at(haystack@, self@, at as int),
    {
        let n = self.seq.len();
        let len = haystack.len();
        let mut i: usize = 0;
        while i < n
            invariant
                n == self.seq@.len(),
                len == haystack@.len(),
                at + n <= len,
                i <= n,
                forall|k: int| 0 <= k < i ==> haystack@[at + k] == self.seq@[k],
            decreases n - i,
        {
            if haystack[at + i] != self.seq[i] {
                proof {
                    let sub = haystack@.subrange(at as int, at + n);
                    assert(sub[i as int] == haystack@[at + i]);
                }
                return false;
            }
            i += 1;
        }
        assert(haystack@.subrange(at as int, at + n) =~= self.seq@);
        true
    }

    /// The index of the first occurrence of the pattern in `haystack`, if
    /// there is one.
    pub fn match_against(&self, haystack: &[u8]) -> (found: Option<usize>)
        ensures
            match found {
                Some(at) => first_occurrence(haystack@, self@, at as int),
                None => absent(haystack@, self@),
            },
    {
        let n = self.seq.len();
        let len = haystack.len();
        if n > len {
            return None;
        }
        let last = len - n;
        let mut at: usize = 0;
        loop
            invariant
                n == self@.len(),
                len == haystack@.len(),
                last == len - n,
                at <= last,
                forall|j: int| 0 <= j < at ==> !occurs_at(haystack@, self@, j),
            decreases last - at,
        {
            if self.matches_at(haystack, at) {
                return Some(at);
            }
            if at == last {
                return None;
            }
            at += 1;
        }
    }
}

} // verus!
