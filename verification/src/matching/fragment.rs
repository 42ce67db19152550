//! Runs of consecutive matching characters.

use vstd::prelude::*;

verus! {

/// The mathematical content of a [`Fragment`]: the positions
/// `start, start + 1, .., start + length - 1` of a candidate.
pub struct Run {
    pub start: int,
    pub length: int,
}

impl Run {
    /// The position just past the run: the one a character has to occupy
    /// for the run to grow over it.
    pub open spec fn next(self) -> int {
        self.start + self.length
    }
}

/// A set of consecutive characters common to a query and a candidate.
pub struct Fragment {
    pub length: usize,
    pub index: usize,
}

impl View for Fragment {
    type V = Run;

    open spec fn view(&self) -> Run {
        Run { start: self.index as int, length: self.length as int }
    }
}

impl Fragment {
    /// A fragment that covers the single position `index`.
    pub fn new(index: usize) -> (fragment: Fragment)
        ensures
            fragment@ == (Run { start: index as int, length: 1 }),
    {
        Fragment { length: 1, index }
    }

    /// The index _after_ those already part of the fragment: a match there
    /// lets the fragment grow by one.
    pub fn next_index(&self) -> (next: usize)
        requires
            self@.next() <= usize::MAX,
        ensures
            next == self@.next(),
    {
        self.index + self.length
    }

    /// Following a match at `next_index`, lengthens the fragment by one.
    pub fn increase_length(&mut self)
        requires
            old(self).length < usize::MAX,
        ensures
            final(self)@ == (Run { start: old(self)@.start, length: old(self)@.length + 1 }),
    {
        self.length += 1;
    }
}

} // verus!
