//! Counts of the pairs that each test has ruled out.

use vstd::prelude::*;

verus! {

/// Counts, test by test, how many pairs were ruled out. The caller owns the
/// collector and hands it to whatever it wants counted.
pub struct DisproofStatsCollector {
    length_disproof: usize,
    left_alignment_disproof: usize,
    right_alignment_disproof: usize,
    secondary_disproof: usize,
}

impl DisproofStatsCollector {
    /// The four counts: population test, alignment test from the left,
    /// alignment test from the right, secondary test.
    pub closed spec fn view(&self) -> (nat, nat, nat, nat) {
        (
            self.length_disproof as nat,
            self.left_alignment_disproof as nat,
            self.right_alignment_disproof as nat,
            self.secondary_disproof as nat,
        )
    }

    /// A collector that has counted nothing.
    pub fn new() -> (collector: Self)
        ensures
            collector@ == (0nat, 0nat, 0nat, 0nat),
    {
        Self {
            length_disproof: 0,
            left_alignment_disproof: 0,
            right_alignment_disproof: 0,
            secondary_disproof: 0,
        }
    }

    /// Counts one pair ruled out by the population test.
    pub fn increment_length_disproof(&mut self)
        requires
            old(self)@.0 < usize::MAX,
        ensures
            final(self)@ == (old(self)@.0 + 1, old(self)@.1, old(self)@.2, old(self)@.3),
    {
        self.length_disproof += 1;
    }

    /// Counts one pair ruled out by the alignment test from the left.
    pub fn increment_left_alignment_disproof(&mut self)
        requires
            old(self)@.1 < usize::MAX,
        ensures
            final(self)@ == (old(self)@.0, old(self)@.1 + 1, old(self)@.2, old(self)@.3),
    {
        self.left_alignment_disproof += 1;
    }

    /// Counts one pair ruled out by the alignment test from the right.
    pub fn increment_right_alignment_disproof(&mut self)
        requires
            old(self)@.2 < usize::MAX,
        ensures
            final(self)@ == (old(self)@.0, old(self)@.1, old(self)@.2 + 1, old(self)@.3),
    {
        self.right_alignment_disproof += 1;
    }

    /// Counts one pair ruled out by the secondary test.
    pub fn increment_secondary_disproof(&mut self)
        requires
            old(self)@.3 < usize::MAX,
        ensures
            final(self)@ == (old(self)@.0, old(self)@.1, old(self)@.2, old(self)@.3 + 1),
    {
        self.secondary_disproof += 1;
    }

    /// The four counts, in the order of the view.
    pub fn counts(&self) -> (counts: (usize, usize, usize, usize))
        ensures
            (counts.0 as nat, counts.1 as nat, counts.2 as nat, counts.3 as nat) == self@,
    {
        (
            self.length_disproof,
            self.left_alignment_disproof,
            self.right_alignment_disproof,
            self.secondary_disproof,
        )
    }
}

impl Default for DisproofStatsCollector {
    fn default() -> (collector: Self)
        ensures
            collector@ == (0nat, 0nat, 0nat, 0nat),
    {
        Self::new()
    }
}

} // verus!
