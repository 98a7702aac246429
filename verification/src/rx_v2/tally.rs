//! Counts of one decode, and how good it was.

use vstd::prelude::*;

verus! {

/// What one decode attempt found.
#[derive(Clone, Copy, Debug, PartialEq, Eq, Structural)]
pub struct Tally {
    pub converged_blocks: usize,
    pub total_blocks: usize,
    pub segments_decoded: usize,
    pub segments_lost: usize,
    /// Data codewords recovered, without meta codewords.
    pub data_blocks_recovered: usize,
}

impl Tally {
    /// No more blocks converged than were tried.
    pub open spec fn valid(self) -> bool {
        self.converged_blocks <= self.total_blocks
    }

    /// A segment was decoded and at least 99 % of the codewords converged.
    pub open spec fn clean(self) -> bool {
        &&& self.total_blocks > 0
        &&& self.converged_blocks * 100 >= self.total_blocks * 99
        &&& self.segments_decoded > 0
    }

    /// Everything was decoded, data among it, and no marker was lost.
    pub open spec fn fully_clean(self) -> bool {
        &&& self.segments_decoded > 0
        &&& self.segments_lost == 0
        &&& self.data_blocks_recovered > 0
        &&& self.total_blocks > 0
        &&& self.converged_blocks == self.total_blocks
    }

    /// Score for comparing attempts: ten per converged codeword, one per segment.
    pub open spec fn score(self) -> int {
        self.segments_decoded + (if self.total_blocks > 0 {
            10 * self.converged_blocks
        } else {
            0
        })
    }

    /// Whether a segment was decoded and at least 99 % of the codewords converged.
    pub fn is_clean(&self) -> (yes: bool)
        ensures
            yes == self.clean(),
    {
        self.total_blocks > 0 && self.converged_blocks as u128 * 100 >= self.total_blocks as u128
            * 99 && self.segments_decoded > 0
    }

    /// Whether everything was decoded, data among it, and no marker was lost.
    pub fn is_fully_clean(&self) -> (yes: bool)
        ensures
            yes == self.fully_clean(),
    {
        self.segments_decoded > 0 && self.segments_lost == 0 && self.data_blocks_recovered > 0
            && self.total_blocks > 0 && self.converged_blocks == self.total_blocks
    }

    /// Score for comparing attempts: ten per converged codeword, one per segment.
    pub fn score_result(&self) -> (s: u128)
        ensures
            s == self.score(),
    {
        self.segments_decoded as u128 + (if self.total_blocks > 0 {
            10 * self.converged_blocks as u128
        } else {
            0
        })
    }
}

/// The strict test is stricter than the loose one.
pub proof fn law_fully_clean_is_clean(t: Tally)
    requires
        t.fully_clean(),
    ensures
        t.clean(),
{
}

/// A decode without data codewords is never fully clean, though it may be clean.
pub proof fn law_meta_alone_is_not_fully_clean(t: Tally)
    requires
        t.data_blocks_recovered == 0,
    ensures
        !t.fully_clean(),
{
}

/// A decode is clean where at most one codeword in a hundred failed, and something was
/// decoded at all.
pub proof fn law_one_failure_in_a_hundred_is_clean(t: Tally)
    requires
        t.valid(),
    ensures
        t.clean() <==> t.segments_decoded >= 1 && t.total_blocks >= 1 && 100 * (t.total_blocks
            - t.converged_blocks) <= t.total_blocks,
{
}

/// A decode is fully clean where no codeword failed, no marker was lost and there is data.
pub proof fn law_fully_clean_misses_nothing(t: Tally)
    requires
        t.valid(),
        t.segments_decoded >= 1,
        t.total_blocks >= 1,
    ensures
        t.fully_clean() <==> t.total_blocks - t.converged_blocks == 0 && t.segments_lost == 0
            && t.data_blocks_recovered >= 1,
{
}

/// A codeword more counts as ten segments more, and nothing else counts.
pub proof fn law_codewords_outweigh_segments(a: Tally, b: Tally)
    requires
        a.valid(),
        b.valid(),
    ensures
        b.score() - a.score() == 10 * (b.converged_blocks - a.converged_blocks) + (
        b.segments_decoded - a.segments_decoded),
{
}

} // verus!
