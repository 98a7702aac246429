//! Time spent per stage of a decode.

use vstd::prelude::*;

verus! {

/// Stages of a decode.
#[derive(Clone, Copy, Debug, PartialEq, Eq, Structural)]
pub enum PerfStage {
    Downmix,
    MatchedFilter,
    FindPreamble,
    Decimate,
    FfeLs,
    FfeLms,
    MarkerScan,
    Ldpc,
    RaptorQ,
    Resample,
    /// A whole pass is over; it has no time of its own.
    PassDone,
}

/// Microseconds per stage, over all passes of one tick.
#[derive(Clone, Copy, Debug, PartialEq, Eq, Structural)]
pub struct PerfBreakdown {
    pub downmix_us: u64,
    pub matched_filter_us: u64,
    pub find_preamble_us: u64,
    pub decimate_us: u64,
    pub ffe_ls_us: u64,
    pub ffe_lms_us: u64,
    pub marker_scan_us: u64,
    pub ldpc_us: u64,
    pub raptorq_us: u64,
    pub resample_us: u64,
    /// Passes that contributed.
    pub n_passes: u32,
}

impl PerfBreakdown {
    /// Time of a stage, or the passes for `PassDone`.
    pub open spec fn of(self, stage: PerfStage) -> int {
        match stage {
            PerfStage::Downmix => self.downmix_us as int,
            PerfStage::MatchedFilter => self.matched_filter_us as int,
            PerfStage::FindPreamble => self.find_preamble_us as int,
            PerfStage::Decimate => self.decimate_us as int,
            PerfStage::FfeLs => self.ffe_ls_us as int,
            PerfStage::FfeLms => self.ffe_lms_us as int,
            PerfStage::MarkerScan => self.marker_scan_us as int,
            PerfStage::Ldpc => self.ldpc_us as int,
            PerfStage::RaptorQ => self.raptorq_us as int,
            PerfStage::Resample => self.resample_us as int,
            PerfStage::PassDone => self.n_passes as int,
        }
    }

    /// Largest value of a stage.
    pub open spec fn limit(stage: PerfStage) -> int {
        if stage == PerfStage::PassDone {
            u32::MAX as int
        } else {
            u64::MAX as int
        }
    }

    /// Time of all stages together.
    pub open spec fn spec_total(self) -> int {
        self.downmix_us + self.matched_filter_us + self.find_preamble_us + self.decimate_us
            + self.ffe_ls_us + self.ffe_lms_us + self.marker_scan_us + self.ldpc_us
            + self.raptorq_us + self.resample_us
    }

    /// Nothing recorded yet.
    pub fn zero() -> (b: Self)
        ensures
            forall|stage: PerfStage| #[trigger] b.of(stage) == 0,
    {
        PerfBreakdown {
            downmix_us: 0,
            matched_filter_us: 0,
            find_preamble_us: 0,
            decimate_us: 0,
            ffe_ls_us: 0,
            ffe_lms_us: 0,
            marker_scan_us: 0,
            ldpc_us: 0,
            raptorq_us: 0,
            resample_us: 0,
            n_passes: 0,
        }
    }

    /// Time of all stages together.
    pub fn total_us(&self) -> (total: u64)
        requires
            self.spec_total() <= u64::MAX,
        ensures
            total == self.spec_total(),
    {
        self.downmix_us + self.matched_filter_us + self.find_preamble_us + self.decimate_us
            + self.ffe_ls_us + self.ffe_lms_us + self.marker_scan_us + self.ldpc_us
            + self.raptorq_us + self.resample_us
    }

    /// Add `dt_us` to a stage, or count one pass for `PassDone`.
    pub fn record_stage(&mut self, stage: PerfStage, dt_us: u64)
        requires
            old(self).of(stage) + (if stage == PerfStage::PassDone {
                1
            } else {
                dt_us as int
            }) <= Self::limit(stage),
        ensures
            forall|s: PerfStage| #[trigger]
                final(self).of(s) == old(self).of(s) + (if s != stage {
                    0
                } else if s == PerfStage::PassDone {
                    1
                } else {
                    dt_us as int
                }),
    {
        match stage {
            PerfStage::Downmix => self.downmix_us = self.downmix_us + dt_us,
            PerfStage::MatchedFilter => self.matched_filter_us = self.matched_filter_us + dt_us,
            PerfStage::FindPreamble => self.find_preamble_us = self.find_preamble_us + dt_us,
            PerfStage::Decimate => self.decimate_us = self.decimate_us + dt_us,
            PerfStage::FfeLs => self.ffe_ls_us = self.ffe_ls_us + dt_us,
            PerfStage::FfeLms => self.ffe_lms_us = self.ffe_lms_us + dt_us,
            PerfStage::MarkerScan => self.marker_scan_us = self.marker_scan_us + dt_us,
            PerfStage::Ldpc => self.ldpc_us = self.ldpc_us + dt_us,
            PerfStage::RaptorQ => self.raptorq_us = self.raptorq_us + dt_us,
            PerfStage::Resample => self.resample_us = self.resample_us + dt_us,
            PerfStage::PassDone => self.n_passes = self.n_passes + 1,
        }
    }

    /// Add the times of another breakdown.
    pub fn merge(&mut self, other: &Self)
        requires
            forall|s: PerfStage| #[trigger] old(self).of(s) + other.of(s) <= Self::limit(s),
        ensures
            forall|s: PerfStage| #[trigger] final(self).of(s) == old(self).of(s) + other.of(s),
    {
        proof {
            assert(old(self).of(PerfStage::Downmix) + other.of(PerfStage::Downmix) <= u64::MAX);
            assert(old(self).of(PerfStage::MatchedFilter) + other.of(PerfStage::MatchedFilter)
                <= u64::MAX);
            assert(old(self).of(PerfStage::FindPreamble) + other.of(PerfStage::FindPreamble)
                <= u64::MAX);
            assert(old(self).of(PerfStage::Decimate) + other.of(PerfStage::Decimate) <= u64::MAX);
            assert(old(self).of(PerfStage::FfeLs) + other.of(PerfStage::FfeLs) <= u64::MAX);
            assert(old(self).of(PerfStage::FfeLms) + other.of(PerfStage::FfeLms) <= u64::MAX);
            assert(old(self).of(PerfStage::MarkerScan) + other.of(PerfStage::MarkerScan)
                <= u64::MAX);
            assert(old(self).of(PerfStage::Ldpc) + other.of(PerfStage::Ldpc) <= u64::MAX);
            assert(old(self).of(PerfStage::RaptorQ) + other.of(PerfStage::RaptorQ) <= u64::MAX);
            assert(old(self).of(PerfStage::Resample) + other.of(PerfStage::Resample) <= u64::MAX);
            assert(old(self).of(PerfStage::PassDone) + other.of(PerfStage::PassDone) <= u32::MAX);
        }
        self.downmix_us = self.downmix_us + other.downmix_us;
        self.matched_filter_us = self.matched_filter_us + other.matched_filter_us;
        self.find_preamble_us = self.find_preamble_us + other.find_preamble_us;
        self.decimate_us = self.decimate_us + other.decimate_us;
        self.ffe_ls_us = self.ffe_ls_us + other.ffe_ls_us;
        self.ffe_lms_us = self.ffe_lms_us + other.ffe_lms_us;
        self.marker_scan_us = self.marker_scan_us + other.marker_scan_us;
        self.ldpc_us = self.ldpc_us + other.ldpc_us;
        self.raptorq_us = self.raptorq_us + other.raptorq_us;
        self.resample_us = self.resample_us + other.resample_us;
        self.n_passes = self.n_passes + other.n_passes;
    }

    /// Take what was recorded and start again from zero.
    pub fn take_perf(&mut self) -> (taken: Self)
        ensures
            taken == *old(self),
            forall|stage: PerfStage| #[trigger] final(self).of(stage) == 0,
    {
        let taken = *self;
        *self = Self::zero();
        taken
    }
}

/// The total counts the time of every stage once, and no passes.
pub proof fn law_total_counts_every_stage(
    a: PerfBreakdown,
    b: PerfBreakdown,
    stage: PerfStage,
    dt: int,
)
    requires
        forall|s: PerfStage| #[trigger]
            b.of(s) == a.of(s) + if s == stage {
                dt
            } else {
                0
            },
    ensures
        b.spec_total() - a.spec_total() == if stage == PerfStage::PassDone {
            0
        } else {
            dt
        },
{
    assert(b.of(PerfStage::Downmix) == b.downmix_us && a.of(PerfStage::Downmix) == a.downmix_us);
    assert(b.of(PerfStage::MatchedFilter) == b.matched_filter_us && a.of(PerfStage::MatchedFilter)
        == a.matched_filter_us);
    assert(b.of(PerfStage::FindPreamble) == b.find_preamble_us && a.of(PerfStage::FindPreamble)
        == a.find_preamble_us);
    assert(b.of(PerfStage::Decimate) == b.decimate_us && a.of(PerfStage::Decimate)
        == a.decimate_us);
    assert(b.of(PerfStage::FfeLs) == b.ffe_ls_us && a.of(PerfStage::FfeLs) == a.ffe_ls_us);
    assert(b.of(PerfStage::FfeLms) == b.ffe_lms_us && a.of(PerfStage::FfeLms) == a.ffe_lms_us);
    assert(b.of(PerfStage::MarkerScan) == b.marker_scan_us && a.of(PerfStage::MarkerScan)
        == a.marker_scan_us);
    assert(b.of(PerfStage::Ldpc) == b.ldpc_us && a.of(PerfStage::Ldpc) == a.ldpc_us);
    assert(b.of(PerfStage::RaptorQ) == b.raptorq_us && a.of(PerfStage::RaptorQ) == a.raptorq_us);
    assert(b.of(PerfStage::Resample) == b.resample_us && a.of(PerfStage::Resample)
        == a.resample_us);
}

} // verus!
