//! Arrival, acceptance and rejection counters. Reporting (wall-clock time
//! and blocking-probability prints) lives with the caller; the counters and
//! the call-in-progress bookkeeping are kept exact here.

use vstd::prelude::*;

verus! {

/// Event counters: arrivals, acceptances and rejections of fresh calls and
/// hand-offs, and completed calls. The `curr` pair counts the current
/// reporting period and is reset when a period is reported.
#[derive(Clone, Copy, Debug)]
pub struct Stats {
    /// Fresh-call arrivals in the current reporting period.
    pub n_curr_arrivals_new: u64,
    /// Fresh-call arrivals, hand-offs excluded.
    pub n_arrivals_new: u64,
    /// Accepted fresh calls.
    pub n_accepted_new: u64,
    /// Hand-off arrivals.
    pub n_arrivals_hoff: u64,
    /// Ended calls, handed-off calls included.
    pub n_ended: u64,
    /// Rejected fresh calls in the current reporting period.
    pub n_curr_rejected_new: u64,
    /// Rejected fresh calls.
    pub n_rejected_new: u64,
    /// Rejected hand-offs.
    pub n_rejected_hoff: u64,
}

/// The number of calls in progress that the counters account for: accepted
/// fresh calls plus accepted hand-offs, minus the calls that have ended.
pub open spec fn stats_in_progress(s: Stats) -> int {
    s.n_accepted_new + s.n_arrivals_hoff - s.n_rejected_hoff - s.n_ended
}

impl Stats {
    /// All counters start at zero.
    pub fn new() -> (s: Stats)
        ensures
            s == (Stats {
                n_curr_arrivals_new: 0u64,
                n_arrivals_new: 0u64,
                n_accepted_new: 0u64,
                n_arrivals_hoff: 0u64,
                n_ended: 0u64,
                n_curr_rejected_new: 0u64,
                n_rejected_new: 0u64,
                n_rejected_hoff: 0u64,
            }),
    {
        Stats {
            n_curr_arrivals_new: 0,
            n_arrivals_new: 0,
            n_accepted_new: 0,
            n_arrivals_hoff: 0,
            n_ended: 0,
            n_curr_rejected_new: 0,
            n_rejected_new: 0,
            n_rejected_hoff: 0,
        }
    }

    /// Count a fresh-call arrival.
    pub fn event_arrival_new(&mut self)
        requires
            old(self).n_curr_arrivals_new < u64::MAX,
            old(self).n_arrivals_new < u64::MAX,
        ensures
            *final(self) == (Stats {
                n_curr_arrivals_new: (old(self).n_curr_arrivals_new + 1) as u64,
                n_arrivals_new: (old(self).n_arrivals_new + 1) as u64,
                ..*old(self)
            }),
    {
        self.n_curr_arrivals_new = self.n_curr_arrivals_new + 1;
        self.n_arrivals_new = self.n_arrivals_new + 1;
    }

    /// Count a hand-off arrival.
    pub fn event_arrival_hoff(&mut self)
        requires
            old(self).n_arrivals_hoff < u64::MAX,
        ensures
            *final(self) == (Stats {
                n_arrivals_hoff: (old(self).n_arrivals_hoff + 1) as u64,
                ..*old(self)
            }),
    {
        self.n_arrivals_hoff = self.n_arrivals_hoff + 1;
    }

    /// Count an accepted fresh call.
    pub fn event_accept_new(&mut self)
        requires
            old(self).n_accepted_new < u64::MAX,
        ensures
            *final(self) == (Stats {
                n_accepted_new: (old(self).n_accepted_new + 1) as u64,
                ..*old(self)
            }),
    {
        self.n_accepted_new = self.n_accepted_new + 1;
    }

    /// Count a rejected fresh call.
    pub fn event_reject_new(&mut self)
        requires
            old(self).n_rejected_new < u64::MAX,
            old(self).n_curr_rejected_new < u64::MAX,
        ensures
            *final(self) == (Stats {
                n_rejected_new: (old(self).n_rejected_new + 1) as u64,
                n_curr_rejected_new: (old(self).n_curr_rejected_new + 1) as u64,
                ..*old(self)
            }),
    {
        self.n_rejected_new = self.n_rejected_new + 1;
        self.n_curr_rejected_new = self.n_curr_rejected_new + 1;
    }

    /// Count a rejected hand-off.
    pub fn event_reject_hoff(&mut self)
        requires
            old(self).n_rejected_hoff < u64::MAX,
        ensures
            *final(self) == (Stats {
                n_rejected_hoff: (old(self).n_rejected_hoff + 1) as u64,
                ..*old(self)
            }),
    {
        self.n_rejected_hoff = self.n_rejected_hoff + 1;
    }

    /// Count an ended call.
    pub fn event_end(&mut self)
        requires
            old(self).n_ended < u64::MAX,
        ensures
            *final(self) == (Stats {
                n_ended: (old(self).n_ended + 1) as u64,
                ..*old(self)
            }),
    {
        self.n_ended = self.n_ended + 1;
    }

    /// Close a reporting period: the per-period counters return to zero and
    /// the cumulative ones stay.
    pub fn reset_log_period(&mut self)
        ensures
            *final(self) == (Stats {
                n_curr_arrivals_new: 0u64,
                n_curr_rejected_new: 0u64,
                ..*old(self)
            }),
    {
        self.n_curr_arrivals_new = 0;
        self.n_curr_rejected_new = 0;
    }

    /// How many calls should currently be in progress, from the reported
    /// arrivals, rejections and terminations alone.
    pub fn expected_in_progress(&self) -> (n: i128)
        ensures
            n == self.n_arrivals_new + self.n_arrivals_hoff - self.n_rejected_new
                - self.n_rejected_hoff - self.n_ended,
    {
        self.n_arrivals_new as i128 + self.n_arrivals_hoff as i128 - self.n_rejected_new as i128
            - self.n_rejected_hoff as i128 - self.n_ended as i128
    }
}

} // verus!
