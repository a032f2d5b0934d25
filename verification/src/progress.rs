//! Counters of processed candidates and the periodic throughput report.

use vstd::prelude::*;

verus! {

/// The longest time, in milliseconds, that may pass without a report.
pub const REPORT_INTERVAL_MS: u64 = 1000;

/// A throughput snapshot: the candidates processed since the last report
/// and the candidates processed in all.
#[derive(Clone, Copy, Debug, PartialEq, Eq, Structural)]
pub struct Report {
    pub speed: u64,
    pub total: u64,
}

/// The total of processed candidates, which never shrinks, and the count
/// since the last report.
#[derive(Clone, Copy, Debug)]
pub struct Progress {
    total: u64,
    interval: u64,
}

impl Progress {
    /// The candidates processed in all.
    pub closed spec fn total_spec(&self) -> nat {
        self.total as nat
    }

    /// The candidates processed since the last report.
    pub closed spec fn interval_spec(&self) -> nat {
        self.interval as nat
    }

    /// The interval count is part of the total.
    pub open spec fn wf(&self) -> bool {
        self.interval_spec() <= self.total_spec() <= u64::MAX
    }

    /// Counters at zero.
    pub fn new() -> (p: Self)
        ensures
            p.wf(),
            p.total_spec() == 0,
            p.interval_spec() == 0,
    {
        Progress { total: 0, interval: 0 }
    }

    /// The candidates processed in all.
    pub fn total(&self) -> (n: u64)
        ensures
            n == self.total_spec(),
    {
        self.total
    }

    /// The candidates processed since the last report.
    pub fn interval(&self) -> (n: u64)
        ensures
            n == self.interval_spec(),
    {
        self.interval
    }

    /// Counts one processed candidate. Where more than a second has passed
    /// since the last report, hands out a snapshot and starts a new interval;
    /// the caller then restarts its timer.
    pub fn record(&mut self, elapsed_ms: u64) -> (report: Option<Report>)
        requires
            old(self).wf(),
            old(self).total_spec() < u64::MAX,
        ensures
            final(self).wf(),
            final(self).total_spec() == old(self).total_spec() + 1,
            elapsed_ms > REPORT_INTERVAL_MS ==> report == Some(
                (Report {
                    speed: (old(self).interval_spec() + 1) as u64,
                    total: (old(self).total_spec() + 1) as u64,
                }),
            ) && final(self).interval_spec() == 0,
            elapsed_ms <= REPORT_INTERVAL_MS ==> report.is_none() && final(self).interval_spec()
                == old(self).interval_spec() + 1,
    {
        self.total = self.total + 1;
        self.interval = self.interval + 1;
        if elapsed_ms > REPORT_INTERVAL_MS {
            let report = Report { speed: self.interval, total: self.total };
            self.interval = 0;
            Some(report)
        } else {
            None
        }
    }
}

} // verus!
