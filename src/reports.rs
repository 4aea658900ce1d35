//! Progress reports of the epoch loop: which epoch runs, how far the
//! generation has come, and how many nodes the epochs since the last report
//! added. Times are milliseconds since the reporter was made; the caller
//! reads the clock and prints the report.

use crate::Node;
use vstd::prelude::*;

verus! {

/// Reports are issued at most this often, unless forced.
pub const REPORT_INTERVAL_MS: u64 = 200;

/// The numbers of one progress line.
#[derive(Clone, Copy, Debug, PartialEq, Eq, Structural)]
pub struct ProgressReport {
    pub elapsed_ms: u64,
    pub epoch_id: Node,
    pub epoch_start: Node,
    pub epoch_end: Node,
    pub num_total_nodes: Node,
    /// Nodes that the epochs since the previous report added.
    pub nodes_since_last_report: Node,
    /// Epochs since the previous report.
    pub epochs_since_last_report: Node,
}

impl ProgressReport {
    /// The length of the current epoch.
    pub fn epoch_len(&self) -> (r: Node)
        ensures
            r == if self.epoch_start <= self.epoch_end {
                self.epoch_end - self.epoch_start
            } else {
                0
            },
    {
        if self.epoch_start <= self.epoch_end {
            self.epoch_end - self.epoch_start
        } else {
            0
        }
    }
}

/// Tracks the current epoch and the state at the previous report.
pub struct Reporter {
    last_report_ms: u64,
    num_total_nodes: Node,
    epoch_id: Node,
    epoch_start: Node,
    epoch_end: Node,
    last_report_ended: Node,
    last_report_epoch_id: Node,
}

impl Reporter {
    pub closed spec fn spec_last_report_ms(&self) -> u64 {
        self.last_report_ms
    }

    pub closed spec fn spec_num_total_nodes(&self) -> Node {
        self.num_total_nodes
    }

    pub closed spec fn spec_epoch(&self) -> (Node, Node, Node) {
        (self.epoch_id, self.epoch_start, self.epoch_end)
    }

    /// The epoch id and the end of the epoch at the previous report.
    pub closed spec fn spec_last_report(&self) -> (Node, Node) {
        (self.last_report_epoch_id, self.last_report_ended)
    }

    /// Epochs and their ends only move forward from the previous report.
    pub open spec fn wf(&self) -> bool {
        &&& self.spec_last_report().0 <= self.spec_epoch().0
        &&& self.spec_last_report().1 <= self.spec_epoch().2
    }

    /// The report that the current state gives at time `now_ms`.
    pub open spec fn report_at(&self, now_ms: u64) -> ProgressReport {
        ProgressReport {
            elapsed_ms: now_ms,
            epoch_id: self.spec_epoch().0,
            epoch_start: self.spec_epoch().1,
            epoch_end: self.spec_epoch().2,
            num_total_nodes: self.spec_num_total_nodes(),
            nodes_since_last_report: (self.spec_epoch().2 - self.spec_last_report().1) as Node,
            epochs_since_last_report: (self.spec_epoch().0 - self.spec_last_report().0) as Node,
        }
    }

    /// A reporter at time zero, before the first epoch.
    pub fn new(num_total_nodes: Node) -> (r: Self)
        ensures
            r.wf(),
            r.spec_num_total_nodes() == num_total_nodes,
            r.spec_epoch() == (0usize, 0usize, 0usize),
            r.spec_last_report() == (0usize, 0usize),
            r.spec_last_report_ms() == 0,
    {
        Reporter {
            last_report_ms: 0,
            num_total_nodes,
            epoch_id: 0,
            epoch_start: 0,
            epoch_end: 0,
            last_report_ended: 0,
            last_report_epoch_id: 0,
        }
    }

    /// Sets the current epoch to `epoch_id`, covering `epoch_start..epoch_end`.
    pub fn update_epoch(&mut self, epoch_id: Node, epoch_start: Node, epoch_end: Node)
        requires
            old(self).spec_last_report().0 <= epoch_id,
            old(self).spec_last_report().1 <= epoch_end,
        ensures
            final(self).wf(),
            final(self).spec_epoch() == (epoch_id, epoch_start, epoch_end),
            final(self).spec_last_report() == old(self).spec_last_report(),
            final(self).spec_last_report_ms() == old(self).spec_last_report_ms(),
            final(self).spec_num_total_nodes() == old(self).spec_num_total_nodes(),
    {
        self.epoch_id = epoch_id;
        self.epoch_start = epoch_start;
        self.epoch_end = epoch_end;
    }

    /// The report at `now_ms`, where at least the report interval has passed
    /// since the previous report (or the clock went back); `None` otherwise.
    pub fn report_progress_sometimes(&mut self, now_ms: u64) -> (r: Option<ProgressReport>)
        requires
            old(self).wf(),
        ensures
            final(self).wf(),
            if old(self).spec_last_report_ms() <= now_ms && now_ms - old(self).spec_last_report_ms()
                < REPORT_INTERVAL_MS {
                r is None && *final(self) == *old(self)
            } else {
                r == Some(old(self).report_at(now_ms)) && final(self).reported(old(self), now_ms)
            },
    {
        if self.last_report_ms <= now_ms && now_ms - self.last_report_ms < REPORT_INTERVAL_MS {
            return None;
        }
        Some(self.report_progress_now(now_ms))
    }

    /// The report at `now_ms`, whatever time has passed.
    pub fn report_progress_forced(&mut self, now_ms: u64) -> (r: ProgressReport)
        requires
            old(self).wf(),
        ensures
            final(self).wf(),
            r == old(self).report_at(now_ms),
            final(self).reported(old(self), now_ms),
    {
        self.report_progress_now(now_ms)
    }

    /// `self` is `before` after a report at `now_ms`.
    pub open spec fn reported(&self, before: &Reporter, now_ms: u64) -> bool {
        &&& self.spec_last_report_ms() == now_ms
        &&& self.spec_last_report() == (before.spec_epoch().0, before.spec_epoch().2)
        &&& self.spec_epoch() == before.spec_epoch()
        &&& self.spec_num_total_nodes() == before.spec_num_total_nodes()
    }

    fn report_progress_now(&mut self, now_ms: u64) -> (r: ProgressReport)
        requires
            old(self).wf(),
        ensures
            final(self).wf(),
            r == old(self).report_at(now_ms),
            final(self).reported(old(self), now_ms),
    {
        let report = ProgressReport {
            elapsed_ms: now_ms,
            epoch_id: self.epoch_id,
            epoch_start: self.epoch_start,
            epoch_end: self.epoch_end,
            num_total_nodes: self.num_total_nodes,
            nodes_since_last_report: self.epoch_end - self.last_report_ended,
            epochs_since_last_report: self.epoch_id - self.last_report_epoch_id,
        };
        self.last_report_ms = now_ms;
        self.last_report_ended = self.epoch_end;
        self.last_report_epoch_id = self.epoch_id;
        report
    }
}

} // verus!
