//! Progress accounting for the two stages.
//!
//! Both stages report progress as a pair of counts — units completed out of
//! a fixed total — and a unit is counted only after its output file has
//! landed, so observed progress never overstates completion.  The counts
//! live in this one struct, handed by reference into a stage; the
//! unverified rim renders them however it likes.

use vstd::prelude::*;

verus! {

/// Completed-out-of-total progress of one stage.
pub struct ProgressCounter {
    pub completed: u64,
    pub total: u64,
}

impl ProgressCounter {
    /// The completed count never passes the total.
    pub open spec fn wf(self) -> bool {
        self.completed <= self.total
    }

    /// Starts a stage's progress: `completed` units (found already done by
    /// the directory scan) out of `total`.
    pub fn new(completed: u64, total: u64) -> (r: ProgressCounter)
        requires
            completed <= total,
        ensures
            r.completed == completed,
            r.total == total,
            r.wf(),
    {
        ProgressCounter { completed, total }
    }

    /// Counts one more unit as completed — called only after the unit's
    /// output is persisted, so the counter increases monotonically and
    /// never runs ahead of the work.
    pub fn record_one(&mut self)
        requires
            old(self).wf(),
            old(self).completed < old(self).total,
        ensures
            final(self).completed == old(self).completed + 1,
            final(self).total == old(self).total,
            final(self).wf(),
    {
        self.completed = self.completed + 1;
    }
}

} // verus!
