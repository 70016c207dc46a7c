//! Transient-memory budgeting for the reprojection stage.
//!
//! Sectors are reprojected in bounded batches, and the bytes a batch may
//! touch — coordinates and samples for every pixel of every sector in
//! flight — are reserved up front on a shared counter and released when
//! the batch is done, so concurrent consumers of the same budget cannot
//! over-commit memory.

use vstd::prelude::*;

verus! {

/// Number of sectors reprojected concurrently in one batch.
pub const REPROJECT_BATCH_SECTORS: u64 = 16;

/// A shared byte-budget counter.  The unverified rim wraps it in whatever
/// synchronisation the scheduler needs; reservations and releases
/// themselves are exact.
pub struct MemoryBudget {
    pub reserved: u64,
}

impl MemoryBudget {
    /// A budget with nothing reserved.
    pub fn new() -> (r: MemoryBudget)
        ensures
            r.reserved == 0,
    {
        MemoryBudget { reserved: 0 }
    }

    /// Reserves `bytes`; fails — leaving the budget unchanged — only when
    /// the counter would overflow.
    pub fn reserve(&mut self, bytes: u64) -> (r: bool)
        ensures
            r <==> old(self).reserved + bytes <= u64::MAX,
            r ==> final(self).reserved == old(self).reserved + bytes,
            !r ==> final(self).reserved == old(self).reserved,
    {
        match self.reserved.checked_add(bytes) {
            Some(total) => {
                self.reserved = total;
                true
            },
            None => false,
        }
    }

    /// Releases a reservation made earlier.
    pub fn release(&mut self, bytes: u64)
        requires
            bytes <= old(self).reserved,
        ensures
            final(self).reserved == old(self).reserved - bytes,
    {
        self.reserved = self.reserved - bytes;
    }
}

/// Upper bound on the transient bytes one reprojection batch touches: for
/// each of the batch's sectors, every pixel carries a coordinate pair and
/// one 16-bit sample.
pub fn reprojection_batch_bytes(resolution: u32) -> (r: u64)
    requires
        resolution * resolution <= u32::MAX,
    ensures
        r == resolution * resolution * 18 * REPROJECT_BATCH_SECTORS,
{
    (resolution as u64) * (resolution as u64) * 18 * 16
}

} // verus!
