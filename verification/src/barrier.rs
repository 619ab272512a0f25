//! A counting barrier: a fixed number of processes is expected to arrive,
//! and the barrier opens once they all have. The kernel runs on one hart
//! with traps masked, so plain counters suffice.

use vstd::prelude::*;

verus! {

/// A barrier expecting `count` arrivals; `total` counts those seen.
pub struct Barrier {
    pub total: u32,
    pub count: u32,
}

impl Barrier {
    /// A barrier expecting `cnt` arrivals.
    pub fn new(cnt: u32) -> (b: Barrier)
        ensures
            b.total == 0,
            b.count == cnt,
    {
        Barrier { total: 0, count: cnt }
    }

    /// Arrive at the barrier.
    pub fn wait(&mut self)
        requires
            old(self).total < u32::MAX,
        ensures
            final(self).total == old(self).total + 1,
            final(self).count == old(self).count,
    {
        self.total = self.total + 1;
    }

    /// Whether everyone expected has arrived.
    pub fn check(&self) -> (r: bool)
        ensures
            r == (self.count == self.total),
    {
        self.count == self.total
    }
}

} // verus!
