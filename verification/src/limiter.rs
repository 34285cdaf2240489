//! Backpressure for parallel traversal.

use vstd::prelude::*;

verus! {

/// Limits the number of concurrent directory reads in parallel mode.
///
/// The driver keeps it behind a lock and waits while no permit is free.
#[derive(Debug)]
pub struct DirReadLimiter {
    active: usize,
    max: usize,
}

impl DirReadLimiter {
    /// At least one permit exists, and no more are given out than exist.
    pub closed spec fn wf(&self) -> bool {
        1 <= self.max && self.active <= self.max
    }

    /// The number of permits given out.
    pub closed spec fn active(&self) -> nat {
        self.active as nat
    }

    /// The number of permits.
    pub closed spec fn limit(&self) -> nat {
        self.max as nat
    }

    /// A limiter with `max` permits, none given out; with one permit if `max` is zero, so
    /// that waiting always ends.
    pub fn new(max: usize) -> (result: DirReadLimiter)
        ensures
            result.wf(),
            result.active() == 0,
            result.limit() == if max == 0 {
                1
            } else {
                max as nat
            },
    {
        DirReadLimiter {
            active: 0,
            max: if max == 0 {
                1
            } else {
                max
            },
        }
    }

    /// The number of permits.
    pub fn max(&self) -> (result: usize)
        ensures
            result == self.limit(),
    {
        self.max
    }

    /// Takes a permit if one is free; `false` means that the caller has to wait.
    pub fn acquire(&mut self) -> (result: bool)
        requires
            old(self).wf(),
        ensures
            final(self).wf(),
            final(self).limit() == old(self).limit(),
            result == (old(self).active() < old(self).limit()),
            final(self).active() == old(self).active() + if result {
                1int
            } else {
                0int
            },
            final(self).active() <= final(self).limit(),
    {
        if self.active >= self.max {
            return false;
        }
        self.active = self.active + 1;
        true
    }

    /// Gives a permit back; afterwards one is free.
    pub fn release(&mut self)
        requires
            old(self).wf(),
            old(self).active() > 0,
        ensures
            final(self).wf(),
            final(self).limit() == old(self).limit(),
            final(self).active() == old(self).active() - 1,
            final(self).active() < final(self).limit(),
    {
        self.active = self.active - 1;
    }
}

} // verus!
