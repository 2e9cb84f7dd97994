//! The pass/fail tally of a verification run.

use vstd::prelude::*;

verus! {

/// How many checks ran and how many of them failed.
#[derive(Debug, Clone, Copy)]
pub struct Checks {
    pub total: usize,
    pub failed: usize,
}

impl Checks {
    /// No checks yet.
    pub fn new() -> (c: Checks)
        ensures
            c.total == 0,
            c.failed == 0,
    {
        Checks { total: 0, failed: 0 }
    }

    /// Counts one check, and a failure when `ok` is false.
    pub fn record(&mut self, ok: bool)
        requires
            old(self).total < usize::MAX,
            old(self).failed <= old(self).total,
        ensures
            final(self).total == old(self).total + 1,
            final(self).failed == old(self).failed + if ok {
                0int
            } else {
                1
            },
    {
        self.total += 1;
        if !ok {
            self.failed += 1;
        }
    }

    /// The number of checks that passed.
    pub fn passed(&self) -> (n: usize)
        requires
            self.failed <= self.total,
        ensures
            n == self.total - self.failed,
    {
        self.total - self.failed
    }
}

} // verus!
