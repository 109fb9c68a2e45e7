//! Gas metering for one execution frame.

use vstd::prelude::*;

verus! {

/// Tracks gas for one frame: a fixed limit and the amount used so far.
#[derive(Clone, Copy, PartialEq, Eq, Structural, Debug)]
pub struct GasMeter {
    pub limit: u64,
    pub used: u64,
}

impl GasMeter {
    pub open spec fn wf(&self) -> bool {
        self.used <= self.limit
    }

    pub open spec fn spec_remaining(&self) -> int {
        self.limit - self.used
    }

    pub fn new(limit: u64) -> (r: GasMeter)
        ensures
            r.wf(),
            r.limit == limit,
            r.used == 0,
    {
        GasMeter { limit, used: 0 }
    }

    pub fn remaining(&self) -> (r: u64)
        requires
            self.wf(),
        ensures
            r == self.spec_remaining(),
    {
        self.limit - self.used
    }

    pub fn gas_used(&self) -> (r: u64)
        ensures
            r == self.used,
    {
        self.used
    }

    /// Charges `amount` gas. Fails atomically when the charge would
    /// exceed the limit: no partial charge is applied.
    pub fn charge(&mut self, amount: u64) -> (r: bool)
        requires
            old(self).wf(),
        ensures
            final(self).wf(),
            final(self).limit == old(self).limit,
            r <==> old(self).used + amount <= old(self).limit,
            r ==> final(self).used == old(self).used + amount,
            !r ==> *final(self) == *old(self),
    {
        if amount <= self.limit - self.used {
            self.used = self.used + amount;
            true
        } else {
            false
        }
    }

    /// Consumes everything that is left; used when a frame fails with
    /// an execution error, which forfeits all gas supplied to it.
    pub fn consume_all(&mut self)
        ensures
            final(self).limit == old(self).limit,
            final(self).used == old(self).limit,
            final(self).wf(),
    {
        self.used = self.limit;
    }

    /// Returns gas to the meter, never beyond what was already
    /// consumed: gas cannot be manufactured from nothing.
    pub fn refund(&mut self, amount: u64)
        requires
            old(self).wf(),
        ensures
            final(self).wf(),
            final(self).limit == old(self).limit,
            final(self).used == if amount <= old(self).used {
                old(self).used - amount
            } else {
                0
            },
    {
        if amount <= self.used {
            self.used = self.used - amount;
        } else {
            self.used = 0;
        }
    }
}

} // verus!
