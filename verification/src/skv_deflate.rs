//! The memory of a decoder that allocates through callbacks: every allocation is charged, with
//! its prefix, to a budget that is entered once at a time and must be returned in full.
use vstd::prelude::*;

use crate::error::Error;

verus! {

/// The most that a decoder context may hold.
pub const CONTEXT_BOUND: usize = 65536;

/// Bytes before each allocation that remember its charge.
pub const PREFIX: usize = 16;

/// What a decoder context holds.
#[derive(Clone, Copy, Debug, PartialEq, Eq, Structural)]
pub struct Budget {
    pub active: bool,
    pub limit: usize,
    pub live: usize,
    pub peak: usize,
    pub invalid: bool,
}

/// What an allocation of `requested` bytes is charged.
pub open spec fn charge_of(requested: int) -> int {
    (if requested > 1 {
        requested
    } else {
        1
    }) + PREFIX
}

impl Budget {
    /// A budget that nobody entered.
    pub open spec fn idle_spec() -> Budget {
        Budget { active: false, limit: 0, live: 0, peak: 0, invalid: false }
    }

    /// What is held never exceeds its peak, nor the peak the limit, nor the limit the bound.
    pub open spec fn wf(&self) -> bool {
        self.live <= self.peak <= self.limit <= CONTEXT_BOUND
    }

    pub fn idle() -> (r: Budget)
        ensures
            r == Budget::idle_spec(),
            r.wf(),
    {
        Budget { active: false, limit: 0, live: 0, peak: 0, invalid: false }
    }

    /// Enter a budget that nobody else has entered.
    pub fn enter(&mut self, limit: usize) -> (r: Result<(), Error>)
        requires
            old(self).wf(),
        ensures
            final(self).wf(),
            if !(0 < limit <= CONTEXT_BOUND) {
                r == Err::<(), Error>(Error::DecoderBudget) && *final(self) == *old(self)
            } else if old(self).active {
                r == Err::<(), Error>(Error::DecoderReentrant) && *final(self) == *old(self)
            } else {
                r is Ok && *final(self) == (Budget { active: true, limit, ..Budget::idle_spec() })
            },
    {
        if !(limit > 0 && limit <= CONTEXT_BOUND) {
            return Err(Error::DecoderBudget);
        }
        if self.active {
            return Err(Error::DecoderReentrant);
        }
        *self = Budget { active: true, limit, live: 0, peak: 0, invalid: false };
        Ok(())
    }

    /// Charge an allocation, where it fits. The charge is what releasing it gives back.
    pub fn charge(&mut self, requested: usize) -> (r: Option<usize>)
        requires
            old(self).wf(),
        ensures
            final(self).wf(),
            if old(self).active && old(self).live + charge_of(requested as int) <= old(self).limit {
                &&& r == Some(charge_of(requested as int) as usize)
                &&& *final(self) == (Budget {
                    live: (old(self).live + charge_of(requested as int)) as usize,
                    peak: if old(self).live + charge_of(requested as int) > old(self).peak {
                        (old(self).live + charge_of(requested as int)) as usize
                    } else {
                        old(self).peak
                    },
                    ..*old(self)
                })
            } else {
                r is None && *final(self) == *old(self)
            },
    {
        let least: usize = if requested > 1 {
            requested
        } else {
            1
        };
        let charge: usize = match least.checked_add(PREFIX) {
            Some(charge) => charge,
            None => return None,
        };
        let next: usize = match self.live.checked_add(charge) {
            Some(next) => next,
            None => return None,
        };
        if !self.active || next > self.limit {
            return None;
        }
        self.live = next;
        if next > self.peak {
            self.peak = next;
        }
        Some(charge)
    }

    /// Give a charge back. One that was never taken spoils the budget.
    pub fn release(&mut self, charge: usize)
        requires
            old(self).wf(),
        ensures
            final(self).wf(),
            *final(self) == (if old(self).active && charge <= old(self).live {
                Budget { live: (old(self).live - charge) as usize, ..*old(self) }
            } else {
                Budget { live: 0, invalid: true, ..*old(self) }
            }),
    {
        if self.active && charge <= self.live {
            self.live = self.live - charge;
        } else {
            self.invalid = true;
            self.live = 0;
        }
    }

    /// Leave the budget: its peak, where all was given back.
    pub fn finish(&mut self) -> (r: Result<usize, Error>)
        requires
            old(self).wf(),
        ensures
            *final(self) == Budget::idle_spec(),
            r == (if old(self).active && old(self).live == 0 && !old(self).invalid {
                Ok::<usize, Error>(old(self).peak)
            } else {
                Err(Error::DecoderContext)
            }),
    {
        let state: Budget = *self;
        *self = Budget::idle();
        if state.active && state.live == 0 && !state.invalid {
            Ok(state.peak)
        } else {
            Err(Error::DecoderContext)
        }
    }
}

} // verus!
