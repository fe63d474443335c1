//! Cooperative cancellation. Long work polls a flag between bounded steps.
use std::sync::atomic::AtomicBool;
use vstd::prelude::*;

use crate::error::Error;

verus! {

/// Something that bounded work asks whether it should stop.
pub trait Cancel {
    /// No poll ever answers yes.
    spec fn never(&self) -> bool;

    /// Every poll answers yes.
    spec fn always(&self) -> bool;

    /// Whether a stop is requested now.
    fn requested(&self) -> (r: bool)
        ensures
            self.never() ==> !r,
            self.always() ==> r,
    ;
}

/// A flag that another thread may set at any time: each poll may answer either way.
impl Cancel for AtomicBool {
    open spec fn never(&self) -> bool {
        false
    }

    open spec fn always(&self) -> bool {
        false
    }

    fn requested(&self) -> (r: bool) {
        self.load(std::sync::atomic::Ordering::Relaxed)
    }
}

/// A signal that does not change while work runs.
#[derive(Clone, Copy, Debug, PartialEq, Eq, Structural)]
pub struct Fixed {
    pub requested: bool,
}

impl Cancel for Fixed {
    open spec fn never(&self) -> bool {
        !self.requested
    }

    open spec fn always(&self) -> bool {
        self.requested
    }

    fn requested(&self) -> (r: bool) {
        self.requested
    }
}

/// What one poll answers when it is turned into an error.
pub open spec fn polled<C: Cancel>(cancel: &C, r: Result<(), Error>) -> bool {
    &&& r is Ok || r == Err::<(), Error>(Error::Cancelled)
    &&& cancel.never() ==> r is Ok
    &&& cancel.always() ==> r is Err
}

/// Stop with [`Error::Cancelled`] if a stop is requested.
pub fn check_cancel<C: Cancel>(cancel: &C) -> (r: Result<(), Error>)
    ensures
        polled(cancel, r),
{
    if cancel.requested() {
        Err(Error::Cancelled)
    } else {
        Ok(())
    }
}

/// How work that polls `cancel` ends: stopped, which takes a signal that can say yes, or at
/// its own end, where `done` holds. Under a signal that always says yes it never succeeds.
pub open spec fn ended<C: Cancel, T>(cancel: &C, r: Result<T, Error>, done: bool) -> bool {
    &&& if r == Err::<T, Error>(Error::Cancelled) {
        !cancel.never()
    } else {
        done
    }
    &&& cancel.always() ==> r is Err
}

} // verus!
