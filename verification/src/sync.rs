//! A spin lock, as processes see it: one holder at a time.

use vstd::prelude::*;

verus! {

/// A mutual-exclusion bolt. The hardware exchange that makes it safe
/// across processors lives outside the library; here one owner drives it,
/// so taking the lock reports whether it was free rather than spinning on
/// a bolt nobody else could release.
pub struct SpinLock {
    locked: bool,
}

impl SpinLock {
    pub closed spec fn spec_locked(&self) -> bool {
        self.locked
    }

    /// An open lock.
    pub fn new() -> (r: SpinLock)
        ensures
            !r.spec_locked(),
    {
        SpinLock { locked: false }
    }

    /// Takes the lock when it is free; reports whether it was taken.
    pub fn acquire(&mut self) -> (r: bool)
        ensures
            final(self).spec_locked(),
            r == !old(self).spec_locked(),
    {
        let was = self.locked;
        self.locked = true;
        !was
    }

    /// Opens the lock again.
    pub fn release(&mut self)
        ensures
            !final(self).spec_locked(),
    {
        self.locked = false;
    }
}

} // verus!
