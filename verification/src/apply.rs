//! Which committed entries the state machine still has to apply.

use vstd::prelude::*;

verus! {

/// The index of the last log entry applied to the state machine; entries at
/// or below it have been applied already.
pub struct ApplyCursor {
    last_applied: u64,
}

impl ApplyCursor {
    /// The last applied index.
    pub closed spec fn spec_last_applied(&self) -> u64 {
        self.last_applied
    }

    /// Nothing applied yet.
    pub fn new() -> (r: Self)
        ensures
            r.spec_last_applied() == 0,
    {
        ApplyCursor { last_applied: 0 }
    }

    /// The last applied index.
    pub fn last_applied(&self) -> (r: u64)
        ensures
            r == self.spec_last_applied(),
    {
        self.last_applied
    }

    /// Whether the entry at `index` is still to be applied: exactly when it
    /// lies past the last applied index.
    pub fn pending(&self, index: u64) -> (r: bool)
        ensures
            r == (index > self.spec_last_applied()),
    {
        index > self.last_applied
    }

    /// Record that the entry at `index` has been applied: the last applied
    /// index moves up to it, and never moves back. An entry once recorded is
    /// no longer pending.
    pub fn mark_applied(&mut self, index: u64)
        ensures
            final(self).spec_last_applied() == (if index > old(self).spec_last_applied() {
                index
            } else {
                old(self).spec_last_applied()
            }),
            final(self).spec_last_applied() >= old(self).spec_last_applied(),
            final(self).spec_last_applied() >= index,
    {
        if index > self.last_applied {
            self.last_applied = index;
        }
    }
}

} // verus!
