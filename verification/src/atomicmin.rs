//! A monotonically non-increasing size cap shared by compression trials.
//!
//! Trials read it as an early-abort ceiling and lower it when they find a
//! smaller result. In this sequential build it is a plain cell; readers rely
//! only on monotonicity, which the contracts state.

use vstd::prelude::*;

verus! {

pub struct AtomicMin {
    val: Option<usize>,
}

impl AtomicMin {
    /// The current cap, if one has been established.
    pub closed spec fn spec_get(&self) -> Option<usize> {
        self.val
    }

    pub fn new(init: Option<usize>) -> (r: AtomicMin)
        ensures
            r.spec_get() == init,
    {
        AtomicMin { val: init }
    }

    pub fn get(&self) -> (r: Option<usize>)
        ensures
            r == self.spec_get(),
    {
        self.val
    }

    /// Lower the cap to `new` if it is strictly smaller than the current cap
    /// (or no cap exists yet); report whether `new` became the cap.
    pub fn set_min(&mut self, new: usize) -> (r: bool)
        ensures
            r == match old(self).spec_get() {
                None => true,
                Some(v) => new < v,
            },
            final(self).spec_get() == if r {
                Some(new)
            } else {
                old(self).spec_get()
            },
    {
        let better = match self.val {
            None => true,
            Some(v) => new < v,
        };
        if better {
            self.val = Some(new);
        }
        better
    }
}

} // verus!
