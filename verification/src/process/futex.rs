//! Waiters for a change of a user-space word.
use vstd::prelude::*;

verus! {

/// The threads that wait on one address, first come first.
pub struct FutexBucket {
    pub waiters: Vec<u64>,
}

impl FutexBucket {
    pub fn new() -> (r: Self)
        ensures
            r.waiters@ == Seq::<u64>::empty(),
    {
        Self { waiters: Vec::new() }
    }
}

} // verus!
