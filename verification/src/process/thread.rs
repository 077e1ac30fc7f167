//! The saved state of a user thread.
use crate::trap::frame::SimTrapFrame;
use vstd::prelude::*;

verus! {

/// A thread id: the number of its task.
pub type Tid = u64;

/// A process group id.
pub type Pgid = i32;

#[derive(Clone, Copy, Debug, PartialEq, Eq)]
pub struct ThreadContext {
    pub user_trap_frame: SimTrapFrame,
    /// Where to store zero when the thread ends.
    pub clear_child_tid: u64,
    pub signal_mask: u64,
}

/// A context with nothing in it.
pub open spec fn is_blank(c: ThreadContext) -> bool {
    &&& c.user_trap_frame@.regs == Seq::new(crate::consts::N_REGS as nat, |i: int| 0u64)
    &&& c.user_trap_frame@.ip == 0
    &&& c.user_trap_frame@.flags == 0
    &&& c.clear_child_tid == 0
    &&& c.signal_mask == 0
}

impl Default for ThreadContext {
    fn default() -> (r: Self)
        ensures
            is_blank(r),
    {
        Self { user_trap_frame: SimTrapFrame::zeroed(), clear_child_tid: 0, signal_mask: 0 }
    }
}

} // verus!
