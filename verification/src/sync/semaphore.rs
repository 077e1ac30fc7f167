//! Counting semaphores.
use crate::sync::event_bus;
use crate::sync::event_bus::{EventBus, EventFlag};
use vstd::prelude::*;

verus! {

/// What can be observed of a semaphore.
pub struct SemaphoreState {
    /// Units that can be acquired; none while it is not positive.
    pub count: int,
    /// A removed semaphore fails every acquire.
    pub removed: bool,
    pub process_id: usize,
    /// The published event flags.
    pub flags: u32,
}

/// The flags a semaphore publishes when its count has become `count`.
pub open spec fn published(flags: u32, count: int) -> u32 {
    if count >= 1 {
        flags | EventFlag::SEMAPHORE_CAN_ACQUIRE
    } else {
        flags & !EventFlag::SEMAPHORE_CAN_ACQUIRE
    }
}

/// The state after one unit has been returned.
pub open spec fn released(s: SemaphoreState) -> SemaphoreState {
    SemaphoreState {
        count: s.count + 1,
        flags: if s.count + 1 >= 1 {
            s.flags | EventFlag::SEMAPHORE_CAN_ACQUIRE
        } else {
            s.flags
        },
        ..s
    }
}

/// The state after one unit has been taken.
pub open spec fn acquired(s: SemaphoreState) -> SemaphoreState {
    SemaphoreState {
        count: s.count - 1,
        flags: if s.count - 1 < 1 {
            s.flags & !EventFlag::SEMAPHORE_CAN_ACQUIRE
        } else {
            s.flags
        },
        ..s
    }
}

pub struct Semaphore {
    count: isize,
    process_id: usize,
    removed: bool,
    event_bus: EventBus,
}

/// A unit of a semaphore, held until it is given back by `finish`.
pub struct SemaphoreGuard {
    units: usize,
}

impl View for Semaphore {
    type V = SemaphoreState;

    closed spec fn view(&self) -> SemaphoreState {
        SemaphoreState {
            count: self.count as int,
            removed: self.removed,
            process_id: self.process_id,
            flags: self.event_bus.flags,
        }
    }
}

proof fn lemma_flag_bits(f: u32)
    ensures
        (f | EventFlag::SEMAPHORE_CAN_ACQUIRE) & EventFlag::SEMAPHORE_CAN_ACQUIRE != 0,
        (f & !EventFlag::SEMAPHORE_CAN_ACQUIRE) & EventFlag::SEMAPHORE_CAN_ACQUIRE == 0,
        (f | EventFlag::SEMAPHORE_REMOVED) & EventFlag::SEMAPHORE_CAN_ACQUIRE == f
            & EventFlag::SEMAPHORE_CAN_ACQUIRE,
        0u32 & EventFlag::SEMAPHORE_CAN_ACQUIRE == 0,
{
    assert((f | 0x20_0000u32) & 0x20_0000u32 != 0 && (f & !0x20_0000u32) & 0x20_0000u32 == 0 && (f
        | 0x10_0000u32) & 0x20_0000u32 == f & 0x20_0000u32 && 0u32 & 0x20_0000u32 == 0)
        by (bit_vector);
}

impl Semaphore {
    /// The published acquire flag is only ever up while a unit can be acquired,
    /// and nobody listens on the private bus.
    pub closed spec fn wf(&self) -> bool {
        &&& self.event_bus.callbacks@.len() == 0
        &&& self.event_bus.flags & EventFlag::SEMAPHORE_CAN_ACQUIRE != 0 ==> self.count >= 1
    }

    pub fn new(initial_count: isize) -> (r: Self)
        ensures
            r.wf(),
            r@ == (SemaphoreState {
                count: initial_count as int,
                removed: false,
                process_id: 0,
                flags: 0,
            }),
    {
        proof {
            lemma_flag_bits(0);
        }
        Semaphore {
            count: initial_count,
            removed: false,
            process_id: 0,
            event_bus: EventBus::make(),
        }
    }

    /// Removes the semaphore: every later acquire fails.
    pub fn remove(&mut self)
        requires
            old(self).wf(),
        ensures
            final(self).wf(),
            final(self)@ == (SemaphoreState {
                removed: true,
                flags: old(self)@.flags | EventFlag::SEMAPHORE_REMOVED,
                ..old(self)@
            }),
    {
        self.removed = true;
        let ghost before = self.event_bus;
        self.event_bus.set_flags(EventFlag::SEMAPHORE_REMOVED);
        proof {
            event_bus::lemma_silent_bus(
                before,
                self.event_bus,
                before.flags | EventFlag::SEMAPHORE_REMOVED,
            );
            lemma_flag_bits(before.flags);
        }
    }

    /// Returns one unit.
    pub fn release(&mut self)
        requires
            old(self).wf(),
            old(self)@.count < isize::MAX,
        ensures
            final(self).wf(),
            final(self)@ == released(old(self)@),
    {
        self.count = self.count + 1;
        if self.count >= 1 {
            let ghost before = self.event_bus;
            self.event_bus.set_flags(EventFlag::SEMAPHORE_CAN_ACQUIRE);
            proof {
                event_bus::lemma_silent_bus(
                    before,
                    self.event_bus,
                    before.flags | EventFlag::SEMAPHORE_CAN_ACQUIRE,
                );
                lemma_flag_bits(before.flags);
            }
        }
    }

    /// Takes one unit if there is one, without waiting.
    pub fn try_acquire(&mut self) -> (r: Result<bool, &'static str>)
        requires
            old(self).wf(),
        ensures
            final(self).wf(),
            old(self)@.removed ==> r == Err::<bool, &'static str>("removed"),
            !old(self)@.removed ==> r == Ok::<bool, &'static str>(old(self)@.count >= 1),
            final(self)@ == if !old(self)@.removed && old(self)@.count >= 1 {
                acquired(old(self)@)
            } else {
                old(self)@
            },
    {
        if self.removed {
            return Err("removed");
        }
        if self.count >= 1 {
            self.count = self.count - 1;
            if self.count < 1 {
                let ghost before = self.event_bus;
                self.event_bus.clear_flags(EventFlag::SEMAPHORE_CAN_ACQUIRE);
                proof {
                    event_bus::lemma_silent_bus(
                        before,
                        self.event_bus,
                        before.flags & !EventFlag::SEMAPHORE_CAN_ACQUIRE,
                    );
                    lemma_flag_bits(before.flags);
                }
            }
            Ok(true)
        } else {
            Ok(false)
        }
    }

    /// Takes one unit. A caller that finds none yields and tries again; this call
    /// is the try that ends the wait, with a unit or because of a removal.
    pub fn acquire_by_spinning(&mut self) -> (r: Result<(), &'static str>)
        requires
            old(self).wf(),
            old(self)@.removed || old(self)@.count >= 1,
        ensures
            final(self).wf(),
            old(self)@.removed ==> r == Err::<(), &'static str>("removed") && final(self)@ == old(self)@,
            !old(self)@.removed ==> r == Ok::<(), &'static str>(()) && final(self)@ == acquired(
                old(self)@,
            ),
    {
        match self.try_acquire() {
            Ok(_) => Ok(()),
            Err(e) => Err(e),
        }
    }

    /// As `acquire_by_spinning`, with a guard that stands for the unit taken.
    pub fn access(&mut self) -> (r: Result<SemaphoreGuard, &'static str>)
        requires
            old(self).wf(),
            old(self)@.removed || old(self)@.count >= 1,
        ensures
            final(self).wf(),
            old(self)@.removed ==> r == Err::<SemaphoreGuard, &'static str>("removed") && final(self)@ == old(self)@,
            !old(self)@.removed ==> r is Ok && final(self)@ == acquired(old(self)@),
    {
        match self.acquire_by_spinning() {
            Ok(_) => Ok(SemaphoreGuard { units: 1 }),
            Err(e) => Err(e),
        }
    }

    pub fn get_value(&self) -> (r: isize)
        ensures
            r == self@.count,
    {
        self.count
    }

    pub fn event_callback_count(&self) -> (r: usize)
        requires
            self.wf(),
        ensures
            r == 0,
    {
        self.event_bus.callback_count()
    }

    pub fn get_process_id(&self) -> (r: usize)
        ensures
            r == self@.process_id,
    {
        self.process_id
    }

    pub fn set_process_id(&mut self, process_id: usize)
        requires
            old(self).wf(),
        ensures
            final(self).wf(),
            final(self)@ == (SemaphoreState { process_id, ..old(self)@ }),
    {
        self.process_id = process_id;
    }

    /// Sets the count and publishes whether a unit can be acquired.
    pub fn set_value(&mut self, value: isize)
        requires
            old(self).wf(),
        ensures
            final(self).wf(),
            final(self)@ == (SemaphoreState {
                count: value as int,
                flags: published(old(self)@.flags, value as int),
                ..old(self)@
            }),
    {
        self.count = value;
        let ghost before = self.event_bus;
        if self.count >= 1 {
            self.event_bus.set_flags(EventFlag::SEMAPHORE_CAN_ACQUIRE);
        } else {
            self.event_bus.clear_flags(EventFlag::SEMAPHORE_CAN_ACQUIRE);
        }
        proof {
            event_bus::lemma_silent_bus(before, self.event_bus, published(before.flags, value as int));
            lemma_flag_bits(before.flags);
        }
    }
}

impl SemaphoreGuard {
    /// Ends the access: the unit goes back to the semaphore.
    pub fn finish(self, semaphore: &mut Semaphore)
        requires
            old(semaphore).wf(),
            old(semaphore)@.count < isize::MAX,
        ensures
            final(semaphore).wf(),
            final(semaphore)@ == released(old(semaphore)@),
    {
        semaphore.release();
    }
}

/// Giving back what was taken restores the count, and leaves the acquire flag up:
/// a guarded section costs the semaphore nothing.
pub proof fn lemma_release_undoes_acquire(s: SemaphoreState)
    requires
        s.count >= 1,
    ensures
        released(acquired(s)).count == s.count,
        released(acquired(s)).removed == s.removed,
        released(acquired(s)).flags & EventFlag::SEMAPHORE_CAN_ACQUIRE != 0,
{
    lemma_flag_bits(acquired(s).flags);
}

/// The flag tells whether a unit can be had, and goes on telling it when a unit is taken
/// or returned; each moves the count by one.
pub proof fn lemma_flag_tells_count(s: SemaphoreState, flags: u32, count: int)
    requires
        (s.flags & EventFlag::SEMAPHORE_CAN_ACQUIRE != 0) == (s.count >= 1),
    ensures
        (published(flags, count) & EventFlag::SEMAPHORE_CAN_ACQUIRE != 0) == (count >= 1),
        (acquired(s).flags & EventFlag::SEMAPHORE_CAN_ACQUIRE != 0) == (acquired(s).count >= 1)
            || s.count < 1,
        (released(s).flags & EventFlag::SEMAPHORE_CAN_ACQUIRE != 0) == (released(s).count >= 1),
        acquired(s).count == s.count - 1,
        released(s).count == s.count + 1,
        acquired(s).removed == s.removed && released(s).removed == s.removed,
        acquired(s).process_id == s.process_id && released(s).process_id == s.process_id,
{
    lemma_flag_bits(flags);
    lemma_flag_bits(s.flags);
}

} // verus!
