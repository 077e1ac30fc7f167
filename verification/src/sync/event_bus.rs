//! Event flags with callbacks that run when the flags change.
use crate::seqs;
use vstd::prelude::*;

verus! {

pub struct EventFlag;

impl EventFlag {
    pub const READABLE: u32 = 0x1;

    pub const WRITABLE: u32 = 0x2;

    pub const ERROR: u32 = 0x4;

    pub const CLOSED: u32 = 0x8;

    pub const PROCESS_QUIT: u32 = 0x400;

    pub const CHILD_PROCESS_QUIT: u32 = 0x800;

    pub const RECEIVE_SIGNAL: u32 = 0x1000;

    pub const SEMAPHORE_REMOVED: u32 = 0x10_0000;

    pub const SEMAPHORE_CAN_ACQUIRE: u32 = 0x20_0000;
}

/// A subscriber's callback. It is told the new flags and answers whether it is
/// done; one that is done is dropped. What it is, was told and may answer is for an
/// implementation to say.
pub trait EventCallback: Send {
    /// What tells the callback from others.
    open spec fn identity(&self) -> int {
        arbitrary()
    }

    /// What the callback was told and what it answered, one entry for each call.
    open spec fn history(&self) -> Seq<(u32, bool)> {
        arbitrary()
    }

    /// Whether the callback, told `flags`, may answer `r`.
    open spec fn may_answer(&self, flags: u32, r: bool) -> bool {
        true
    }

    fn call(&mut self, flags: u32) -> (r: bool)
        ensures
            old(self).may_answer(flags, r),
            final(self).identity() == old(self).identity(),
            final(self).history() == old(self).history().push((flags, r)),
    ;
}

/// A callback as a bus keeps it.
pub struct Subscriber {
    pub callback: Box<dyn EventCallback>,
}

/// The flags after clearing `flags_to_clear` and then setting `flags_to_set`.
pub open spec fn changed(flags: u32, flags_to_clear: u32, flags_to_set: u32) -> u32 {
    (flags & !flags_to_clear) | flags_to_set
}

/// `after` is `before` with its flags set to `flags`. If the flags changed, every
/// callback was told the new ones once: those that answered that they are done left,
/// and the others stay in order. Otherwise no callback was called. A call shows only
/// in the callback that it is made of, so which of them is called first is not stated.
pub open spec fn bus_moved(before: EventBus, after: EventBus, flags: u32) -> bool {
    &&& after.flags == flags
    &&& flags == before.flags ==> after.callbacks@ == before.callbacks@
    &&& flags != before.flags ==> exists|told: Seq<Subscriber>, done: Seq<bool>|
        {
            &&& told_once(before.callbacks@, told, flags, done)
            &&& after.callbacks@ == #[trigger] seqs::unflagged(told, done)
        }
}

/// `told` are the callbacks after each has been called once with `flags` and has
/// given its answer in `done`.
pub open spec fn told_once(
    callbacks: Seq<Subscriber>,
    told: Seq<Subscriber>,
    flags: u32,
    done: Seq<bool>,
) -> bool {
    &&& told.len() == callbacks.len()
    &&& done.len() == callbacks.len()
    &&& forall|j: int|
        0 <= j < callbacks.len() ==> {
            &&& callbacks[j].callback.may_answer(flags, #[trigger] done[j])
            &&& told[j].callback.identity() == callbacks[j].callback.identity()
            &&& told[j].callback.history() == callbacks[j].callback.history().push((flags, done[j]))
        }
}

/// Level-triggered event state: the current flags, and who wants to hear of a
/// change.
pub struct EventBus {
    pub flags: u32,
    pub callbacks: Vec<Subscriber>,
}

/// The subscriber has joined those of the bus, behind the others.
pub open spec fn joined(before: EventBus, after: EventBus, subscriber: Subscriber) -> bool {
    let n = before.callbacks@.len() as int;
    &&& after.flags == before.flags
    &&& after.callbacks@.len() == n + 1
    &&& after.callbacks@.take(n) == before.callbacks@
    &&& after.callbacks@[n] == subscriber
}

impl EventBus {
    pub fn make() -> (r: Self)
        ensures
            r.flags == 0,
            r.callbacks@.len() == 0,
    {
        Self { flags: 0, callbacks: Vec::new() }
    }

    /// Drops the callbacks whose flag in `done` is set and keeps the others in
    /// order.
    pub fn retain_callbacks(&mut self, done: &Vec<bool>)
        requires
            done@.len() == old(self).callbacks@.len(),
        ensures
            final(self).flags == old(self).flags,
            final(self).callbacks@ == seqs::unflagged(old(self).callbacks@, done@),
    {
        let ghost all = self.callbacks@;
        let mut kept: usize = 0;
        let mut seen: usize = 0;
        proof {
            assert(seqs::unflagged(all.take(0), done@) =~= Seq::empty());
            assert(self.callbacks@ =~= seqs::unflagged(all.take(0), done@) + all.skip(0));
        }
        while seen < done.len()
            invariant
                self.flags == old(self).flags,
                kept <= seen <= done@.len() == all.len(),
                kept == seqs::unflagged(all.take(seen as int), done@).len(),
                self.callbacks@ == seqs::unflagged(all.take(seen as int), done@) + all.skip(seen as int),
            decreases done.len() - seen,
        {
            proof {
                seqs::lemma_unflagged_step(all, done@, seen as int);
            }
            if done[seen] {
                let _gone = self.callbacks.remove(kept);
                assert(self.callbacks@ =~= seqs::unflagged(all.take(seen + 1), done@) + all.skip(
                    seen + 1,
                ));
            } else {
                kept = kept + 1;
                assert(self.callbacks@ =~= seqs::unflagged(all.take(seen + 1), done@) + all.skip(
                    seen + 1,
                ));
            }
            seen = seen + 1;
        }
        assert(all.take(seen as int) =~= all);
        assert(self.callbacks@ =~= seqs::unflagged(all, done@));
    }

    pub fn set_flags(&mut self, flags_to_set: u32)
        ensures
            bus_moved(*old(self), *final(self), old(self).flags | flags_to_set),
    {
        assert(changed(self.flags, 0, flags_to_set) == self.flags | flags_to_set) by {
            let f = self.flags;
            assert((f & !0u32) | flags_to_set == f | flags_to_set) by (bit_vector);
        }
        self.change_flags(0, flags_to_set);
    }

    pub fn clear_flags(&mut self, flags_to_clear: u32)
        ensures
            bus_moved(*old(self), *final(self), old(self).flags & !flags_to_clear),
    {
        assert(changed(self.flags, flags_to_clear, 0) == self.flags & !flags_to_clear) by {
            let f = self.flags;
            assert((f & !flags_to_clear) | 0u32 == f & !flags_to_clear) by (bit_vector);
        }
        self.change_flags(flags_to_clear, 0);
    }

    /// Clears and sets flags. If the flags change, every callback is called once
    /// with the new flags, and those that answer that they are done are dropped.
    pub fn change_flags(&mut self, flags_to_clear: u32, flags_to_set: u32)
        ensures
            bus_moved(
                *old(self),
                *final(self),
                changed(old(self).flags, flags_to_clear, flags_to_set),
            ),
    {
        let original_flags = self.flags;
        let flags: u32 = (self.flags & !flags_to_clear) | flags_to_set;
        self.flags = flags;
        if flags == original_flags {
            return ;
        }
        let ghost all = self.callbacks@;
        let mut done: Vec<bool> = Vec::new();
        let mut i: usize = 0;
        while i < self.callbacks.len()
            invariant
                i <= all.len(),
                self.callbacks@.len() == all.len(),
                done@.len() == i,
                self.flags == flags,
                told_once(all.take(i as int), self.callbacks@.take(i as int), flags, done@),
                forall|j: int| i <= j < all.len() ==> #[trigger] self.callbacks@[j] == all[j],
            decreases all.len() - i,
        {
            let ghost mid = self.callbacks@;
            let ghost answers = done@;
            let answer: bool = self.callbacks[i].callback.call(flags);
            done.push(answer);
            proof {
                assert forall|j: int| 0 <= j < i + 1 implies {
                    &&& all[j].callback.may_answer(flags, #[trigger] done@[j])
                    &&& self.callbacks@[j].callback.identity() == all[j].callback.identity()
                    &&& self.callbacks@[j].callback.history() == all[j].callback.history().push((flags, done@[j]))
                } by {
                    if j < i {
                        assert(self.callbacks@[j] == mid[j]);
                        assert(answers[j] == done@[j]);
                        assert(all.take(i as int)[j] == all[j]);
                        assert(mid.take(i as int)[j] == mid[j]);
                    }
                }
            }
            i = i + 1;
        }
        assert(all.take(i as int) =~= all);
        assert(self.callbacks@.take(i as int) =~= self.callbacks@);
        self.retain_callbacks(&done);
    }

    pub fn subscribe(&mut self, subscriber: Subscriber)
        ensures
            joined(*old(self), *final(self), subscriber),
    {
        self.callbacks.push(subscriber);
        assert(self.callbacks@.take(old(self).callbacks@.len() as int) =~= old(self).callbacks@);
    }

    pub fn callback_count(&self) -> (r: usize)
        ensures
            r == self.callbacks@.len(),
    {
        self.callbacks.len()
    }

    /// Short name of `set_flags`.
    pub fn set(&mut self, flags_to_set: u32)
        ensures
            bus_moved(*old(self), *final(self), old(self).flags | flags_to_set),
    {
        self.set_flags(flags_to_set);
    }

    /// Short name of `clear_flags`.
    pub fn clear(&mut self, flags_to_clear: u32)
        ensures
            bus_moved(*old(self), *final(self), old(self).flags & !flags_to_clear),
    {
        self.clear_flags(flags_to_clear);
    }

    /// Short name of `change_flags`.
    pub fn change(&mut self, flags_to_clear: u32, flags_to_set: u32)
        ensures
            bus_moved(
                *old(self),
                *final(self),
                changed(old(self).flags, flags_to_clear, flags_to_set),
            ),
    {
        self.change_flags(flags_to_clear, flags_to_set);
    }

    /// Short name of `subscribe`.
    pub fn sub(&mut self, subscriber: Subscriber)
        ensures
            joined(*old(self), *final(self), subscriber),
    {
        self.callbacks.push(subscriber);
        assert(self.callbacks@.take(old(self).callbacks@.len() as int) =~= old(self).callbacks@);
    }

    /// Short name of `callback_count`.
    pub fn cb_len(&self) -> (r: usize)
        ensures
            r == self.callbacks@.len(),
    {
        self.callback_count()
    }
}

proof fn lemma_unflagged_from<T>(s: Seq<T>, gone: Seq<bool>, k: int)
    requires
        s.len() <= gone.len(),
        0 <= k < seqs::unflagged(s, gone).len(),
    ensures
        exists|j: int|
            0 <= j < s.len() && !#[trigger] gone[j] && s[j] == seqs::unflagged(s, gone)[k],
    decreases s.len(),
{
    if s.len() > 0 {
        let f = s.drop_last();
        let rest = seqs::unflagged(f, gone);
        if k < rest.len() {
            lemma_unflagged_from(f, gone, k);
            let j = choose|j: int| 0 <= j < f.len() && !#[trigger] gone[j] && f[j] == rest[k];
            assert(s[j] == rest[k]);
        } else {
            assert(!gone[s.len() - 1]);
        }
    }
}

/// After a change of flags, every callback that is left is one of those before, has
/// been told the new flags once more, and has answered that it is not done.
pub proof fn lemma_who_stays_said_no(before: EventBus, after: EventBus, flags: u32, k: int)
    requires
        bus_moved(before, after, flags),
        flags != before.flags,
        0 <= k < after.callbacks@.len(),
    ensures
        exists|j: int|
            {
                let was = #[trigger] before.callbacks@[j].callback;
                let is = after.callbacks@[k].callback;
                &&& 0 <= j < before.callbacks@.len()
                &&& is.identity() == was.identity()
                &&& is.history() == was.history().push((flags, false))
            },
{
    let (told, done) = choose|told: Seq<Subscriber>, done: Seq<bool>|
        {
            &&& told_once(before.callbacks@, told, flags, done)
            &&& after.callbacks@ == #[trigger] seqs::unflagged(told, done)
        };
    lemma_unflagged_from(told, done, k);
    let j = choose|j: int| 0 <= j < told.len() && !#[trigger] done[j] && told[j] == after.callbacks@[k];
    let was = before.callbacks@[j].callback;
    assert(after.callbacks@[k].callback.history() == was.history().push((flags, false)));
}

/// A bus nobody subscribed to only ever moves its flags.
pub proof fn lemma_silent_bus(before: EventBus, after: EventBus, flags: u32)
    requires
        bus_moved(before, after, flags),
        before.callbacks@.len() == 0,
    ensures
        after.flags == flags,
        after.callbacks@.len() == 0,
{
}

/// Setting flags that are already set is idempotent: no flag moves and no
/// callback runs.
pub proof fn lemma_set_is_idempotent(before: EventBus, mid: EventBus, after: EventBus, flags: u32)
    requires
        bus_moved(before, mid, before.flags | flags),
        bus_moved(mid, after, mid.flags | flags),
    ensures
        after.flags == mid.flags,
        after.callbacks@ == mid.callbacks@,
        bus_moved(before, after, before.flags | flags),
{
    let f = before.flags;
    assert((f | flags) | flags == f | flags) by (bit_vector);
}

/// One look at a bus by a waiter for `event_mask`: the flags, once one of the
/// awaited ones is up; otherwise the waiter yields and looks again.
pub fn wait_for_event_flags(event_bus: &EventBus, event_mask: u32) -> (r: Option<u32>)
    ensures
        r == (if event_bus.flags & event_mask != 0 {
            Some(event_bus.flags)
        } else {
            None
        }),
{
    if event_bus.flags & event_mask != 0 {
        Some(event_bus.flags)
    } else {
        None
    }
}

/// Short name of `wait_for_event_flags`.
pub fn wait_event(event_bus: &EventBus, mask: u32) -> (r: Option<u32>)
    ensures
        r == (if event_bus.flags & mask != 0 {
            Some(event_bus.flags)
        } else {
            None
        }),
{
    wait_for_event_flags(event_bus, mask)
}

/// A change clears the flags to clear and sets those to set, which wins where both are
/// asked for; every other flag stays.
pub proof fn lemma_change_touches_named_flags(flags: u32, clear: u32, set: u32)
    ensures
        changed(flags, clear, set) & set == set,
        changed(flags, clear, set) & (clear & !set) == 0,
        changed(flags, clear, set) & !(clear | set) == flags & !(clear | set),
{
    assert(((flags & !clear) | set) & set == set && ((flags & !clear) | set) & (clear & !set) == 0
        && ((flags & !clear) | set) & !(clear | set) == flags & !(clear | set)) by (bit_vector);
}

} // verus!
