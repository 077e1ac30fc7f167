//! The recursive kernel lock, the spin lock and the interrupt-flag guard.
use vstd::prelude::*;

verus! {

/// How a held kernel lock is held: by which host thread, under which diagnostic
/// owner number, and how many times over.
pub struct Hold {
    pub thread: u64,
    pub owner_id: usize,
    pub depth: nat,
}

/// `thread` can enter a lock in state `s` without waiting.
pub open spec fn available_to(s: Option<Hold>, thread: u64) -> bool {
    s matches Some(h) ==> h.thread == thread
}

/// The state of a lock after `thread` has entered it. Re-entry keeps the owner
/// number of the first entry.
pub open spec fn entered(s: Option<Hold>, thread: u64, owner_id: usize) -> Option<Hold> {
    match s {
        Some(h) => Some(Hold { thread: h.thread, owner_id: h.owner_id, depth: h.depth + 1 }),
        None => Some(Hold { thread, owner_id, depth: 1 }),
    }
}

/// The state of a lock after one leave.
pub open spec fn left(s: Option<Hold>) -> Option<Hold> {
    match s {
        Some(h) => if h.depth > 1 {
            Some(Hold { thread: h.thread, owner_id: h.owner_id, depth: (h.depth - 1) as nat })
        } else {
            None
        },
        None => None,
    }
}

/// One more level of recursion fits in the lock's counter.
pub open spec fn depth_fits(s: Option<Hold>) -> bool {
    s matches Some(h) ==> h.depth < usize::MAX
}

/// The recursive global kernel lock. The host thread decides who may re-enter;
/// the owner number is only kept for diagnosis.
pub struct KernelLock {
    locked: bool,
    owner_identifier: usize,
    recursion_depth: usize,
    owner_thread: Option<u64>,
}

impl View for KernelLock {
    type V = Option<Hold>;

    closed spec fn view(&self) -> Option<Hold> {
        match self.owner_thread {
            Some(thread) => Some(
                Hold { thread, owner_id: self.owner_identifier, depth: self.recursion_depth as nat },
            ),
            None => None,
        }
    }
}

impl KernelLock {
    /// A free lock has no owner and no depth; a held one has both.
    pub closed spec fn wf(&self) -> bool {
        &&& self.locked == (self.owner_thread is Some)
        &&& self.locked == (self.recursion_depth > 0)
        &&& !self.locked ==> self.owner_identifier == 0
    }

    /// A held lock is held at least once.
    pub proof fn lemma_held_depth(&self)
        requires
            self.wf(),
        ensures
            self@ matches Some(h) ==> h.depth >= 1,
    {
    }

    pub fn new() -> (r: Self)
        ensures
            r.wf(),
            r@ is None,
    {
        Self { locked: false, owner_identifier: 0, recursion_depth: 0, owner_thread: None }
    }

    fn check_held_by_current_thread(&self, thread: u64) -> (r: bool)
        ensures
            r == (self@ matches Some(h) && h.thread == thread),
    {
        match self.owner_thread {
            Some(owner) => owner == thread,
            None => false,
        }
    }

    /// Enters the lock. A caller that finds it held by another thread waits, by
    /// repeating `try_enter`, until it is free.
    pub fn enter(&mut self, thread: u64, owner_id: usize)
        requires
            old(self).wf(),
            available_to(old(self)@, thread),
            depth_fits(old(self)@),
        ensures
            final(self).wf(),
            final(self)@ == entered(old(self)@, thread, owner_id),
    {
        if self.check_held_by_current_thread(thread) {
            self.recursion_depth = self.recursion_depth + 1;
            return;
        }
        self.locked = true;
        self.owner_thread = Some(thread);
        self.owner_identifier = owner_id;
        self.recursion_depth = 1;
    }

    /// Gives up one level of the lock, whoever holds it; the last level frees it.
    pub fn leave(&mut self)
        requires
            old(self).wf(),
        ensures
            final(self).wf(),
            final(self)@ == left(old(self)@),
    {
        if self.recursion_depth > 1 {
            self.recursion_depth = self.recursion_depth - 1;
            return;
        }
        self.owner_identifier = 0;
        self.recursion_depth = 0;
        self.owner_thread = None;
        self.locked = false;
    }

    pub fn is_held(&self) -> (r: bool)
        requires
            self.wf(),
        ensures
            r == (self@ is Some),
    {
        self.locked
    }

    /// The owner number of the outermost entry, 0 while the lock is free.
    pub fn owner_id(&self) -> (r: usize)
        requires
            self.wf(),
        ensures
            r == (match self@ {
                Some(h) => h.owner_id,
                None => 0,
            }),
    {
        self.owner_identifier
    }

    pub fn recursion_level(&self) -> (r: usize)
        requires
            self.wf(),
        ensures
            r == (match self@ {
                Some(h) => h.depth,
                None => 0,
            }),
    {
        self.recursion_depth
    }

    /// Enters the lock if that needs no waiting, and says whether it did.
    pub fn try_enter(&mut self, thread: u64, owner_id: usize) -> (r: bool)
        requires
            old(self).wf(),
            depth_fits(old(self)@),
        ensures
            final(self).wf(),
            r == available_to(old(self)@, thread),
            r ==> final(self)@ == entered(old(self)@, thread, owner_id),
            !r ==> *final(self) == *old(self),
    {
        if self.check_held_by_current_thread(thread) {
            self.recursion_depth = self.recursion_depth + 1;
            return true;
        }
        if !self.locked {
            self.locked = true;
            self.owner_thread = Some(thread);
            self.owner_identifier = owner_id;
            self.recursion_depth = 1;
            true
        } else {
            false
        }
    }
}

/// Leaving undoes entering: a nested section gives the lock back exactly as the
/// outer section held it.
pub proof fn lemma_leave_undoes_enter(s: Option<Hold>, thread: u64, owner_id: usize)
    requires
        available_to(s, thread),
        s matches Some(h) ==> h.depth >= 1,
    ensures
        left(entered(s, thread, owner_id)) == s,
{
}

/// While the lock is held no other thread can enter it.
pub proof fn lemma_mutual_exclusion(s: Option<Hold>, thread: u64, owner_id: usize, other: u64)
    requires
        available_to(s, thread),
        other != thread,
    ensures
        !available_to(entered(s, thread, owner_id), other),
{
}

/// The state of a lock after `n` leaves.
pub open spec fn left_times(s: Option<Hold>, n: nat) -> Option<Hold>
    decreases n,
{
    if n == 0 {
        s
    } else {
        left_times(left(s), (n - 1) as nat)
    }
}

/// A lock entered to depth `d` is free after exactly `d` leaves, and not before.
pub proof fn lemma_free_after_depth_leaves(h: Hold, n: nat)
    requires
        1 <= h.depth,
        n <= h.depth,
    ensures
        left_times(Some(h), n) is None <==> n == h.depth,
    decreases h.depth,
{
    if n > 0 && h.depth > 1 {
        let inner = Hold { thread: h.thread, owner_id: h.owner_id, depth: (h.depth - 1) as nat };
        lemma_free_after_depth_leaves(inner, (n - 1) as nat);
    }
    if n == 1 && h.depth == 1 {
        assert(left_times(left(Some(h)), 0) is None);
    }
}

/// A spin lock without a guard: whoever acquires it releases it.
pub struct SpinLock {
    pub locked: bool,
}

impl SpinLock {
    pub fn new() -> (r: Self)
        ensures
            !r.locked,
    {
        Self { locked: false }
    }

    /// Takes the lock. A caller that finds it taken spins on `try_acquire`.
    pub fn acquire(&mut self)
        requires
            !old(self).locked,
        ensures
            final(self).locked,
    {
        self.locked = true;
    }

    pub fn try_acquire(&mut self) -> (r: bool)
        ensures
            r == !old(self).locked,
            final(self).locked,
    {
        let was_free = !self.locked;
        self.locked = true;
        was_free
    }

    pub fn release(&mut self)
        ensures
            !final(self).locked,
    {
        self.locked = false;
    }

    pub fn is_held(&self) -> (r: bool)
        ensures
            r == self.locked,
    {
        self.locked
    }
}

/// A guard for saved interrupt flags. On the modelled machine there are none to
/// save, so it holds zero and restores nothing.
pub struct FlagsGuard {
    saved: usize,
}

impl FlagsGuard {
    pub closed spec fn saved_flags(&self) -> usize {
        self.saved
    }

    pub fn enter() -> (r: Self)
        ensures
            r.saved_flags() == 0,
    {
        Self { saved: 0 }
    }
}

/// A free lock is open to everyone and becomes that of the thread that enters; one that
/// is held is open to its holder alone, who enters one level deeper and stays its owner.
pub proof fn lemma_entry_and_reentry(s: Option<Hold>, thread: u64, owner_id: usize, other: u64)
    ensures
        s is None ==> available_to(s, other),
        s matches Some(h) ==> (available_to(s, other) <==> other == h.thread),
        s is None ==> entered(s, thread, owner_id) == Some(Hold { thread, owner_id, depth: 1 }),
        s matches Some(h) ==> (entered(s, thread, owner_id) matches Some(g) && g.thread == h.thread
            && g.owner_id == h.owner_id && g.depth == h.depth + 1),
        left(None) is None,
{
}

} // verus!
