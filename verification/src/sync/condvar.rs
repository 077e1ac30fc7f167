//! A wait queue of host threads. The queue decides who waits and who is woken;
//! parking and unparking the threads is left to the caller.
use std::collections::VecDeque;
use vstd::prelude::*;

verus! {

/// A task's interest in a file descriptor through an epoll descriptor.
pub struct EpollRegistration {
    pub task_id: u64,
    pub epoll_fd: u64,
    pub watched_fd: u64,
}

/// The waiting threads, longest wait first, and the wake-ups that came while
/// nobody waited.
pub struct WaitQueueInner {
    pub threads: VecDeque<u64>,
    pub saved_wakeups: usize,
}

/// What can be observed of a wait queue.
#[verifier::ext_equal]
pub struct QueueState {
    pub threads: Seq<u64>,
    pub saved: nat,
}

impl View for WaitQueueInner {
    type V = QueueState;

    open spec fn view(&self) -> QueueState {
        QueueState { threads: self.threads@, saved: self.saved_wakeups as nat }
    }
}

impl WaitQueueInner {
    pub fn new() -> (r: Self)
        ensures
            r@ == (QueueState { threads: Seq::empty(), saved: 0 }),
    {
        Self { threads: VecDeque::new(), saved_wakeups: 0 }
    }
}

/// What a thread does next after asking to wait.
#[derive(Clone, Copy, PartialEq, Eq, Structural)]
pub enum ParkStep {
    /// The predicate already holds: do not wait.
    Satisfied,
    /// A saved wake-up was used: do not park, check the predicate once more.
    Recheck,
    /// Park; when woken, check the predicate once more.
    Park,
}

/// What `park_on` tells a thread whose predicate is `satisfied`.
pub open spec fn park_step(q: QueueState, satisfied: bool) -> ParkStep {
    if satisfied {
        ParkStep::Satisfied
    } else if q.saved > 0 {
        ParkStep::Recheck
    } else {
        ParkStep::Park
    }
}

/// The queue after `park_on` has answered `park_step`.
pub open spec fn after_park(q: QueueState, thread: u64, satisfied: bool) -> QueueState {
    match park_step(q, satisfied) {
        ParkStep::Satisfied => q,
        ParkStep::Recheck => QueueState { threads: q.threads, saved: (q.saved - 1) as nat },
        ParkStep::Park => waiting(q, thread),
    }
}

/// The queue with `thread` waiting behind all others.
pub open spec fn waiting(q: QueueState, thread: u64) -> QueueState {
    QueueState { threads: q.threads.push(thread), saved: q.saved }
}

/// The queue after one signal.
pub open spec fn after_signal(q: QueueState) -> QueueState {
    if q.threads.len() == 0 {
        QueueState { threads: q.threads, saved: q.saved + 1 }
    } else {
        QueueState { threads: q.threads.skip(1), saved: q.saved }
    }
}

pub open spec fn lesser(a: int, b: int) -> int {
    if a < b {
        a
    } else {
        b
    }
}

/// `item` stands in `s` at `i` and nowhere before.
pub open spec fn first_at<T>(s: Seq<T>, item: T, i: int) -> bool {
    &&& 0 <= i < s.len()
    &&& s[i] == item
    &&& forall|j: int| 0 <= j < i ==> s[j] != item
}

pub struct SynchronizationQueue {
    pub wait_queue: WaitQueueInner,
    pub epoll_registrations: VecDeque<EpollRegistration>,
}

impl SynchronizationQueue {
    pub fn new() -> (r: Self)
        ensures
            r.wait_queue@ == (QueueState { threads: Seq::empty(), saved: 0 }),
            r.epoll_registrations@.len() == 0,
    {
        Self { wait_queue: WaitQueueInner::new(), epoll_registrations: VecDeque::new() }
    }

    /// A thread that has just evaluated its predicate asks to wait.
    pub fn park_on(&mut self, thread: u64, satisfied: bool) -> (r: ParkStep)
        ensures
            r == park_step(old(self).wait_queue@, satisfied),
            final(self).wait_queue@ == after_park(old(self).wait_queue@, thread, satisfied),
            final(self).epoll_registrations == old(self).epoll_registrations,
    {
        if satisfied {
            return ParkStep::Satisfied;
        }
        if self.wait_queue.saved_wakeups > 0 {
            self.wait_queue.saved_wakeups = self.wait_queue.saved_wakeups - 1;
            return ParkStep::Recheck;
        }
        self.wait_queue.threads.push_back(thread);
        ParkStep::Park
    }

    /// What the wait returns, given the step taken and what the predicate said
    /// when it was checked again. Being woken is not enough to succeed.
    pub fn park_result(step: ParkStep, predicate_after: bool) -> (r: bool)
        ensures
            r == (step == ParkStep::Satisfied || predicate_after),
    {
        match step {
            ParkStep::Satisfied => true,
            ParkStep::Recheck | ParkStep::Park => predicate_after,
        }
    }

    /// Names the thread to unpark. With nobody waiting the wake-up is saved.
    pub fn signal(&mut self) -> (r: Option<u64>)
        requires
            old(self).wait_queue@.threads.len() == 0 ==> old(self).wait_queue@.saved < usize::MAX,
        ensures
            final(self).wait_queue@ == after_signal(old(self).wait_queue@),
            r == (if old(self).wait_queue@.threads.len() == 0 {
                None
            } else {
                Some(old(self).wait_queue@.threads[0])
            }),
            final(self).epoll_registrations == old(self).epoll_registrations,
    {
        if self.wait_queue.threads.len() == 0 {
            self.wait_queue.saved_wakeups = self.wait_queue.saved_wakeups + 1;
            None
        } else {
            self.wait_queue.threads.pop_front()
        }
    }

    /// Names every waiting thread, in order, to be unparked. Saves nothing.
    pub fn broadcast(&mut self) -> (r: Vec<u64>)
        ensures
            r@ == old(self).wait_queue@.threads,
            final(self).wait_queue@ == (QueueState {
                threads: Seq::empty(),
                saved: old(self).wait_queue@.saved,
            }),
            final(self).epoll_registrations == old(self).epoll_registrations,
    {
        let n = self.wait_queue.threads.len();
        let r = self.signal_many(n);
        assert(r@ =~= old(self).wait_queue@.threads);
        assert(self.wait_queue@.threads =~= Seq::empty());
        r
    }

    /// Names up to `requested_count` waiting threads, longest wait first, to be
    /// unparked; how many is the length of the answer. Saves nothing.
    pub fn signal_many(&mut self, requested_count: usize) -> (r: Vec<u64>)
        ensures
            ({
                let q = old(self).wait_queue@;
                let n = lesser(requested_count as int, q.threads.len() as int);
                &&& r@ == q.threads.take(n)
                &&& final(self).wait_queue@ == (QueueState {
                    threads: q.threads.skip(n),
                    saved: q.saved,
                })
            }),
            final(self).epoll_registrations == old(self).epoll_registrations,
    {
        let ghost q = self.wait_queue@;
        let available_count = self.wait_queue.threads.len();
        let wake_count: usize = if requested_count < available_count {
            requested_count
        } else {
            available_count
        };
        let mut woken: Vec<u64> = Vec::new();
        assert(q.threads.skip(0) =~= q.threads);
        while woken.len() < wake_count
            invariant
                woken@.len() <= wake_count <= q.threads.len(),
                woken@ == q.threads.take(woken@.len() as int),
                self.wait_queue@ == (QueueState {
                    threads: q.threads.skip(woken@.len() as int),
                    saved: q.saved,
                }),
                self.epoll_registrations == old(self).epoll_registrations,
            decreases wake_count - woken@.len(),
        {
            match self.wait_queue.threads.pop_front() {
                Some(thread) => {
                    woken.push(thread);
                    assert(woken@ =~= q.threads.take(woken@.len() as int));
                    assert(self.wait_queue@.threads =~= q.threads.skip(woken@.len() as int));
                },
                None => {
                    assert(false);
                },
            }
        }
        woken
    }

    /// How many threads wait; saved wake-ups do not count.
    pub fn pending_waiters(&self) -> (r: usize)
        ensures
            r == self.wait_queue@.threads.len(),
    {
        self.wait_queue.threads.len()
    }

    /// One round of waiting for an event. `outcome` is what the condition says
    /// now: once it says something, that is the result; until then the thread
    /// waits in the queue, parks, and asks again when woken.
    pub fn wait_event(&mut self, thread: u64, outcome: Option<bool>) -> (r: Option<bool>)
        ensures
            r == outcome,
            final(self).wait_queue@ == if outcome is Some {
                old(self).wait_queue@
            } else {
                waiting(old(self).wait_queue@, thread)
            },
            final(self).epoll_registrations == old(self).epoll_registrations,
    {
        if outcome.is_none() {
            self.wait_queue.threads.push_back(thread);
        }
        outcome
    }

    /// As `wait_event`, waiting in all of `queues` at once.
    pub fn wait_events(
        queues: &mut Vec<SynchronizationQueue>,
        thread: u64,
        outcome: Option<bool>,
    ) -> (r: Option<bool>)
        ensures
            r == outcome,
            final(queues)@.len() == old(queues)@.len(),
            forall|i: int|
                0 <= i < old(queues)@.len() ==> {
                    &&& (#[trigger] final(queues)@[i]).wait_queue@ == if outcome is Some {
                        old(queues)@[i].wait_queue@
                    } else {
                        waiting(old(queues)@[i].wait_queue@, thread)
                    }
                    &&& final(queues)@[i].epoll_registrations
                        == old(queues)@[i].epoll_registrations
                },
    {
        if outcome.is_none() {
            let mut i: usize = 0;
            while i < queues.len()
                invariant
                    i <= queues@.len() == old(queues)@.len(),
                    forall|j: int|
                        0 <= j < queues@.len() ==> {
                            &&& (#[trigger] queues@[j]).wait_queue@ == if j < i {
                                waiting(old(queues)@[j].wait_queue@, thread)
                            } else {
                                old(queues)@[j].wait_queue@
                            }
                            &&& queues@[j].epoll_registrations
                                == old(queues)@[j].epoll_registrations
                        },
                decreases queues@.len() - i,
            {
                queues[i].wait_queue.threads.push_back(thread);
                i = i + 1;
            }
        }
        outcome
    }

    /// The thread waits in the queue; it parks next.
    pub fn wait_guard(&mut self, thread: u64)
        ensures
            final(self).wait_queue@ == waiting(old(self).wait_queue@, thread),
            final(self).epoll_registrations == old(self).epoll_registrations,
    {
        self.wait_queue.threads.push_back(thread);
    }

    /// As `wait_guard`, for a thread that parks with a timeout. Whether the time
    /// ran out is not told: the answer is always yes, and the thread stays queued.
    pub fn wait_timeout(&mut self, thread: u64) -> (r: bool)
        ensures
            r,
            final(self).wait_queue@ == waiting(old(self).wait_queue@, thread),
            final(self).epoll_registrations == old(self).epoll_registrations,
    {
        self.wait_queue.threads.push_back(thread);
        true
    }

    pub fn register_epoll(&mut self, task_id: u64, epoll_fd: u64, watched_fd: u64)
        ensures
            final(self).wait_queue == old(self).wait_queue,
            final(self).epoll_registrations@ == old(self).epoll_registrations@.push(
                EpollRegistration { task_id, epoll_fd, watched_fd },
            ),
    {
        self.epoll_registrations.push_back(EpollRegistration { task_id, epoll_fd, watched_fd });
    }

    /// Removes the first registration of exactly this interest, if there is one.
    pub fn unregister_epoll(&mut self, task_id: u64, epoll_fd: u64, watched_fd: u64) -> (r: bool)
        ensures
            final(self).wait_queue == old(self).wait_queue,
            ({
                let regs = old(self).epoll_registrations@;
                let wanted = EpollRegistration { task_id, epoll_fd, watched_fd };
                &&& r == regs.contains(wanted)
                &&& r ==> exists|i: int|
                    #[trigger] first_at(regs, wanted, i) && final(self).epoll_registrations@
                        == regs.remove(i)
                &&& !r ==> final(self).epoll_registrations@ == regs
            }),
    {
        let ghost regs = self.epoll_registrations@;
        let ghost wanted = EpollRegistration { task_id, epoll_fd, watched_fd };
        let mut index: usize = 0;
        while index < self.epoll_registrations.len()
            invariant
                index <= regs.len(),
                self.epoll_registrations@ == regs,
                regs == old(self).epoll_registrations@,
                self.wait_queue == old(self).wait_queue,
                wanted == (EpollRegistration { task_id, epoll_fd, watched_fd }),
                forall|i: int| 0 <= i < index ==> regs[i] != wanted,
            decreases regs.len() - index,
        {
            if self.epoll_registrations[index].task_id == task_id
                && self.epoll_registrations[index].epoll_fd == epoll_fd
                && self.epoll_registrations[index].watched_fd == watched_fd {
                let _gone = self.epoll_registrations.remove(index);
                proof {
                    assert(first_at(regs, wanted, index as int));
                    assert(regs.contains(wanted));
                }
                return true;
            }
            index = index + 1;
        }
        false
    }
}

/// A signal that comes before anyone waits is not lost: the next thread that
/// asks to wait does not park, and the queue is back as it was.
pub proof fn lemma_early_signal_is_kept(q: QueueState, thread: u64)
    requires
        q.threads.len() == 0,
    ensures
        park_step(after_signal(q), false) == ParkStep::Recheck,
        after_park(after_signal(q), thread, false) == q,
{
}

/// A thread that parks alone is the one the next signal names, and the signal
/// empties the queue again.
pub proof fn lemma_signal_wakes_waiter(q: QueueState, thread: u64)
    requires
        q.threads.len() == 0,
        q.saved == 0,
    ensures
        park_step(q, false) == ParkStep::Park,
        after_park(q, thread, false).threads[0] == thread,
        after_signal(after_park(q, thread, false)) == q,
{
    assert(after_signal(after_park(q, thread, false)).threads =~= q.threads);
}

/// Threads are woken in the order in which they parked: the first signal is for the
/// first of them, and those behind move up.
pub proof fn lemma_first_parked_is_woken_first(q: QueueState, a: u64, b: u64)
    requires
        q.saved == 0,
    ensures
        ({
            let two = after_park(after_park(q, a, false), b, false);
            let n = q.threads.len() as int;
            &&& two.threads.len() == n + 2
            &&& two.threads[n] == a && two.threads[n + 1] == b
            &&& n == 0 ==> after_signal(two).threads == seq![b]
            &&& n > 0 ==> two.threads[0] == q.threads[0] && after_signal(two).threads
                == q.threads.skip(1).push(a).push(b)
            &&& after_signal(two).saved == 0
        }),
{
    let two = after_park(after_park(q, a, false), b, false);
    if q.threads.len() == 0 {
        assert(after_signal(two).threads =~= seq![b]);
    } else {
        assert(after_signal(two).threads =~= q.threads.skip(1).push(a).push(b));
    }
}

/// A thread whose condition holds does not park, and takes no saved signal; one that
/// finds a saved signal takes one and looks again.
pub proof fn lemma_who_parks(q: QueueState, thread: u64)
    ensures
        park_step(q, true) == ParkStep::Satisfied,
        after_park(q, thread, true) == q,
        park_step(q, false) == ParkStep::Park <==> q.saved == 0,
        q.saved > 0 ==> after_park(q, thread, false).saved == q.saved - 1 && after_park(
            q,
            thread,
            false,
        ).threads == q.threads,
        q.threads.len() == 0 ==> after_signal(q).saved == q.saved + 1,
        q.threads.len() > 0 ==> after_signal(q).saved == q.saved,
{
}

} // verus!
