//! Tasks.
use crate::consts::{SIGKILL, SIGSTOP, UNMASKABLE};
use crate::fs::file;
use crate::fs::file::{EpInst, FLike};
use crate::fs::pipe;
use crate::fs::pipe::{PipeBuf, PipeTable};
use crate::ipc::semary::SemCtx;
use crate::ipc::shared_mem::ShmCtx;
use crate::keys;
use crate::keys::{first_free, lowest_key, sorted_keys};
use crate::memory::addr::KernelStack;
use crate::process::structs;
use crate::process::structs::Pid;
use crate::process::thread;
use crate::process::thread::{Pgid, ThreadContext, Tid};
use crate::sync::event_bus;
use crate::sync::event_bus::{EventBus, EventFlag};
use crate::util::words;
use std::collections::{BTreeMap, VecDeque};
use vstd::prelude::*;

verus! {

broadcast use vstd::std_specs::btree::group_btree_axioms;

/// A handle of a task: its place in the table of all tasks.
pub type TaskRef = usize;

/// Who a task is.
pub struct TaskInfo {
    pub id: u64,
    pub tag: String,
    /// The exit status; a task that has one is done.
    pub status: Option<i32>,
    pub fds: Vec<String>,
}

/// A task: a process or one of its threads.
pub struct Task {
    pub info: TaskInfo,
    pub parent: Option<TaskRef>,
    pub subtasks: Vec<TaskRef>,
    pub files: BTreeMap<u64, FLike>,
    pub cwd: String,
    pub exec_path: String,
    pub sem_ctx: SemCtx,
    pub shm_ctx: ShmCtx,
    pub pid: Pid,
    pub pgid: Pgid,
    pub threads: Vec<Tid>,
    pub event_bus: EventBus,
    pub exit_code: u64,
    /// Pending signals with the id of their sender.
    pub sig_queue: VecDeque<(i32, i64)>,
    pub sig_mask: u64,
    pub ep_inst: BTreeMap<u64, EpInst>,
    pub kernel_stack: Option<KernelStack>,
    /// The saved context, while the task does not run.
    pub thread_context: Option<ThreadContext>,
    /// The end of the heap.
    pub vm_token: u64,
    pub fault_count: u64,
    pub last_fault_count: u64,
}

/// A task that was just made.
pub open spec fn is_fresh(t: Task, id: u64, tag: Seq<char>) -> bool {
    &&& t.info.id == id
    &&& t.info.tag@ == tag
    &&& t.info.status is None
    &&& t.info.fds@.len() == 0
    &&& t.parent is None
    &&& t.subtasks@ == Seq::<usize>::empty()
    &&& t.files@ == Map::<u64, FLike>::empty()
    &&& t.cwd@ == seq!['/']
    &&& t.exec_path@ == Seq::<char>::empty()
    &&& t.sem_ctx.arrays@ == Map::<u64, usize>::empty()
    &&& t.shm_ctx.ids@ == Map::<u64, crate::ipc::shared_mem::ShmTag>::empty()
    &&& t.pid == Pid(0)
    &&& t.pgid == 0
    &&& t.threads@ == Seq::<u64>::empty()
    &&& t.event_bus.flags == 0
    &&& t.event_bus.callbacks@.len() == 0
    &&& t.exit_code == 0
    &&& t.sig_queue@ == Seq::<(i32, i64)>::empty()
    &&& t.sig_mask == 0
    &&& t.ep_inst@ == Map::<u64, EpInst>::empty()
    &&& t.kernel_stack is None
    &&& t.thread_context matches Some(c) && thread::is_blank(c)
    &&& t.vm_token == 0
    &&& t.fault_count == 0
    &&& t.last_fault_count == 0
}

/// The parent of the task is the one at `p`.
pub open spec fn child_of(t: Task, p: int) -> bool {
    t.parent matches Some(q) && q == p
}

/// The task has exited.
pub open spec fn is_done(t: Task) -> bool {
    t.info.status is Some
}

/// Some pending signal has this number.
pub open spec fn has_signo(q: Seq<(i32, i64)>, signo: i32) -> bool {
    exists|i: int| 0 <= i < q.len() && (#[trigger] q[i]).0 == signo
}

/// The queue after a signal: each number is queued once.
pub open spec fn queued(q: Seq<(i32, i64)>, signo: i32, sender: i64) -> Seq<(i32, i64)> {
    if has_signo(q, signo) {
        q
    } else {
        q.push((signo, sender))
    }
}

/// The task after it has been sent a signal.
pub open spec fn signalled(before: Task, after: Task, signo: i32, sender: i64) -> bool {
    &&& after == (Task {
        sig_queue: after.sig_queue,
        event_bus: after.event_bus,
        ..before
    })
    &&& after.sig_queue@ == queued(before.sig_queue@, signo, sender)
    &&& event_bus::bus_moved(
        before.event_bus,
        after.event_bus,
        before.event_bus.flags | EventFlag::RECEIVE_SIGNAL,
    )
}

/// The signal has a bit in the mask, and it is not set or cannot mask the signal.
pub open spec fn gets_through(signo: i32, mask: u64) -> bool {
    0 < signo < 64 && !words::bit(mask & !UNMASKABLE, signo as u64)
}

/// Every pipe that the table names exists.
pub open spec fn files_wf(files: Map<u64, FLike>, pipes: Seq<PipeBuf>) -> bool {
    forall|fd: u64| #[trigger]
        files.contains_key(fd) ==> (file::pipe_of(files[fd]) matches Some(p) ==> p.wf(pipes))
}

/// Every pipe can lose `n` ends.
pub open spec fn ends_left(pipes: Seq<PipeBuf>, n: nat) -> bool {
    forall|i: int| 0 <= i < pipes.len() ==> (#[trigger] pipes[i]).ends - n >= i32::MIN
}

/// 1 if the entry names pipe `i`, else 0.
pub open spec fn hit(f: FLike, i: int) -> nat {
    match file::pipe_of(f) {
        Some(p) => if p.data == i {
            1
        } else {
            0
        },
        None => 0,
    }
}

/// How many of the listed entries name pipe `i`.
pub open spec fn hits(list: Seq<u64>, files: Map<u64, FLike>, i: int) -> nat
    decreases list.len(),
{
    if list.len() == 0 {
        0
    } else {
        hits(list.drop_last(), files, i) + hit(files[list.last()], i)
    }
}

/// A pipe after `n` of its nodes have been closed.
pub open spec fn closed_times(before: PipeBuf, after: PipeBuf, n: nat) -> bool {
    if n == 0 {
        after == before
    } else {
        &&& after.buf@ == before.buf@
        &&& after.ends == before.ends - n
        &&& event_bus::bus_moved(
            before.event_bus,
            after.event_bus,
            before.event_bus.flags | EventFlag::CLOSED,
        )
    }
}

/// The pipes after each has lost as many nodes as `n` says.
pub open spec fn pipes_closed(before: Seq<PipeBuf>, after: Seq<PipeBuf>, n: spec_fn(int) -> nat) -> bool {
    &&& after.len() == before.len()
    &&& forall|i: int|
        0 <= i < before.len() ==> closed_times(before[i], #[trigger] after[i], n(i))
}

proof fn lemma_closed_again(a: PipeBuf, b: PipeBuf, c: PipeBuf, n: nat)
    requires
        closed_times(a, b, n),
        pipe::end_closed(b, c),
    ensures
        closed_times(a, c, n + 1),
{
    if n > 0 {
        event_bus::lemma_set_is_idempotent(
            a.event_bus,
            b.event_bus,
            c.event_bus,
            EventFlag::CLOSED,
        );
    }
}

/// Drops an entry of a descriptor table: the node of a pipe is closed.
pub fn drop_entry(entry: FLike, pipes: &mut PipeTable)
    requires
        file::pipe_of(entry) matches Some(p) ==> p.wf(old(pipes)@) && old(pipes)@[p.data as int].ends
            > i32::MIN,
    ensures
        final(pipes)@.len() == old(pipes)@.len(),
        match file::pipe_of(entry) {
            Some(p) => pipe::others_same(old(pipes)@, final(pipes)@, p.data as int)
                && pipe::end_closed(old(pipes)@[p.data as int], final(pipes)@[p.data as int]),
            None => final(pipes)@ == old(pipes)@,
        },
        pipes_closed(old(pipes)@, final(pipes)@, |i: int| hit(entry, i)),
{
    match entry {
        FLike::Pipe(p) => {
            p.close(pipes);
        },
        _ => {},
    }
}

proof fn lemma_closed_step(
    p0: Seq<PipeBuf>,
    p1: Seq<PipeBuf>,
    p2: Seq<PipeBuf>,
    entry: FLike,
    n: spec_fn(int) -> nat,
    m: spec_fn(int) -> nat,
)
    requires
        pipes_closed(p0, p1, n),
        p2.len() == p1.len(),
        match file::pipe_of(entry) {
            Some(p) => p.wf(p1) && pipe::others_same(p1, p2, p.data as int) && pipe::end_closed(
                p1[p.data as int],
                p2[p.data as int],
            ),
            None => p2 == p1,
        },
        forall|i: int| 0 <= i < p0.len() ==> #[trigger] m(i) == n(i) + hit(entry, i),
    ensures
        pipes_closed(p0, p2, m),
{
    assert forall|i: int| 0 <= i < p0.len() implies closed_times(p0[i], #[trigger] p2[i], m(i)) by {
        assert(closed_times(p0[i], p1[i], n(i)));
        assert(m(i) == n(i) + hit(entry, i));
        match file::pipe_of(entry) {
            Some(p) => {
                if p.data == i {
                    lemma_closed_again(p0[i], p1[i], p2[i], n(i));
                }
            },
            None => {},
        }
    }
}

/// The niceness of a task with so many page faults since the last time: one for
/// each four of them, but at most 19.
pub open spec fn nice_of(faults: int) -> int {
    if faults / 4 < 19 {
        faults / 4
    } else {
        19
    }
}

impl Task {
    pub fn make(id: u64, tag: &str) -> (r: Self)
        ensures
            is_fresh(r, id, tag@),
    {
        proof {
            reveal_strlit("/");
            assert("/"@ =~= seq!['/']);
        }
        Self {
            info: TaskInfo { id, tag: tag.to_owned(), status: None, fds: Vec::new() },
            parent: None,
            subtasks: Vec::new(),
            files: BTreeMap::new(),
            cwd: "/".to_owned(),
            exec_path: String::new(),
            sem_ctx: SemCtx::new(),
            shm_ctx: ShmCtx::new(),
            pid: Pid::new(),
            pgid: 0,
            threads: Vec::new(),
            event_bus: EventBus::make(),
            exit_code: 0,
            sig_queue: VecDeque::new(),
            sig_mask: 0,
            ep_inst: BTreeMap::new(),
            kernel_stack: None,
            thread_context: Some(ThreadContext::default()),
            vm_token: 0,
            fault_count: 0,
            last_fault_count: 0,
        }
    }

    pub fn id(&self) -> (r: u64)
        ensures
            r == self.info.id,
    {
        self.info.id
    }

    pub fn tag(&self) -> (r: String)
        ensures
            r@ == self.info.tag@,
    {
        self.info.tag.clone()
    }

    pub fn link_parent(&mut self, p: TaskRef)
        ensures
            *final(self) == (Task { parent: Some(p), ..*old(self) }),
    {
        self.parent = Some(p);
    }

    pub fn link_child(&mut self, c: TaskRef)
        ensures
            *final(self) == (Task { subtasks: final(self).subtasks, ..*old(self) }),
            final(self).subtasks@ == old(self).subtasks@.push(c),
    {
        self.subtasks.push(c);
    }

    pub fn done(&self) -> (r: bool)
        ensures
            r == is_done(*self),
    {
        self.info.status.is_some()
    }

    pub fn n_children(&self) -> (r: usize)
        ensures
            r == self.subtasks@.len(),
    {
        self.subtasks.len()
    }

    /// The lowest free descriptor.
    pub fn get_free_fd(&self) -> (r: u64)
        ensures
            keys::lowest_free(self.files@, 0, r),
    {
        lowest_key(&self.files)
    }

    /// The lowest free descriptor at or above `arg`.
    pub fn get_free_fd_from(&self, arg: u64) -> (r: u64)
        requires
            keys::has_free(self.files@, arg),
        ensures
            keys::lowest_free(self.files@, arg, r),
    {
        first_free(&self.files, arg)
    }

    /// Enters a file under the lowest free descriptor.
    pub fn add_file(&mut self, fl: FLike) -> (fd: u64)
        ensures
            *final(self) == (Task { files: final(self).files, ..*old(self) }),
            keys::lowest_free(old(self).files@, 0, fd),
            final(self).files@ == old(self).files@.insert(fd, fl),
    {
        let fd = self.get_free_fd();
        self.files.insert(fd, fl);
        fd
    }

    /// A copy of the entry of a descriptor.
    pub fn get_file(&self, fd: u64) -> (r: Option<FLike>)
        ensures
            match r {
                Some(f) => self.files@.contains_key(fd) && file::copy_of(self.files@[fd], f),
                None => !self.files@.contains_key(fd),
            },
    {
        match self.files.get(&fd) {
            Some(f) => Some(f.copy()),
            None => None,
        }
    }

    /// Closes every file of the task.
    pub fn close_files(&mut self, pipes: &mut PipeTable)
        requires
            files_wf(old(self).files@, old(pipes)@),
            ends_left(old(pipes)@, old(self).files@.len()),
        ensures
            *final(self) == (Task { files: final(self).files, ..*old(self) }),
            final(self).files@ == Map::<u64, FLike>::empty(),
            pipes_closed(
                old(pipes)@,
                final(pipes)@,
                |i: int| hits(keys::listing(old(self).files@), old(self).files@, i),
            ),
    {
        let ghost before = *self;
        let list = sorted_keys(&self.files);
        let ghost ks = list@;
        let ghost files = before.files@;
        let ghost p0 = pipes@;
        proof {
            keys::lemma_listing(ks, files);
            assert(ks.take(0) =~= Seq::empty());
        }
        let mut i: usize = 0;
        while i < list.len()
            invariant
                i <= list@.len(),
                ks == list@,
                ks.len() == files.len(),
                files == before.files@,
                keys::lists_keys(ks, files),
                files_wf(files, p0),
                ends_left(p0, files.len()),
                *self == (Task { files: self.files, ..before }),
                forall|fd: u64| #[trigger]
                    self.files@.contains_key(fd) <==> files.contains_key(fd)
                        && !ks.take(i as int).contains(fd),
                forall|fd: u64| #[trigger]
                    self.files@.contains_key(fd) ==> self.files@[fd]
                        == files[fd],
                pipes@.len() == p0.len(),
                pipes_closed(p0, pipes@, |x: int| hits(ks.take(i as int), files, x)),
                forall|x: int| 0 <= x < p0.len() ==> #[trigger] hits(ks.take(i as int), files, x)
                    <= i,
            decreases list@.len() - i,
        {
            let fd: u64 = list[i];
            let ghost here = ks.take(i as int);
            let ghost next = ks.take(i + 1);
            let ghost p1 = pipes@;
            let ghost n = |x: int| hits(here, files, x);
            let ghost m = |x: int| hits(next, files, x);
            proof {
                assert(ks.contains(fd));
                assert(next.drop_last() =~= here);
                assert(next =~= here.push(fd));
                assert forall|k: u64| next.contains(k) <==> here.contains(k) || k == fd by {
                    if here.contains(k) {
                        let j = choose|j: int| 0 <= j < here.len() && here[j] == k;
                        assert(next[j] == k);
                    }
                    assert(next[i as int] == fd);
                }
                assert(!here.contains(fd));
            }
            match self.files.remove(&fd) {
                Some(entry) => {
                    proof {
                        assert(entry == files[fd]);
                        match file::pipe_of(entry) {
                            Some(p) => {
                                let x = p.data as int;
                                assert(p.wf(p0));
                                assert(closed_times(p0[x], p1[x], n(x)));
                                assert(hits(here, files, x) <= i);
                                assert(p0[x].ends - files.len() >= i32::MIN);
                            },
                            None => {},
                        }
                    }
                    drop_entry(entry, pipes);
                    proof {
                        lemma_closed_step(p0, p1, pipes@, files[fd], n, m);
                        assert(pipes_closed(p0, pipes@, m));
                    }
                },
                None => {
                    assert(false);
                },
            }
            proof {
                assert forall|x: int| 0 <= x < p0.len() implies #[trigger] hits(next, files, x) <= i
                    + 1 by {
                    assert(hits(here, files, x) <= i);
                }
            }
            i = i + 1;
        }
        proof {
            assert(ks.take(i as int) =~= ks);
            assert forall|fd: u64| !self.files@.contains_key(fd) by {
                assert(ks.contains(fd) <==> files.contains_key(fd));
            }
            assert(self.files@ =~= Map::<u64, FLike>::empty());
        }
    }

    /// Lets the task at `t` exit: its files are closed, it and its parent are told,
    /// and its exit status is recorded. Its children stay with it.
    pub fn exit_proc(store: &mut Vec<Task>, t: TaskRef, code: u64, pipes: &mut PipeTable)
        requires
            t < old(store)@.len(),
            old(store)@[t as int].parent matches Some(p) ==> p < old(store)@.len(),
            files_wf(old(store)@[t as int].files@, old(pipes)@),
            ends_left(old(pipes)@, old(store)@[t as int].files@.len()),
        ensures
            exited(old(store)@, final(store)@, t, code),
            pipes_closed(
                old(pipes)@,
                final(pipes)@,
                |i: int|
                    hits(
                        keys::listing(old(store)@[t as int].files@),
                        old(store)@[t as int].files@,
                        i,
                    ),
            ),
    {
        let ghost before = store@;
        store[t].close_files(pipes);
        store[t].event_bus.set_flags(EventFlag::PROCESS_QUIT);
        let ghost mid = store@[t as int].event_bus;
        let parent = store[t].parent;
        match parent {
            Some(p) => {
                store[p].event_bus.set_flags(EventFlag::CHILD_PROCESS_QUIT);
            },
            None => {},
        }
        store[t].exit_code = code;
        store[t].threads = Vec::new();
        store[t].fault_count = 0;
        store[t].last_fault_count = 0;
        store[t].info.status = Some((code % 256) as i32);
        proof {
            assert(quit_flagged(
                before[t as int].event_bus,
                mid,
                store@[t as int].event_bus,
                t,
                parent,
            ));
        }
    }

    /// Whether the task has exited: it has a status, or no threads.
    pub fn exited(&self) -> (r: bool)
        ensures
            r == (self.threads@.len() == 0 || is_done(*self)),
    {
        self.threads.len() == 0 || self.info.status.is_some()
    }

    /// A copy of the epoll instance of a descriptor.
    pub fn get_ep(&self, fd: u64) -> (r: Result<EpInst, &'static str>)
        ensures
            match r {
                Ok(e) => self.ep_inst@.contains_key(fd) && file::same_ep(self.ep_inst@[fd], e),
                Err(m) => !self.ep_inst@.contains_key(fd) && m == "ebadf",
            },
    {
        match self.ep_inst.get(&fd) {
            Some(e) => Ok(e.copy()),
            None => Err("ebadf"),
        }
    }

    pub fn set_ep(&mut self, fd: u64, inst: EpInst)
        ensures
            *final(self) == (Task { ep_inst: final(self).ep_inst, ..*old(self) }),
            final(self).ep_inst@ == old(self).ep_inst@.insert(fd, inst),
    {
        self.ep_inst.insert(fd, inst);
    }

    /// Takes the saved context out; a blank one if none is saved.
    pub fn begin_run(&mut self) -> (r: ThreadContext)
        ensures
            *final(self) == (Task { thread_context: None, ..*old(self) }),
            match old(self).thread_context {
                Some(c) => r == c,
                None => thread::is_blank(r),
            },
    {
        match self.thread_context.take() {
            Some(c) => c,
            None => ThreadContext::default(),
        }
    }

    pub fn end_run(&mut self, thread_context: ThreadContext)
        ensures
            *final(self) == (Task { thread_context: Some(thread_context), ..*old(self) }),
    {
        self.thread_context = Some(thread_context);
    }

    /// Whether a pending signal is not blocked. The kill and stop signals never are.
    pub fn has_sig(&self) -> (r: bool)
        ensures
            r == exists|i: int|
                0 <= i < self.sig_queue@.len() && gets_through(
                    (#[trigger] self.sig_queue@[i]).0,
                    self.sig_mask,
                ),
    {
        let mask: u64 = self.sig_mask & !UNMASKABLE;
        let mut i: usize = 0;
        while i < self.sig_queue.len()
            invariant
                i <= self.sig_queue@.len(),
                mask == self.sig_mask & !UNMASKABLE,
                forall|k: int|
                    0 <= k < i ==> !gets_through((#[trigger] self.sig_queue@[k]).0, self.sig_mask),
            decreases self.sig_queue@.len() - i,
        {
            let s: i32 = self.sig_queue[i].0;
            assert(s == self.sig_queue@[i as int].0);
            if s > 0 && s < 64 {
                proof {
                    words::lemma_bit_test(mask, s as u64);
                }
                if mask & (1u64 << (s as u64)) == 0 {
                    return true;
                }
            }
            i = i + 1;
        }
        false
    }

    /// Sends a signal: it is queued unless one of its number is, and announced.
    pub fn send_sig(&mut self, signo: i32, sender_tid: i64)
        ensures
            signalled(*old(self), *final(self), signo, sender_tid),
    {
        let mut dup = false;
        let mut i: usize = 0;
        while i < self.sig_queue.len()
            invariant
                i <= self.sig_queue@.len(),
                *self == *old(self),
                dup == exists|k: int| 0 <= k < i && (#[trigger] self.sig_queue@[k]).0 == signo,
            decreases self.sig_queue@.len() - i,
        {
            if self.sig_queue[i].0 == signo {
                assert(self.sig_queue@[i as int].0 == signo);
                dup = true;
            }
            i = i + 1;
        }
        if !dup {
            self.sig_queue.push_back((signo, sender_tid));
        }
        self.event_bus.set_flags(EventFlag::RECEIVE_SIGNAL);
    }

    /// Closes a descriptor.
    pub fn close_fd(&mut self, fd: u64, pipes: &mut PipeTable) -> (r: Result<(), &'static str>)
        requires
            files_wf(old(self).files@, old(pipes)@),
            ends_left(old(pipes)@, 1),
        ensures
            *final(self) == (Task { files: final(self).files, ..*old(self) }),
            final(self).files@ == old(self).files@.remove(fd),
            r == if old(self).files@.contains_key(fd) {
                Ok::<(), &'static str>(())
            } else {
                Err("ebadf")
            },
            old(self).files@.contains_key(fd) ==> pipes_closed(
                old(pipes)@,
                final(pipes)@,
                |i: int| hit(old(self).files@[fd], i),
            ),
            !old(self).files@.contains_key(fd) ==> final(pipes)@ == old(pipes)@,
    {
        match self.files.remove(&fd) {
            Some(entry) => {
                assert(self.files@ =~= old(self).files@.remove(fd));
                drop_entry(entry, pipes);
                Ok(())
            },
            None => {
                assert(self.files@ =~= old(self).files@.remove(fd));
                Err("ebadf")
            },
        }
    }

    /// Duplicates a descriptor to the lowest free one. The copy that is made on the
    /// way is dropped, which costs a pipe an end.
    pub fn dup_fd(&mut self, old_fd: u64, cloexec: bool, pipes: &mut PipeTable) -> (r: Result<
        u64,
        &'static str,
    >)
        requires
            files_wf(old(self).files@, old(pipes)@),
            ends_left(old(pipes)@, 1),
        ensures
            *final(self) == (Task { files: final(self).files, ..*old(self) }),
            match r {
                Ok(fd) => {
                    &&& old(self).files@.contains_key(old_fd)
                    &&& keys::lowest_free(old(self).files@, 0, fd)
                    &&& final(self).files@ == old(self).files@.insert(fd, final(self).files@[fd])
                    &&& file::dup_of(old(self).files@[old_fd], final(self).files@[fd], cloexec)
                    &&& pipes_closed(
                        old(pipes)@,
                        final(pipes)@,
                        |i: int| hit(old(self).files@[old_fd], i),
                    )
                },
                Err(e) => {
                    &&& !old(self).files@.contains_key(old_fd)
                    &&& e == "ebadf"
                    &&& final(self).files@ == old(self).files@
                    &&& final(pipes)@ == old(pipes)@
                },
            },
    {
        let (copy, dup): (FLike, FLike) = match self.files.get(&old_fd) {
            Some(f) => (f.copy(), f.dup(cloexec)),
            None => {
                return Err("ebadf");
            },
        };
        let fd = lowest_key(&self.files);
        self.files.insert(fd, dup);
        let ghost entry = old(self).files@[old_fd];
        assert(file::pipe_of(copy) == file::pipe_of(entry));
        drop_entry(copy, pipes);
        assert(pipes_closed(old(pipes)@, pipes@, |i: int| hit(entry, i))) by {
            assert forall|i: int| 0 <= i < pipes@.len() implies closed_times(
                old(pipes)@[i],
                #[trigger] pipes@[i],
                hit(entry, i),
            ) by {
                assert(hit(copy, i) == hit(entry, i));
            }
        }
        Ok(fd)
    }

    /// Duplicates a descriptor to another one, which is closed first. A descriptor
    /// is its own duplicate. The copy that is made on the way is dropped too.
    pub fn dup2_fd(&mut self, old_fd: u64, new_fd: u64, pipes: &mut PipeTable) -> (r: Result<
        u64,
        &'static str,
    >)
        requires
            files_wf(old(self).files@, old(pipes)@),
            ends_left(old(pipes)@, 2),
        ensures
            *final(self) == (Task { files: final(self).files, ..*old(self) }),
            r == if old_fd == new_fd || old(self).files@.contains_key(old_fd) {
                Ok::<u64, &'static str>(new_fd)
            } else {
                Err("ebadf")
            },
            old_fd == new_fd || r is Err ==> final(self).files@ == old(self).files@ && final(pipes)@ == old(pipes)@,
            old_fd != new_fd && r is Ok ==> {
                &&& final(self).files@ == old(self).files@.insert(
                    new_fd,
                    final(self).files@[new_fd],
                )
                &&& file::dup_of(old(self).files@[old_fd], final(self).files@[new_fd], false)
                &&& pipes_closed(
                    old(pipes)@,
                    final(pipes)@,
                    |i: int|
                        replaced_hit(old(self).files@, new_fd, i) + hit(
                            old(self).files@[old_fd],
                            i,
                        ),
                )
            },
    {
        if old_fd == new_fd {
            return Ok(new_fd);
        }
        let (copy, dup): (FLike, FLike) = match self.files.get(&old_fd) {
            Some(f) => (f.copy(), f.dup(false)),
            None => {
                return Err("ebadf");
            },
        };
        let ghost p0 = pipes@;
        let ghost files = self.files@;
        let ghost n = |i: int| replaced_hit(files, new_fd, i);
        let ghost m = |i: int| replaced_hit(files, new_fd, i) + hit(files[old_fd], i);
        match self.files.insert(new_fd, dup) {
            Some(was) => {
                drop_entry(was, pipes);
                assert(pipes_closed(p0, pipes@, n)) by {
                    assert forall|i: int| 0 <= i < p0.len() implies closed_times(
                        p0[i],
                        #[trigger] pipes@[i],
                        n(i),
                    ) by {
                        assert(hit(was, i) == n(i));
                    }
                }
            },
            None => {
                assert(pipes_closed(p0, pipes@, n));
            },
        }
        let ghost p1 = pipes@;
        assert(file::pipe_of(copy) == file::pipe_of(files[old_fd]));
        proof {
            match file::pipe_of(copy) {
                Some(p) => {
                    let x = p.data as int;
                    assert(p.wf(p0));
                    assert(closed_times(p0[x], p1[x], n(x)));
                },
                None => {},
            }
        }
        drop_entry(copy, pipes);
        proof {
            assert forall|i: int| 0 <= i < p0.len() implies #[trigger] m(i) == n(i) + hit(copy, i) by {
                assert(hit(copy, i) == hit(files[old_fd], i));
            }
            lemma_closed_step(p0, p1, pipes@, copy, n, m);
        }
        Ok(new_fd)
    }

    pub fn fd_count(&self) -> (r: usize)
        ensures
            r == self.files@.len(),
    {
        self.files.len()
    }

    /// Sets the close-on-exec flag of a file. Other entries have none, and take it
    /// silently.
    pub fn set_cloexec(&mut self, fd: u64, val: bool) -> (r: Result<(), &'static str>)
        ensures
            *final(self) == (Task { files: final(self).files, ..*old(self) }),
            r == if old(self).files@.contains_key(fd) {
                Ok::<(), &'static str>(())
            } else {
                Err("ebadf")
            },
            final(self).files@ == if old(self).files@.contains_key(fd) {
                old(self).files@.insert(fd, with_cloexec(old(self).files@[fd], val))
            } else {
                old(self).files@
            },
    {
        match self.files.remove(&fd) {
            Some(entry) => {
                let entry = match entry {
                    FLike::File(mut fh) => {
                        fh.cloexec = val;
                        FLike::File(fh)
                    },
                    other => other,
                };
                self.files.insert(fd, entry);
                assert(self.files@ =~= old(self).files@.insert(fd, entry));
                Ok(())
            },
            None => {
                assert(self.files@ =~= old(self).files@);
                Err("ebadf")
            },
        }
    }

    pub fn record_fault(&mut self)
        ensures
            *final(self) == (Task { fault_count: old(self).fault_count.wrapping_add(1), ..*old(self) }),
    {
        self.fault_count = self.fault_count.wrapping_add(1);
    }

    /// The nice value that the page faults since the last call amount to: one for
    /// each four of them, up to 19.
    pub fn working_set_nice(&mut self) -> (r: i32)
        ensures
            *final(self) == (Task { last_fault_count: old(self).fault_count, ..*old(self) }),
            r == nice_of(
                if old(self).fault_count >= old(self).last_fault_count {
                    old(self).fault_count - old(self).last_fault_count
                } else {
                    0
                },
            ),
    {
        let now = self.fault_count;
        let last = self.last_fault_count;
        self.last_fault_count = now;
        let delta: u64 = now.saturating_sub(last);
        if delta / 4 < 19 {
            (delta / 4) as i32
        } else {
            19
        }
    }
}

/// What the replaced entry of a descriptor counts for pipe `i`.
pub open spec fn replaced_hit(files: Map<u64, FLike>, fd: u64, i: int) -> nat {
    if files.contains_key(fd) {
        hit(files[fd], i)
    } else {
        0
    }
}

pub open spec fn with_cloexec(f: FLike, val: bool) -> FLike {
    match f {
        FLike::File(h) => FLike::File(crate::fs::file::FHandle { cloexec: val, ..h }),
        other => other,
    }
}

/// The event bus of a task that exits: the exit is announced, and then, if the task
/// is its own parent, the exit of a child too.
pub open spec fn quit_flagged(
    a: EventBus,
    mid: EventBus,
    b: EventBus,
    t: TaskRef,
    parent: Option<TaskRef>,
) -> bool {
    &&& event_bus::bus_moved(a, mid, a.flags | EventFlag::PROCESS_QUIT)
    &&& if parent == Some(t) {
        event_bus::bus_moved(mid, b, mid.flags | EventFlag::CHILD_PROCESS_QUIT)
    } else {
        b == mid
    }
}

/// The tasks after the one at `t` has exited.
pub open spec fn exited(before: Seq<Task>, after: Seq<Task>, t: TaskRef, code: u64) -> bool {
    let old_task = before[t as int];
    let new_task = after[t as int];
    &&& after.len() == before.len()
    &&& forall|j: int|
        0 <= j < before.len() && j != t && !child_of(old_task, j) ==> #[trigger] after[j]
            == before[j]
    &&& old_task.parent matches Some(p) ==> p != t ==> {
        &&& after[p as int] == (Task { event_bus: after[p as int].event_bus, ..before[p as int] })
        &&& event_bus::bus_moved(
            before[p as int].event_bus,
            after[p as int].event_bus,
            before[p as int].event_bus.flags | EventFlag::CHILD_PROCESS_QUIT,
        )
    }
    &&& new_task == (Task {
        info: TaskInfo { status: Some((code % 256) as i32), ..old_task.info },
        files: new_task.files,
        threads: new_task.threads,
        event_bus: new_task.event_bus,
        exit_code: code,
        fault_count: 0,
        last_fault_count: 0,
        ..old_task
    })
    &&& new_task.files@ == Map::<u64, FLike>::empty()
    &&& new_task.threads@ == Seq::<u64>::empty()
    &&& exists|mid: EventBus| #[trigger]
        quit_flagged(
            old_task.event_bus,
            mid,
            new_task.event_bus,
            t,
            old_task.parent,
        )
}

/// A task that exits is done, has no files and no threads, and is never undone by
/// a later exit.
pub proof fn lemma_exit_is_final(before: Seq<Task>, after: Seq<Task>, t: TaskRef, code: u64)
    requires
        t < before.len(),
        exited(before, after, t, code),
    ensures
        is_done(after[t as int]),
        after[t as int].files@.dom() == Set::<u64>::empty(),
        after[t as int].exit_code == code,
        forall|j: int| 0 <= j < before.len() && is_done(before[j]) ==> is_done(#[trigger] after[j]),
{
    assert(after[t as int].files@.dom() =~= Set::<u64>::empty());
    assert forall|j: int| 0 <= j < before.len() && is_done(before[j]) implies is_done(
        #[trigger] after[j],
    ) by {
        if j != t && !child_of(before[t as int], j) {
            assert(after[j] == before[j]);
        }
    }
}

/// A signal that is sent is pending, and a blocked one stays so until unblocked.
pub proof fn lemma_sent_signal_is_pending(before: Task, after: Task, signo: i32, sender: i64)
    requires
        signalled(before, after, signo, sender),
    ensures
        has_signo(after.sig_queue@, signo),
        forall|s: i32| has_signo(before.sig_queue@, s) ==> has_signo(after.sig_queue@, s),
        after.sig_queue@.len() <= before.sig_queue@.len() + 1,
{
    let q = before.sig_queue@;
    if !has_signo(q, signo) {
        assert(after.sig_queue@[q.len() as int].0 == signo);
        assert forall|s: i32| has_signo(q, s) implies has_signo(after.sig_queue@, s) by {
            let i = choose|i: int| 0 <= i < q.len() && (#[trigger] q[i]).0 == s;
            assert(after.sig_queue@[i].0 == s);
        }
    }
}

/// More recent page faults never give a lower nice value, up to the limit.
pub proof fn lemma_faults_raise_nice(a: int, b: int)
    requires
        0 <= a <= b,
    ensures
        nice_of(a) <= nice_of(b) <= 19,
        nice_of(a) >= 0,
        a < 4 ==> nice_of(a) == 0,
        b >= 76 ==> nice_of(b) == 19,
{
}

/// The kill and stop signals get through whatever the mask.
pub proof fn lemma_forced_get_through(mask: u64)
    ensures
        gets_through(SIGKILL as i32, mask),
        gets_through(SIGSTOP as i32, mask),
{
    structs::lemma_kill_cannot_be_blocked(0, mask);
}

/// A signal gets through exactly if it is one, and its bit is not set in the mask or it
/// cannot be masked.
pub proof fn lemma_mask_holds_back(signo: i32, mask: u64)
    ensures
        signo <= 0 || signo >= 64 ==> !gets_through(signo, mask),
        0 < signo < 64 ==> (gets_through(signo, mask) <==> !words::bit(mask, signo as u64) || signo
            == SIGKILL || signo == SIGSTOP),
{
    if 0 < signo < 64 {
        words::lemma_bitwise(mask, !UNMASKABLE, signo as u64, 0);
        words::lemma_bitwise(UNMASKABLE, 0, signo as u64, 0);
    }
}

/// Signals are pending in the order in which they came, each number once and with the
/// sender that sent it first.
pub proof fn lemma_signals_queue_in_order(q: Seq<(i32, i64)>, signo: i32, sender: i64, i: int)
    requires
        0 <= i < q.len(),
    ensures
        queued(q, signo, sender)[i] == q[i],
        q[i].0 == signo ==> queued(q, signo, sender) == q,
        (forall|k: int| 0 <= k < q.len() ==> (#[trigger] q[k]).0 != signo) ==> queued(
            q,
            signo,
            sender,
        ) == q.push((signo, sender)),
        (forall|a: int, b: int| 0 <= a < b < q.len() ==> (#[trigger] q[a]).0 != (#[trigger] q[b]).0)
            ==> (forall|a: int, b: int|
            0 <= a < b < queued(q, signo, sender).len() ==> (#[trigger] queued(q, signo, sender)[a]).0
                != (#[trigger] queued(q, signo, sender)[b]).0),
{
    if !has_signo(q, signo) {
        let r = queued(q, signo, sender);
        assert forall|k: int| 0 <= k < q.len() implies (#[trigger] q[k]).0 != signo by {}
        if forall|a: int, b: int| 0 <= a < b < q.len() ==> (#[trigger] q[a]).0 != (#[trigger] q[b]).0 {
            assert forall|a: int, b: int| 0 <= a < b < r.len() implies (#[trigger] r[a]).0 != (
            #[trigger] r[b]).0 by {
                assert(r[a] == q[a]);
                if b < q.len() {
                    assert(r[b] == q[b]);
                }
            }
        }
    }
}

/// The flag that closes a file at the start of a program can be set on a file, and
/// changes nothing else; other entries have none.
pub proof fn lemma_cloexec_flag(f: FLike, val: bool)
    ensures
        f matches FLike::File(h) ==> with_cloexec(f, val) matches FLike::File(g) && g.cloexec == val
            && g.path == h.path && g.opt == h.opt && g.pipe == h.pipe,
        !(f is File) ==> with_cloexec(f, val) == f,
{
}

/// Four faults make a task nicer by one, until it is as nice as can be.
pub proof fn lemma_four_faults_cost_one(faults: int)
    requires
        0 <= faults,
    ensures
        nice_of(faults) < 19 ==> nice_of(faults + 4) == nice_of(faults) + 1,
        nice_of(faults) == 19 ==> nice_of(faults + 4) == 19,
        nice_of(0) == 0,
{
}

/// A pipe that no entry of a table names is not counted, and one more entry that names
/// it counts one more.
pub proof fn lemma_ends_are_counted(list: Seq<u64>, files: Map<u64, FLike>, fd: u64, i: int)
    ensures
        (forall|k: int|
            0 <= k < list.len() ==> (files[#[trigger] list[k]] matches FLike::Pipe(p) ==> p.data
                != i)) ==> hits(list, files, i) == 0,
        hits(list.push(fd), files, i) == hits(list, files, i) + match files[fd] {
            FLike::Pipe(p) => if p.data == i {
                1nat
            } else {
                0
            },
            _ => 0,
        },
    decreases list.len(),
{
    assert(list.push(fd).drop_last() =~= list);
    if list.len() > 0 {
        let front = list.drop_last();
        lemma_ends_are_counted(front, files, fd, i);
        if forall|k: int|
            0 <= k < list.len() ==> (files[#[trigger] list[k]] matches FLike::Pipe(p) ==> p.data
                != i) {
            assert forall|k: int| 0 <= k < front.len() implies (
            files[#[trigger] front[k]] matches FLike::Pipe(p) ==> p.data != i) by {
                assert(front[k] == list[k]);
            }
            assert(list[list.len() - 1] == list.last());
        }
    }
}

/// What an exit records: the code as it is, and its low eight bits for a status. The
/// parent hears of it; its own files and threads are gone; nobody else changes.
pub proof fn lemma_exit_records(before: Seq<Task>, after: Seq<Task>, t: TaskRef, code: u64, j: int)
    requires
        t < before.len(),
        exited(before, after, t, code),
        0 <= j < before.len(),
    ensures
        after[t as int].exit_code == code,
        after[t as int].info.status == Some((code % 0x100) as i32),
        after[t as int].info.id == before[t as int].info.id,
        after[t as int].threads@.len() == 0,
        after[t as int].fault_count == 0,
        after[t as int].subtasks == before[t as int].subtasks,
        j != t && before[t as int].parent != Some(j as usize) ==> after[j] == before[j],
        j != t ==> after[j].info == before[j].info && after[j].files == before[j].files
            && after[j].sig_queue == before[j].sig_queue,
{
    if j != t && !child_of(before[t as int], j) {
        assert(after[j] == before[j]);
    }
}

/// A descriptor that is not open costs no pipe an end when it is replaced; one that
/// names a pipe costs that pipe one.
pub proof fn lemma_replacing_costs_ends(files: Map<u64, FLike>, fd: u64, i: int)
    ensures
        !files.contains_key(fd) ==> replaced_hit(files, fd, i) == 0,
        files.contains_key(fd) ==> replaced_hit(files, fd, i) == match files[fd] {
            FLike::Pipe(p) => if p.data == i {
                1nat
            } else {
                0
            },
            _ => 0,
        },
{
}

} // verus!
