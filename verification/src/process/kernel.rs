//! The kernel: its tables, and what it does outside of system calls.
use crate::bits;
use crate::bits::to_signed_half;
use crate::consts::{
    BRK_BASE, KSTACK_SIZE, MAX_CPU, MEMORY_OFFSET, N_CHAINS, N_REGS, PAGE_SIZE, PRIO_DEFAULT,
    SCHED_NORMAL, UNMASKABLE,
};
use crate::fs::block::Disk;
use crate::fs::cache;
use crate::fs::cache::BlockCache;
use crate::fs::file;
use crate::fs::file::FLike;
use crate::fs::mount;
use crate::fs::mount::{MountEntry, MountTable};
use crate::fs::pipe::{PipeBuf, PipeDir, PipeNode, PipeTable};
use crate::ipc::refs;
use crate::ipc::semary;
use crate::ipc::semary::{SemArr, SemStore};
use crate::ipc::shared_mem;
use crate::ipc::shared_mem::{shm_get_or_create, ShmStore, ShmTag};
use crate::keys;
use crate::keys::sorted_keys;
use crate::memory::addr::KernelStack;
use crate::memory::frames;
use crate::memory::frames::{defragment_frame_pool, FramePool};
use crate::process::futex::FutexBucket;
use crate::process::schedule;
use crate::process::schedule::{RunQueue, SchedulePolicy};
use crate::process::table;
use crate::process::table::TaskTable;
use crate::process::task;
use crate::process::task::{Task, TaskRef};
use crate::process::thread;
use crate::process::thread::ThreadContext;
use crate::sync::mutex;
use crate::sync::mutex::KernelLock;
use crate::trap::frame;
use crate::trap::timer;
use crate::trap::timer::{do_tick, Clock};
use crate::util::scan;
use crate::util::scan::compute_load_balance;
use crate::util::tables;
use crate::util::tables::bucket_mounts;
use crate::util::words;
use std::collections::{BTreeMap, VecDeque};
use vstd::prelude::*;
use vstd::string::*;

verus! {

broadcast use vstd::std_specs::btree::group_btree_axioms;

/// How many bytes the terminal buffer takes.
pub const TTY_LIMIT: usize = 4096;

/// Everything the kernel keeps.
pub struct Kernel {
    pub tasks: TaskTable,
    pub cache: BlockCache,
    pub pool: FramePool,
    pub disk: Disk,
    /// The task that each processor runs.
    pub cpus: Vec<Option<TaskRef>>,
    pub mnt: MountTable,
    /// All futex buckets there have been.
    pub futexes: Vec<FutexBucket>,
    /// The bucket of each address that was ever asked for, for all tasks alike.
    pub futex_store: BTreeMap<u64, usize>,
    pub sem_store: SemStore,
    pub shm_store: ShmStore,
    /// Bytes typed and not yet read.
    pub tty_buf: VecDeque<u8>,
    pub runqueue: RunQueue,
    /// All pipes there have been.
    pub pipes: PipeTable,
}

/// What a task holds exists, and its mask lets the kill and stop signals through.
pub open spec fn task_ok(t: Task, pipes: Seq<PipeBuf>, sems: SemStore, shms: ShmStore) -> bool {
    &&& task::files_wf(t.files@, pipes)
    &&& semary::ids_valid(t.sem_ctx.arrays@, sems)
    &&& shared_mem::ids_held(t.shm_ctx.ids@, shms.segments@)
    &&& t.sig_mask & UNMASKABLE == 0
}

/// The arrays of each task by id.
pub open spec fn sem_tables(tasks: Seq<Task>) -> Seq<Map<u64, usize>> {
    tasks.map_values(|t: Task| t.sem_ctx.arrays@)
}

/// The segments of each task by id.
pub open spec fn shm_tables(tasks: Seq<Task>) -> Seq<Map<u64, usize>> {
    tasks.map_values(|t: Task| shared_mem::segments_of(t.shm_ctx.ids@))
}

/// Every reference that a task holds to an array or a segment is counted.
pub open spec fn refs_ok(tasks: Seq<Task>, sems: SemStore, shms: ShmStore) -> bool {
    &&& refs::covered(sem_tables(tasks), sems.strong@)
    &&& refs::covered(shm_tables(tasks), shared_mem::counts(shms.segments@))
}

/// Tasks with the same contexts hold the same references.
pub proof fn lemma_same_tables(a: Seq<Task>, b: Seq<Task>)
    requires
        a.len() == b.len(),
        forall|i: int|
            0 <= i < a.len() ==> (#[trigger] b[i]).sem_ctx.arrays@ == a[i].sem_ctx.arrays@
                && b[i].shm_ctx.ids@ == a[i].shm_ctx.ids@,
    ensures
        sem_tables(b) == sem_tables(a),
        shm_tables(b) == shm_tables(a),
{
    assert(sem_tables(b) =~= sem_tables(a));
    assert(shm_tables(b) =~= shm_tables(a));
}

/// The task that a processor runs.
pub open spec fn running(k: Kernel, cpu: int) -> Option<TaskRef> {
    if 0 <= cpu < k.cpus@.len() {
        k.cpus@[cpu]
    } else {
        None
    }
}

/// The number of the frame that holds an address.
pub open spec fn frame_of(pa: u64) -> int {
    (pa - MEMORY_OFFSET) / (PAGE_SIZE as int)
}

/// One of the addresses lies in frame `i`.
pub open spec fn in_pages(pages: Seq<u64>, i: int) -> bool {
    exists|k: int| 0 <= k < pages.len() && frame_of(#[trigger] pages[k]) == i
}

/// The tasks a processor has to run: its task and that task's children.
pub open spec fn cpu_counts(k: Kernel) -> Seq<usize> {
    Seq::new(
        MAX_CPU as nat,
        |i: int|
            match k.cpus@[i] {
                Some(t) => (k.tasks.store@[t as int].subtasks@.len() + 1) as usize,
                None => 0,
            },
    )
}

/// The group of the task of each processor.
pub open spec fn cpu_prios(k: Kernel) -> Seq<i32> {
    Seq::new(
        MAX_CPU as nat,
        |i: int|
            match k.cpus@[i] {
                Some(t) => k.tasks.store@[t as int].pgid,
                None => 0,
            },
    )
}

/// Whether the task of each processor is done.
pub open spec fn cpu_blocked(k: Kernel) -> Seq<bool> {
    Seq::new(
        MAX_CPU as nat,
        |i: int|
            match k.cpus@[i] {
                Some(t) => task::is_done(k.tasks.store@[t as int]),
                None => false,
            },
    )
}

/// States of the tasks while the listed ids are reaped one after the other.
pub open spec fn reap_trace(
    trace: Seq<Seq<Task>>,
    ids: Seq<u64>,
    map: Map<u64, usize>,
    root: Option<TaskRef>,
) -> bool {
    &&& trace.len() == ids.len() + 1
    &&& forall|i: int|
        0 <= i < ids.len() ==> table::reaped(
            trace[i],
            trace[i + 1],
            map[#[trigger] ids[i]],
            root,
        )
}

/// A child is one that a wait for `pid` waits for.
pub open spec fn waited_for(child: Task, parent: Task, pid: i64) -> bool {
    if pid == -1 {
        true
    } else if pid == 0 {
        child.pgid == parent.pgid
    } else if pid > 0 {
        child.info.id == pid
    } else {
        child.pgid == bits::signed_half((-pid) as u64)
    }
}

/// The first child of the task at `p` that is waited for and done.
pub open spec fn is_collected(store: Seq<Task>, p: int, pid: i64, i: int) -> bool {
    let kids = store[p].subtasks@;
    &&& 0 <= i < kids.len()
    &&& collectable(store, p, pid, i)
    &&& forall|k: int| 0 <= k < i ==> !#[trigger] collectable(store, p, pid, k)
}

pub open spec fn collectable(store: Seq<Task>, p: int, pid: i64, i: int) -> bool {
    let child = store[store[p].subtasks@[i] as int];
    waited_for(child, store[p], pid) && task::is_done(child)
}

/// What a wait of the task `parent_id` for `pid` answers, and does to the tasks.
pub open spec fn waited(
    before: Kernel,
    after: Kernel,
    parent_id: u64,
    pid: i64,
    options: u64,
    r: Result<(u64, u64), &'static str>,
) -> bool {
    let a = before.tasks;
    let p = a.map@[parent_id] as int;
    let kids = a.store@[p].subtasks@;
    if !a.map@.contains_key(parent_id) {
        &&& r == Err::<(u64, u64), &'static str>("esrch")
        &&& after == before
    } else if exists|i: int| is_collected(a.store@, p, pid, i) {
        &&& exists|i: int|
            {
                &&& #[trigger] is_collected(a.store@, p, pid, i)
                &&& r == Ok::<(u64, u64), &'static str>(
                    (a.store@[kids[i] as int].info.id, a.store@[kids[i] as int].exit_code),
                )
            }
        &&& r matches Ok(found) && table::removed(a, after.tasks, found.0)
    } else {
        &&& r == if kids.len() > 0 && options & 1 != 0 {
            Ok::<(u64, u64), &'static str>((0, 0))
        } else {
            Err("echild")
        }
        &&& after == before
    }
}

/// The entry is closed when a program is started.
pub open spec fn closes_on_exec(f: FLike) -> bool {
    f matches FLike::File(h) && h.cloexec
}

/// The descriptors that stay open when a program is started.
pub open spec fn exec_files(a: Map<u64, FLike>, b: Map<u64, FLike>) -> bool {
    &&& forall|fd: u64| #[trigger]
        b.contains_key(fd) <==> a.contains_key(fd) && !closes_on_exec(a[fd])
    &&& forall|fd: u64| #[trigger] b.contains_key(fd) ==> b[fd] == a[fd]
}

/// A context that starts at the entry point with this stack.
pub open spec fn starts_program(c: ThreadContext, sp: u64) -> bool {
    &&& c.user_trap_frame@ == (frame::FrameView {
        regs: Seq::new(N_REGS as nat, |i: int| 0u64).update(frame::sp_slot(), sp),
        ip: BRK_BASE,
        flags: 0,
    })
    &&& c.clear_child_tid == 0
    &&& c.signal_mask == 0
}

/// The pipes after a new one was made.
pub open spec fn pipe_added(before: Seq<PipeBuf>, after: Seq<PipeBuf>) -> bool {
    &&& after.len() == before.len() + 1
    &&& forall|j: int| 0 <= j < before.len() ==> #[trigger] after[j] == before[j]
    &&& after.last().buf@ == Seq::<u8>::empty()
    &&& after.last().ends == 2
    &&& after.last().event_bus.flags == 0
    &&& after.last().event_bus.callbacks@.len() == 0
}

/// The descriptors after both ends of the pipe `n` got one, the reading end first.
pub open spec fn pipe_files(
    before: Map<u64, FLike>,
    after: Map<u64, FLike>,
    n: usize,
    rd: u64,
    wr: u64,
) -> bool {
    let mid = before.insert(rd, FLike::Pipe(PipeNode { data: n, dir: PipeDir::Rd }));
    &&& keys::lowest_free(before, 0, rd)
    &&& keys::lowest_free(mid, 0, wr)
    &&& after == mid.insert(wr, FLike::Pipe(PipeNode { data: n, dir: PipeDir::Wr }))
}

/// The kernel after the task at `t` got both ends of a new pipe.
pub open spec fn piped(before: Kernel, after: Kernel, t: TaskRef, rd: u64, wr: u64) -> bool {
    let p = before.tasks.store@[t as int];
    let q = after.tasks.store@[t as int];
    &&& after == (Kernel { tasks: after.tasks, pipes: after.pipes, ..before })
    &&& table::only_task(before.tasks, after.tasks, t)
    &&& q == (Task { files: q.files, ..p })
    &&& pipe_added(before.pipes@, after.pipes@)
    &&& pipe_files(p.files@, q.files@, before.pipes@.len() as usize, rd, wr)
}

/// A change of one task keeps the kernel in order.
pub proof fn lemma_one_task(before: Kernel, after: Kernel, t: TaskRef)
    requires
        before.wf(),
        t < before.tasks.store@.len(),
        after == (Kernel { tasks: after.tasks, ..before }),
        table::only_task(before.tasks, after.tasks, t),
        table::links_ok(after.tasks.store@[t as int], before.tasks.store@.len()),
        task_ok(
            after.tasks.store@[t as int],
            before.pipes@,
            before.sem_store,
            before.shm_store,
        ),
        after.tasks.store@[t as int].sem_ctx.arrays@ == before.tasks.store@[t as int].sem_ctx.arrays@,
        after.tasks.store@[t as int].shm_ctx.ids@ == before.tasks.store@[t as int].shm_ctx.ids@,
    ensures
        after.wf(),
{
    lemma_same_tables(before.tasks.store@, after.tasks.store@);
    let n = after.tasks.store@.len();
    assert forall|i: int| 0 <= i < n implies table::links_ok(
        #[trigger] after.tasks.store@[i],
        n,
    ) && task_ok(after.tasks.store@[i], after.pipes@, after.sem_store, after.shm_store) by {
        if i != t {
            assert(after.tasks.store@[i] == before.tasks.store@[i]);
        }
        assert(table::links_ok(before.tasks.store@[i], n));
    }
}

/// A task without arrays and segments more holds no reference more.
pub proof fn lemma_fresh_covered(tasks: Seq<Task>, t: Task, sems: SemStore, shms: ShmStore)
    requires
        refs_ok(tasks, sems, shms),
        t.sem_ctx.arrays@ == Map::<u64, usize>::empty(),
        t.shm_ctx.ids@ == Map::<u64, ShmTag>::empty(),
    ensures
        refs_ok(tasks.push(t), sems, shms),
{
    let none = Map::<u64, usize>::empty();
    assert(shared_mem::segments_of(t.shm_ctx.ids@) =~= none);
    refs::lemma_empty_covered(sem_tables(tasks), sems.strong@);
    refs::lemma_empty_covered(shm_tables(tasks), shared_mem::counts(shms.segments@));
    assert(sem_tables(tasks.push(t)) =~= sem_tables(tasks).push(none));
    assert(shm_tables(tasks.push(t)) =~= shm_tables(tasks).push(none));
}

/// Tasks that hold what they held before keep the kernel in order.
pub proof fn lemma_same_holdings(before: Kernel, after: Kernel)
    requires
        before.wf(),
        after == (Kernel { tasks: after.tasks, ..before }),
        after.tasks.wf(),
        after.tasks.store@.len() == before.tasks.store@.len(),
        forall|i: int|
            0 <= i < before.tasks.store@.len() ==> {
                let a = before.tasks.store@[i];
                let b = #[trigger] after.tasks.store@[i];
                b.files@ == a.files@ && b.sem_ctx == a.sem_ctx && b.shm_ctx == a.shm_ctx
                    && b.sig_mask == a.sig_mask
            },
    ensures
        after.wf(),
{
    lemma_same_tables(before.tasks.store@, after.tasks.store@);
    assert forall|i: int| 0 <= i < after.tasks.store@.len() implies task_ok(
        #[trigger] after.tasks.store@[i],
        after.pipes@,
        after.sem_store,
        after.shm_store,
    ) by {
        assert(task_ok(
            before.tasks.store@[i],
            before.pipes@,
            before.sem_store,
            before.shm_store,
        ));
    }
}

impl Kernel {
    /// The tables are in order, and every handle names something.
    pub open spec fn wf(&self) -> bool {
        &&& self.tasks.wf()
        &&& self.cache.wf()
        &&& self.pool.wf()
        &&& self.cpus@.len() == MAX_CPU
        &&& forall|c: int|
            0 <= c < self.cpus@.len() ==> (#[trigger] self.cpus@[c] matches Some(t) ==> t
                < self.tasks.store@.len())
        &&& forall|a: u64| #[trigger]
            self.futex_store@.contains_key(a) ==> self.futex_store@[a] < self.futexes@.len()
        &&& self.sem_store.wf()
        &&& self.shm_store.wf()
        &&& forall|i: int|
            0 <= i < self.tasks.store@.len() ==> task_ok(
                #[trigger] self.tasks.store@[i],
                self.pipes@,
                self.sem_store,
                self.shm_store,
            )
        &&& refs_ok(self.tasks.store@, self.sem_store, self.shm_store)
    }

    pub fn new(nf: usize) -> (r: Self)
        ensures
            r.wf(),
            r.tasks.store@.len() == 0,
            r.tasks.map@ == Map::<u64, usize>::empty(),
            r.tasks.seq == 1,
            r.tasks.root is None,
            r.cache.width == N_CHAINS,
            r.cache@ == Seq::new(N_CHAINS as nat, |i: int| Seq::<cache::CacheSlot>::empty()),
            r.pool@ == Seq::new(nf as nat, |i: int| true),
            r.disk.errs == 0,
            r.disk.ops == 0,
            r.disk.label@ == "disk"@,
            r.disk.journal is None,
            r.cpus@ == Seq::new(MAX_CPU as nat, |i: int| None::<usize>),
            r.mnt@ == Seq::<(Seq<char>, Seq<char>)>::empty(),
            r.futexes@.len() == 0,
            r.futex_store@ == Map::<u64, usize>::empty(),
            r.sem_store.arrays@.len() == 0,
            r.sem_store.by_key@ == Map::<u64, usize>::empty(),
            r.shm_store.segments@.len() == 0,
            r.shm_store.by_key@ == Map::<u64, usize>::empty(),
            r.tty_buf@ == Seq::<u8>::empty(),
            r.runqueue@ == Seq::<(u64, SchedulePolicy)>::empty(),
            r.runqueue.current is None,
            r.runqueue.preempt_count == 0,
            r.pipes@ == Seq::<PipeBuf>::empty(),
    {
        let mut cpus: Vec<Option<TaskRef>> = Vec::new();
        while cpus.len() < MAX_CPU
            invariant
                cpus@.len() <= MAX_CPU,
                cpus@ == Seq::new(cpus@.len(), |i: int| None::<usize>),
            decreases MAX_CPU - cpus@.len(),
        {
            cpus.push(None);
        }
        proof {
            assert forall|c: Seq<usize>| #[trigger] refs::covered(Seq::empty(), c) by {}
        }
        let k = Self {
            tasks: TaskTable::new(),
            cache: BlockCache::new(N_CHAINS),
            pool: FramePool::new(nf),
            disk: Disk::new("disk"),
            cpus,
            mnt: MountTable::new(),
            futexes: Vec::new(),
            futex_store: BTreeMap::new(),
            sem_store: SemStore::new(),
            shm_store: ShmStore::new(),
            tty_buf: VecDeque::new(),
            runqueue: RunQueue::new(),
            pipes: PipeTable::new(),
        };
        proof {
            assert(sem_tables(k.tasks.store@) =~= Seq::empty());
            assert(shm_tables(k.tasks.store@) =~= Seq::empty());
        }
        k
    }

    /// The futex bucket of an address, made if it is missing.
    pub fn get_futex(&mut self, uaddr: u64) -> (r: usize)
        requires
            old(self).wf(),
        ensures
            final(self).wf(),
            *final(self) == (Kernel {
                futexes: final(self).futexes,
                futex_store: final(self).futex_store,
                ..*old(self)
            }),
            r < final(self).futexes@.len(),
            if old(self).futex_store@.contains_key(uaddr) {
                &&& r == old(self).futex_store@[uaddr]
                &&& *final(self) == *old(self)
            } else {
                &&& r == old(self).futexes@.len()
                &&& final(self).futex_store@ == old(self).futex_store@.insert(uaddr, r)
                &&& final(self).futexes@ == old(self).futexes@.push(
                    final(self).futexes@[r as int],
                )
                &&& final(self).futexes@[r as int].waiters@ == Seq::<u64>::empty()
            },
    {
        if let Some(b) = self.futex_store.get(&uaddr) {
            return *b;
        }
        let r: usize = self.futexes.len();
        self.futexes.push(FutexBucket::new());
        self.futex_store.insert(uaddr, r);
        assert(self.futexes@ =~= old(self).futexes@.push(self.futexes@[r as int]));
        r
    }

    /// Marks the whole cache clean, under the kernel lock.
    pub fn tick(&mut self, id: usize, lock: &mut KernelLock, thread: u64)
        requires
            old(self).wf(),
            old(lock).wf(),
            mutex::available_to(old(lock)@, thread),
            mutex::depth_fits(old(lock)@),
        ensures
            final(self).wf(),
            *final(self) == (Kernel { cache: final(self).cache, ..*old(self) }),
            final(self).cache.width == old(self).cache.width,
            final(self).cache@ == old(self).cache@.map_values(
                |c: Seq<cache::CacheSlot>| cache::all_clean(c),
            ),
            final(lock).wf(),
            final(lock)@ == old(lock)@,
    {
        proof {
            lock.lemma_held_depth();
            mutex::lemma_leave_undoes_enter(lock@, thread, id);
        }
        lock.enter(thread, id);
        self.cache.clean_all();
        lock.leave();
    }

    pub fn cur_task(&self, cpu: usize) -> (r: Option<TaskRef>)
        ensures
            r == running(*self, cpu as int),
    {
        if cpu >= self.cpus.len() {
            return None;
        }
        self.cpus[cpu]
    }

    /// Sets the task of a processor, if there is such a processor.
    pub fn set_cur(&mut self, cpu: usize, t: Option<TaskRef>)
        requires
            old(self).wf(),
            t matches Some(h) ==> h < old(self).tasks.store@.len(),
        ensures
            final(self).wf(),
            *final(self) == (Kernel { cpus: final(self).cpus, ..*old(self) }),
            final(self).cpus@ == if cpu < MAX_CPU {
                old(self).cpus@.update(cpu as int, t)
            } else {
                old(self).cpus@
            },
    {
        if cpu < self.cpus.len() {
            self.cpus[cpu] = t;
        }
    }

    /// Counts a page fault for the task of the first processor; says whether there
    /// is one.
    pub fn handle_pgfault(&mut self, addr: u64) -> (r: bool)
        requires
            old(self).wf(),
        ensures
            final(self).wf(),
            r == (running(*old(self), 0) is Some),
            !r ==> *final(self) == *old(self),
            running(*old(self), 0) matches Some(t) ==> {
                let p = old(self).tasks.store@[t as int];
                &&& *final(self) == (Kernel { tasks: final(self).tasks, ..*old(self) })
                &&& table::only_task(old(self).tasks, final(self).tasks, t)
                &&& final(self).tasks.store@[t as int] == (Task {
                    fault_count: p.fault_count.wrapping_add(1),
                    ..p
                })
            },
    {
        match self.cur_task(0) {
            Some(t) => {
                assert(self.cpus@[0] == Some(t));
                assert(table::links_ok(self.tasks.store@[t as int], self.tasks.store@.len()));
                self.tasks.store[t].record_fault();
                proof {
                    lemma_one_task(*old(self), *self, t);
                }
                true
            },
            None => false,
        }
    }

    /// As `handle_pgfault`, whatever the access was.
    pub fn handle_pgfault_ext(&mut self, addr: u64, _access: u8) -> (r: bool)
        requires
            old(self).wf(),
        ensures
            final(self).wf(),
            r == (running(*old(self), 0) is Some),
            !r ==> *final(self) == *old(self),
            running(*old(self), 0) matches Some(t) ==> {
                let p = old(self).tasks.store@[t as int];
                &&& *final(self) == (Kernel { tasks: final(self).tasks, ..*old(self) })
                &&& table::only_task(old(self).tasks, final(self).tasks, t)
                &&& final(self).tasks.store@[t as int] == (Task {
                    fault_count: p.fault_count.wrapping_add(1),
                    ..p
                })
            },
    {
        self.handle_pgfault(addr)
    }

    /// Makes the first task. Its kernel stack lies in the block at `stack_base`.
    pub fn proc_init(&mut self, stack_base: u64)
        requires
            old(self).wf(),
            stack_base + KSTACK_SIZE <= u64::MAX,
        ensures
            final(self).wf(),
            *final(self) == (Kernel { tasks: final(self).tasks, ..*old(self) }),
            ({
                let r = old(self).tasks.store@.len() as usize;
                let t = final(self).tasks.store@[r as int];
                let id = old(self).tasks.seq;
                &&& final(self).tasks.added(&old(self).tasks, r)
                &&& final(self).tasks.root == Some(r)
                &&& final(self).tasks.store@ == old(self).tasks.store@.push(t)
                &&& exists|f: Task|
                    {
                        &&& #[trigger] table::is_root_task(f, id)
                        &&& t == (Task { threads: t.threads, kernel_stack: t.kernel_stack, ..f })
                    }
                &&& t.threads@ == seq![id]
                &&& t.kernel_stack matches Some(s) && s.base() == stack_base && s.wf()
            }),
    {
        let ghost before = self.tasks.store@;
        let r = self.tasks.spawn_root();
        let ghost fresh = self.tasks.store@[r as int];
        let id = self.tasks.store[r].id();
        self.tasks.store[r].threads.push(id);
        self.tasks.store[r].kernel_stack = Some(KernelStack::new(stack_base));
        proof {
            let n = self.tasks.store@.len();
            let t = self.tasks.store@[r as int];
            assert(t.threads@ =~= seq![id]);
            assert(self.tasks.store@ =~= before.push(t));
            assert(table::is_root_task(fresh, id));
            lemma_fresh_covered(before, t, self.sem_store, self.shm_store);
            assert(0u64 & UNMASKABLE == 0) by (bit_vector);
            assert forall|fd: u64| #[trigger] t.files@.contains_key(fd) implies (
            file::pipe_of(t.files@[fd]) matches Some(x) ==> x.wf(self.pipes@)) by {
                assert(t.files@.dom().contains(fd));
            }
            assert forall|i: int| 0 <= i < n implies table::links_ok(
                #[trigger] self.tasks.store@[i],
                n,
            ) && task_ok(self.tasks.store@[i], self.pipes@, self.sem_store, self.shm_store) by {
                if i < r {
                    assert(self.tasks.store@[i] == before[i]);
                    assert(table::links_ok(before[i], before.len()));
                }
            }
        }
    }

    /// Takes a typed byte; a carriage return becomes a line feed. Bytes beyond the
    /// limit are lost.
    pub fn tty_push(&mut self, c: u8)
        requires
            old(self).wf(),
        ensures
            final(self).wf(),
            *final(self) == (Kernel { tty_buf: final(self).tty_buf, ..*old(self) }),
            final(self).tty_buf@ == if old(self).tty_buf@.len() < TTY_LIMIT {
                old(self).tty_buf@.push(
                    if c == 13 {
                        10u8
                    } else {
                        c
                    },
                )
            } else {
                old(self).tty_buf@
            },
    {
        let byte: u8 = if c == 13 {
            10
        } else {
            c
        };
        if self.tty_buf.len() < TTY_LIMIT {
            self.tty_buf.push_back(byte);
        }
    }

    pub fn tty_pop(&mut self) -> (r: Option<u8>)
        requires
            old(self).wf(),
        ensures
            final(self).wf(),
            *final(self) == (Kernel { tty_buf: final(self).tty_buf, ..*old(self) }),
            match r {
                Some(c) => {
                    &&& old(self).tty_buf@.len() > 0
                    &&& c == old(self).tty_buf@[0]
                    &&& final(self).tty_buf@ == old(self).tty_buf@.skip(1)
                },
                None => old(self).tty_buf@.len() == 0 && final(self).tty_buf@ == old(self).tty_buf@,
            },
    {
        let r = self.tty_buf.pop_front();
        proof {
            if old(self).tty_buf@.len() > 0 {
                assert(self.tty_buf@ =~= old(self).tty_buf@.skip(1));
            }
        }
        r
    }
}

/// Stores that only grow keep the kernel in order.
pub proof fn lemma_stores_grow(before: Kernel, after: Kernel)
    requires
        before.wf(),
        after == (Kernel { sem_store: after.sem_store, shm_store: after.shm_store, ..before }),
        after.sem_store.wf(),
        after.shm_store.wf(),
        after.sem_store.arrays@.len() >= before.sem_store.arrays@.len(),
        forall|g: int|
            0 <= g < before.sem_store.strong@.len() ==> #[trigger] after.sem_store.strong@[g]
                >= before.sem_store.strong@[g],
        after.shm_store.segments@.len() >= before.shm_store.segments@.len(),
        shared_mem::none_lost(before.shm_store.segments@, after.shm_store.segments@),
    ensures
        after.wf(),
{
    refs::lemma_covered_grows(
        sem_tables(before.tasks.store@),
        before.sem_store.strong@,
        after.sem_store.strong@,
    );
    let c = shared_mem::counts(before.shm_store.segments@);
    let d = shared_mem::counts(after.shm_store.segments@);
    assert forall|g: int| 0 <= g < c.len() implies #[trigger] d[g] >= c[g] by {
        assert(after.shm_store.segments@[g].strong >= before.shm_store.segments@[g].strong);
    }
    refs::lemma_covered_grows(shm_tables(before.tasks.store@), c, d);
    assert forall|i: int| 0 <= i < after.tasks.store@.len() implies task_ok(
        #[trigger] after.tasks.store@[i],
        after.pipes@,
        after.sem_store,
        after.shm_store,
    ) by {
        let t = before.tasks.store@[i];
        assert(task_ok(t, before.pipes@, before.sem_store, before.shm_store));
        assert forall|id: u64| #[trigger] t.shm_ctx.ids@.contains_key(id) implies t.shm_ctx.ids@[id].pages
            < after.shm_store.segments@.len()
            && after.shm_store.segments@[t.shm_ctx.ids@[id].pages as int].strong > 0 by {
            let g = t.shm_ctx.ids@[id].pages as int;
            assert(after.shm_store.segments@[g].strong >= before.shm_store.segments@[g].strong);
        }
    }
}

impl Kernel {
    /// The semaphore array of a key, made if it is missing.
    pub fn get_sem(&mut self, key: u64, nsems: usize, flags: u64) -> (r: Result<
        usize,
        &'static str,
    >)
        requires
            old(self).wf(),
            key == 0 ==> keys::has_free(old(self).sem_store.by_key@, 1),
            semary::live(old(self).sem_store, key) matches Some(g) ==> old(self).sem_store.strong@[g as int] < usize::MAX,
        ensures
            final(self).wf(),
            *final(self) == (Kernel { sem_store: final(self).sem_store, ..*old(self) }),
            semary::obtained(
                old(self).sem_store,
                final(self).sem_store,
                key,
                nsems,
                flags,
                r,
            ),
    {
        let r = SemArr::get_or_create(key, nsems, flags, &mut self.sem_store);
        proof {
            lemma_stores_grow(*old(self), *self);
        }
        r
    }

    /// The shared-memory segment of a key, made if it is missing.
    pub fn get_shm(&mut self, key: u64, npages: usize) -> (g: usize)
        requires
            old(self).wf(),
            shared_mem::live(old(self).shm_store, key) matches Some(g) ==> old(self).shm_store.segments@[g as int].strong < usize::MAX,
        ensures
            final(self).wf(),
            *final(self) == (Kernel { shm_store: final(self).shm_store, ..*old(self) }),
            shared_mem::obtained(old(self).shm_store, final(self).shm_store, key, npages, g),
    {
        let g = shm_get_or_create(key, npages, &mut self.shm_store);
        proof {
            let a = old(self).shm_store.segments@;
            let b = self.shm_store.segments@;
            assert forall|i: int| 0 <= i < a.len() implies (#[trigger] b[i]).strong >= a[i].strong by {
                if shared_mem::live(old(self).shm_store, key) is Some {
                    assert(shared_mem::counts(b)[i] == b[i].strong);
                    assert(shared_mem::counts(a)[i] == a[i].strong);
                }
            }
            lemma_stores_grow(*old(self), *self);
        }
        g
    }

    /// A timer tick on a processor: the clock advances, and the task that runs there
    /// goes back into the run queue, the later the more it faulted.
    pub fn schedule_tick(&mut self, cpu: usize, clock: &mut Clock)
        requires
            old(self).wf(),
            running(*old(self), cpu as int) is Some ==> timer::ticked(*old(clock), cpu).tick * 1024
                <= u64::MAX,
        ensures
            final(self).wf(),
            *final(clock) == timer::ticked(*old(clock), cpu),
            match running(*old(self), cpu as int) {
                Some(t) => {
                    let p = old(self).tasks.store@[t as int];
                    let now = final(clock).tick;
                    &&& *final(self) == (Kernel {
                        tasks: final(self).tasks,
                        runqueue: final(self).runqueue,
                        ..*old(self)
                    })
                    &&& table::only_task(old(self).tasks, final(self).tasks, t)
                    &&& final(self).tasks.store@[t as int] == (Task {
                        last_fault_count: p.fault_count,
                        ..p
                    })
                    &&& requeued(
                        old(self).runqueue,
                        final(self).runqueue,
                        p.info.id,
                        new_faults(p),
                        now,
                    )
                },
                None => *final(self) == *old(self),
            },
    {
        do_tick(clock, cpu);
        match self.cur_task(cpu) {
            Some(t) => {
                assert(self.cpus@[cpu as int] == Some(t));
                assert(table::links_ok(self.tasks.store@[t as int], self.tasks.store@.len()));
                let tid = self.tasks.store[t].id();
                let nice = self.tasks.store[t].working_set_nice();
                proof {
                    lemma_one_task(*old(self), *self, t);
                }
                let mut policy = SchedulePolicy::new();
                policy.nice = nice;
                self.runqueue.enqueue(tid, policy);
                let ghost q = self.runqueue@;
                self.runqueue.rebalance(clock.tick);
                assert(schedule::in_order(q));
            },
            None => {},
        }
    }

    /// The processor that a new task should go to.
    pub fn balance_load(&self) -> (r: usize)
        requires
            self.wf(),
            forall|c: int|
                0 <= c < MAX_CPU ==> (#[trigger] self.cpus@[c] matches Some(t) ==> can_score(
                    self.tasks.store@[t as int],
                )),
        ensures
            r < MAX_CPU,
            forall|c: int|
                0 <= c < MAX_CPU ==> #[trigger] scan::cpu_score(
                    cpu_counts(*self),
                    cpu_prios(*self),
                    cpu_blocked(*self),
                    c,
                ) <= scan::cpu_score(
                    cpu_counts(*self),
                    cpu_prios(*self),
                    cpu_blocked(*self),
                    r as int,
                ),
            forall|c: int|
                0 <= c < r ==> #[trigger] scan::cpu_score(
                    cpu_counts(*self),
                    cpu_prios(*self),
                    cpu_blocked(*self),
                    c,
                ) < scan::cpu_score(
                    cpu_counts(*self),
                    cpu_prios(*self),
                    cpu_blocked(*self),
                    r as int,
                ),
    {
        let mut counts: Vec<usize> = Vec::new();
        let mut prios: Vec<i32> = Vec::new();
        let mut blocked: Vec<bool> = Vec::new();
        let mut i: usize = 0;
        while i < MAX_CPU
            invariant
                i <= MAX_CPU,
                self.wf(),
                counts@.len() == i,
                prios@.len() == i,
                blocked@.len() == i,
                forall|c: int| 0 <= c < i ==> #[trigger] counts@[c] == cpu_counts(*self)[c],
                forall|c: int| 0 <= c < i ==> #[trigger] prios@[c] == cpu_prios(*self)[c],
                forall|c: int| 0 <= c < i ==> #[trigger] blocked@[c] == cpu_blocked(*self)[c],
                forall|c: int|
                    0 <= c < MAX_CPU ==> (#[trigger] self.cpus@[c] matches Some(t) ==> can_score(
                        self.tasks.store@[t as int],
                    )),
                forall|c: int| 0 <= c < i ==> #[trigger] counts@[c] * 100 + 30_000_000_000 <= i64::MAX,
            decreases MAX_CPU - i,
        {
            assert(self.cpus@[i as int] matches Some(t) ==> t < self.tasks.store@.len());
            match self.cpus[i] {
                Some(t) => {
                    let n: usize = self.tasks.store[t].n_children();
                    assert((n + 1) * 100 + 30_000_000_000 <= i64::MAX);
                    counts.push(n + 1);
                    prios.push(self.tasks.store[t].pgid);
                    blocked.push(self.tasks.store[t].done());
                },
                None => {
                    counts.push(0);
                    prios.push(0);
                    blocked.push(false);
                },
            }
            i = i + 1;
        }
        assert(counts@ =~= cpu_counts(*self));
        assert(prios@ =~= cpu_prios(*self));
        assert(blocked@ =~= cpu_blocked(*self));
        compute_load_balance(counts.as_slice(), prios.as_slice(), blocked.as_slice())
    }

    /// Removes every task that is done; returns how many there were. Each keeps what
    /// it holds as long as anything refers to it, as `drop_task` says.
    pub fn reclaim_zombies(&mut self) -> (r: usize)
        requires
            old(self).wf(),
        ensures
            final(self).wf(),
            *final(self) == (Kernel { tasks: final(self).tasks, ..*old(self) }),
            final(self).tasks.seq == old(self).tasks.seq,
            final(self).tasks.root == old(self).tasks.root,
            ({
                let a = old(self).tasks;
                let b = final(self).tasks;
                let ids = table::selected(a.map@, a.store@, table::Query::Done);
                &&& r == ids.len()
                &&& forall|id: u64| #[trigger]
                    b.map@.contains_key(id) <==> a.map@.contains_key(id) && !ids.contains(id)
                &&& forall|id: u64| #[trigger]
                    b.map@.contains_key(id) ==> b.map@[id] == a.map@[id]
                &&& exists|trace: Seq<Seq<Task>>|
                    {
                        &&& #[trigger] reap_trace(trace, ids, a.map@, a.root)
                        &&& trace.first() == a.store@
                        &&& trace.last() == b.store@
                    }
            }),
            forall|id: u64| #[trigger]
                final(self).tasks.map@.contains_key(id) <==> old(self).tasks.map@.contains_key(id)
                    && old(self).tasks.store@[old(self).tasks.map@[id] as int].info.status is None,
    {
        let zombies = self.tasks.zombie_tasks();
        let ghost ids = zombies@;
        let ghost a = self.tasks;
        let ghost mut trace: Seq<Seq<Task>> = seq![self.tasks.store@];
        let mut i: usize = 0;
        assert(ids.take(0) =~= Seq::<u64>::empty());
        while i < zombies.len()
            invariant
                i <= zombies@.len(),
                ids == zombies@,
                keys::increasing(ids),
                forall|k: int| 0 <= k < ids.len() ==> a.map@.contains_key(#[trigger] ids[k]),
                a == old(self).tasks,
                old(self).wf(),
                self.wf(),
                *self == (Kernel { tasks: self.tasks, ..*old(self) }),
                self.tasks.seq == a.seq,
                self.tasks.root == a.root,
                self.tasks.store@.len() == a.store@.len(),
                trace.len() == i + 1,
                reap_trace(trace, ids.take(i as int), a.map@, a.root),
                trace.first() == a.store@,
                trace.last() == self.tasks.store@,
                forall|id: u64| #[trigger]
                    self.tasks.map@.contains_key(id) <==> a.map@.contains_key(id) && !ids.take(
                        i as int,
                    ).contains(id),
                forall|id: u64| #[trigger]
                    self.tasks.map@.contains_key(id) ==> self.tasks.map@[id] == a.map@[id],
            decreases zombies@.len() - i,
        {
            let id: u64 = zombies[i];
            let ghost mid = *self;
            let ghost here = ids.take(i as int);
            let ghost next = ids.take(i + 1);
            proof {
                assert(a.map@.contains_key(ids[i as int]));
                if here.contains(id) {
                    let k = choose|k: int| 0 <= k < here.len() && here[k] == id;
                    assert(ids[k] < ids[i as int]);
                }
            }
            self.tasks.reap(id);
            proof {
                let old_trace = trace;
                trace = trace.push(self.tasks.store@);
                assert(next =~= here.push(id));
                assert forall|k: int| 0 <= k < next.len() implies table::reaped(
                    trace[k],
                    trace[k + 1],
                    a.map@[#[trigger] next[k]],
                    a.root,
                ) by {
                    if k < i {
                        assert(next[k] == here[k]);
                        assert(table::reaped(
                            old_trace[k],
                            old_trace[k + 1],
                            a.map@[here[k]],
                            a.root,
                        ));
                    }
                }
                assert forall|x: u64| #[trigger] self.tasks.map@.contains_key(x) <==> a.map@.contains_key(x)
                    && !next.contains(x) by {
                    if here.contains(x) {
                        let k = choose|k: int| 0 <= k < here.len() && here[k] == x;
                        assert(next[k] == x);
                    }
                    assert(next[i as int] == id);
                    assert(mid.tasks.map@.contains_key(x) <==> a.map@.contains_key(x)
                        && !here.contains(x));
                }
                assert forall|x: u64| #[trigger] self.tasks.map@.contains_key(x) implies self.tasks.map@[x]
                    == a.map@[x] by {
                    assert(mid.tasks.map@.contains_key(x));
                }
                lemma_same_holdings(mid, *self);
            }
            i = i + 1;
        }
        proof {
            assert(ids.take(i as int) =~= ids);
            assert(reap_trace(trace, ids, a.map@, a.root));
            assert forall|id: u64| #[trigger] self.tasks.map@.contains_key(id) <==> a.map@.contains_key(id)
                && a.store@[a.map@[id] as int].info.status is None by {
                table::lemma_selected(a.map@, a.store@, table::Query::Done, id);
            }
        }
        zombies.len()
    }

    /// For each bucket of the mount cache the last mount that falls into it.
    pub fn rehash_mount_cache(entries: &Vec<MountEntry>) -> (r: BTreeMap<u64, usize>)
        ensures
            r@ == tables::mounts_by_bucket(entries@, entries@.len()),
    {
        bucket_mounts(entries)
    }

    /// Resolves a path through the mounts.
    pub fn lookup_path(&self, path: &str) -> (r: Result<String, &'static str>)
        ensures
            match r {
                Ok(s) => path@.len() > 0 && s@ == mount::resolved(self.mnt@, path@),
                Err(e) => path@.len() == 0 && e == "enoent",
            },
    {
        if path.unicode_len() == 0 {
            return Err("enoent");
        }
        self.mnt.resolve(path)
    }

    /// Takes up to `count` frames, the lowest first; returns their addresses.
    pub fn alloc_pages(&mut self, count: usize) -> (r: Vec<u64>)
        requires
            old(self).wf(),
            frames::frame_addr(old(self).pool@.len() as int) <= u64::MAX,
        ensures
            final(self).wf(),
            *final(self) == (Kernel { pool: final(self).pool, ..*old(self) }),
            ({
                let s = old(self).pool@;
                let low = frames::lowest_frames(s, count as nat);
                &&& r@ == low.map_values(|i: int| frames::frame_addr(i) as u64)
                &&& final(self).pool@ == frames::without(s, low)
            }),
    {
        let ghost s = self.pool@;
        let ghost fl = frames::free_list(s);
        let mut pages: Vec<u64> = Vec::new();
        let free_before: usize = self.pool.free_frame_count();
        if free_before < count {
            defragment_frame_pool(&mut self.pool.frame_is_free);
        }
        proof {
            frames::lemma_free_list(s);
            assert(fl.take(0) =~= Seq::<int>::empty());
            assert(frames::without(s, fl.take(0)) =~= s);
        }
        let mut i: usize = 0;
        while i < count
            invariant
                i <= count,
                i <= fl.len(),
                fl == frames::free_list(s),
                s.len() == self.pool@.len(),
                frames::frame_addr(s.len() as int) <= u64::MAX,
                *self == (Kernel { pool: self.pool, ..*old(self) }),
                old(self).wf(),
                self.pool.wf(),
                self.pool@ == frames::without(s, fl.take(i as int)),
                pages@ == fl.take(i as int).map_values(|x: int| frames::frame_addr(x) as u64),
            ensures
                i == count || i == fl.len(),
            decreases count - i,
        {
            let taken = self.pool.alloc_frame_index();
            proof {
                frames::lemma_next_free(s, i as int, taken, self.pool@);
            }
            match taken {
                Some(frame_index) => {
                    proof {
                        frames::lemma_free_list(s);
                        assert(fl.take(i + 1) =~= fl.take(i as int).push(frame_index as int));
                    }
                    let addr: u64 = frame_index as u64 * PAGE_SIZE + MEMORY_OFFSET;
                    pages.push(addr);
                    assert(pages@ =~= fl.take(i + 1).map_values(
                        |x: int| frames::frame_addr(x) as u64,
                    ));
                },
                None => {
                    break;
                },
            }
            i = i + 1;
        }
        assert(fl.take(i as int) =~= frames::lowest_frames(s, count as nat));
        pages
    }

    /// Gives frames back.
    pub fn free_pages(&mut self, pages: &[u64])
        requires
            old(self).wf(),
            forall|k: int| 0 <= k < pages@.len() ==> #[trigger] pages@[k] >= MEMORY_OFFSET,
        ensures
            final(self).wf(),
            *final(self) == (Kernel { pool: final(self).pool, ..*old(self) }),
            final(self).pool@.len() == old(self).pool@.len(),
            forall|i: int|
                0 <= i < old(self).pool@.len() ==> #[trigger] final(self).pool@[i] == (old(self).pool@[i] || in_pages(pages@, i)),
    {
        let ghost s = self.pool@;
        let mut k: usize = 0;
        assert(pages@.take(0) =~= Seq::<u64>::empty());
        while k < pages.len()
            invariant
                k <= pages@.len(),
                forall|k: int| 0 <= k < pages@.len() ==> #[trigger] pages@[k] >= MEMORY_OFFSET,
                *self == (Kernel { pool: self.pool, ..*old(self) }),
                old(self).wf(),
                self.pool.wf(),
                self.pool@.len() == s.len(),
                forall|i: int|
                    0 <= i < s.len() ==> #[trigger] self.pool@[i] == (s[i] || in_pages(
                        pages@.take(k as int),
                        i,
                    )),
            decreases pages@.len() - k,
        {
            let pa: u64 = pages[k];
            let ghost mid = self.pool@;
            let frame_index: u64 = (pa - MEMORY_OFFSET) / PAGE_SIZE;
            let n: usize = self.pool.frame_is_free.len();
            if frame_index < n as u64 {
                self.pool.frame_is_free[frame_index as usize] = true;
            }
            proof {
                let here = pages@.take(k as int);
                let next = pages@.take(k + 1);
                assert(next =~= here.push(pa));
                assert forall|i: int| 0 <= i < s.len() implies #[trigger] self.pool@[i] == (s[i]
                    || in_pages(next, i)) by {
                    assert(mid[i] == (s[i] || in_pages(here, i)));
                    if in_pages(here, i) {
                        let q = choose|q: int| 0 <= q < here.len() && frame_of(#[trigger] here[q]) == i;
                        assert(frame_of(next[q]) == i);
                    }
                    assert(next[k as int] == pa);
                    if in_pages(next, i) && i != frame_index {
                        let q = choose|q: int| 0 <= q < next.len() && frame_of(#[trigger] next[q]) == i;
                        assert(frame_of(here[q]) == i);
                    }
                }
            }
            k = k + 1;
        }
        assert(pages@.take(k as int) =~= pages@);
    }

    /// The share of the frames that is in use, in percent.
    pub fn memory_pressure(&self) -> (r: usize)
        requires
            self.wf(),
            (self.pool@.len() - frames::count_free(self.pool@)) * 100 <= usize::MAX,
        ensures
            r == if self.pool@.len() == 0 {
                100
            } else {
                (self.pool@.len() - frames::count_free(self.pool@)) * 100 / (
                self.pool@.len() as int)
            },
    {
        proof {
            frames::lemma_count_bounds(self.pool@);
        }
        let total: usize = self.pool.frame_count;
        let free: usize = self.pool.free_frame_count();
        if total == 0 {
            return 100;
        }
        let used: usize = total - free;
        (used * 100) / total
    }

    /// How many blocks are cached, and how many of them are modified.
    pub fn cache_stats(&self) -> (r: (usize, usize))
        requires
            cache::entries_in(self.cache@) <= usize::MAX,
        ensures
            r.0 == cache::entries_in(self.cache@),
            r.1 == cache::dirty_in(self.cache@),
    {
        (self.cache.total_entries(), self.cache.dirty_count())
    }
}

/// The load of the task and its children is a machine number.
pub open spec fn can_score(t: Task) -> bool {
    &&& t.subtasks@.len() < usize::MAX
    &&& (t.subtasks@.len() + 1) * 100 + 30_000_000_000 <= i64::MAX
}

/// The page faults since the last tick.
pub open spec fn new_faults(t: Task) -> int {
    if t.fault_count >= t.last_fault_count {
        t.fault_count - t.last_fault_count
    } else {
        0
    }
}

/// The policy of a task that had so many page faults since the last tick.
pub open spec fn policy_for(faults: int) -> SchedulePolicy {
    SchedulePolicy {
        policy: SCHED_NORMAL,
        prio: PRIO_DEFAULT,
        nice: task::nice_of(faults) as i32,
        time_slice: 10,
        vruntime: 0,
        last_tick: 0,
    }
}

/// The run queue after a task went into it at its niceness, and all run times were
/// brought up to date.
pub open spec fn requeued(before: RunQueue, after: RunQueue, id: u64, faults: int, now: u64) -> bool {
    let policy = policy_for(faults);
    &&& after.current == before.current
    &&& after.preempt_count == before.preempt_count
    &&& schedule::in_order(after@)
    &&& exists|q: Seq<(u64, SchedulePolicy)>|
        {
            &&& #[trigger] schedule::in_order(q)
            &&& q.to_multiset() == schedule::with_policy(before@, id, policy).to_multiset()
            &&& after@.to_multiset() == schedule::caught_up(q, now, q.len()).to_multiset()
        }
}

/// A task that faults more goes behind one that faults less, when both have waited
/// equally long, as soon as the difference shows in their niceness.
pub proof fn lemma_faults_cost_priority(few: int, many: int, waited: u64, now: u64)
    requires
        0 <= few <= many,
        task::nice_of(few) < task::nice_of(many),
        waited * 1024 <= i64::MAX,
    ensures
        schedule::score_of(schedule::ran(policy_for(few), waited, now)) < schedule::score_of(
            schedule::ran(policy_for(many), waited, now),
        ),
{
    task::lemma_faults_raise_nice(few, many);
    schedule::lemma_nice_stays_behind(policy_for(few), policy_for(many), waited, now);
}

/// Freeing the pages that were taken gives the pool back.
pub proof fn lemma_free_pages_undoes_alloc(s: Seq<bool>, n: nat, pages: Seq<u64>, after: Seq<bool>)
    requires
        frames::frame_addr(s.len() as int) <= u64::MAX,
        pages == frames::lowest_frames(s, n).map_values(|i: int| frames::frame_addr(i) as u64),
        after.len() == s.len(),
        forall|i: int|
            0 <= i < s.len() ==> #[trigger] after[i] == (frames::without(
                s,
                frames::lowest_frames(s, n),
            )[i] || in_pages(pages, i)),
    ensures
        after == s,
{
    frames::lemma_free_list(s);
    let low = frames::lowest_frames(s, n);
    assert forall|k: int| 0 <= k < low.len() implies frame_of(#[trigger] pages[k]) == low[k] by {
        assert(low[k] == frames::free_list(s)[k]);
        assert(0 <= low[k] < s.len());
    }
    assert forall|j: int| 0 <= j < s.len() implies #[trigger] after[j] == (frames::without(s, low)[j]
        || low.contains(j)) by {
        if in_pages(pages, j) {
            let k = choose|k: int| 0 <= k < pages.len() && frame_of(#[trigger] pages[k]) == j;
            assert(low[k] == j);
        }
        if low.contains(j) {
            let k = choose|k: int| 0 <= k < low.len() && low[k] == j;
            assert(frame_of(pages[k]) == j);
        }
    }
    frames::lemma_freeing_undoes_taking(s, n, after);
}

impl Kernel {
    /// One turn of the thread of a task: its context is taken and put back. Says
    /// whether the thread ends, because the task is done; otherwise it yields and
    /// takes another turn.
    pub fn run_turn(&mut self, t: TaskRef) -> (r: bool)
        requires
            old(self).wf(),
            t < old(self).tasks.store@.len(),
        ensures
            final(self).wf(),
            *final(self) == (Kernel { tasks: final(self).tasks, ..*old(self) }),
            table::only_task(old(self).tasks, final(self).tasks, t),
            r == task::is_done(old(self).tasks.store@[t as int]),
            ({
                let p = old(self).tasks.store@[t as int];
                let q = final(self).tasks.store@[t as int];
                &&& q == (Task { thread_context: q.thread_context, ..p })
                &&& match p.thread_context {
                    Some(c) => q.thread_context == Some(c),
                    None => q.thread_context matches Some(c) && thread::is_blank(c),
                }
            }),
    {
        assert(table::links_ok(self.tasks.store@[t as int], self.tasks.store@.len()));
        let context = self.tasks.store[t].begin_run();
        self.tasks.store[t].end_run(context);
        proof {
            lemma_one_task(*old(self), *self, t);
        }
        self.tasks.store[t].done()
    }
}

/// The kernel after a task has been forked.
pub open spec fn forked(before: Kernel, after: Kernel, src: TaskRef) -> bool {
    let a = before.tasks;
    let b = after.tasks;
    let h = a.store@.len() as usize;
    let p = a.store@[src as int];
    let q = b.store@[src as int];
    &&& after == (Kernel {
        tasks: after.tasks,
        sem_store: after.sem_store,
        shm_store: after.shm_store,
        ..before
    })
    &&& b.added(&a, h)
    &&& b.root == a.root
    &&& exists|c: Task|
        {
            &&& #[trigger] table::is_fork_child(p, c, a.seq, src)
            &&& b.store@[h as int] == (Task { vm_token: p.vm_token, ..c })
        }
    &&& q == (Task { subtasks: q.subtasks, ..p })
    &&& q.subtasks@ == p.subtasks@.push(h)
    &&& forall|j: int|
        0 <= j < h && j != src ==> #[trigger] b.store@[j] == a.store@[j]
    &&& table::contexts_copied(
        p,
        before.sem_store,
        after.sem_store,
        before.shm_store,
        after.shm_store,
    )
}

/// A task after it has started a program.
pub open spec fn started(p: Task, q: Task, path: Seq<char>, sp: u64) -> bool {
    &&& q == (Task {
        exec_path: q.exec_path,
        files: q.files,
        thread_context: q.thread_context,
        ..p
    })
    &&& q.exec_path@ == path
    &&& exec_files(p.files@, q.files@)
    &&& q.thread_context matches Some(c) && starts_program(c, sp)
}

fn drop_cloexec(files: &mut BTreeMap<u64, FLike>)
    ensures
        exec_files(old(files)@, final(files)@),
{
    let list = sorted_keys(files);
    let ghost before = files@;
    let ghost ks = list@;
    let mut i: usize = 0;
    assert(ks.take(0) =~= Seq::<u64>::empty());
    while i < list.len()
        invariant
            i <= list@.len(),
            ks == list@,
            keys::lists_keys(ks, before),
            forall|fd: u64| #[trigger]
                files@.contains_key(fd) <==> before.contains_key(fd) && !(ks.take(
                    i as int,
                ).contains(fd) && closes_on_exec(before[fd])),
            forall|fd: u64| #[trigger] files@.contains_key(fd) ==> files@[fd] == before[fd],
        decreases list@.len() - i,
    {
        let fd: u64 = list[i];
        let ghost mid = files@;
        let ghost here = ks.take(i as int);
        let ghost next = ks.take(i + 1);
        proof {
            assert(ks.contains(fd));
            if here.contains(fd) {
                let k = choose|k: int| 0 <= k < here.len() && here[k] == fd;
                assert(ks[k] < ks[i as int]);
            }
            assert(files@.contains_key(fd));
        }
        let closes: bool = match files.get(&fd).unwrap() {
            FLike::File(h) => h.cloexec,
            _ => false,
        };
        if closes {
            files.remove(&fd);
        }
        proof {
            assert(next =~= here.push(fd));
            assert forall|k: u64| #[trigger] files@.contains_key(k) <==> before.contains_key(k) && !(
            next.contains(k) && closes_on_exec(before[k])) by {
                if here.contains(k) {
                    let j = choose|j: int| 0 <= j < here.len() && here[j] == k;
                    assert(next[j] == k);
                }
                assert(next[i as int] == fd);
                assert(mid.contains_key(k) <==> before.contains_key(k) && !(here.contains(k)
                    && closes_on_exec(before[k])));
            }
            assert forall|k: u64| #[trigger] files@.contains_key(k) implies files@[k] == before[k] by {
                assert(mid.contains_key(k));
            }
        }
        i = i + 1;
    }
    proof {
        assert(ks.take(i as int) =~= ks);
        assert forall|fd: u64| #[trigger] files@.contains_key(fd) <==> before.contains_key(fd)
            && !closes_on_exec(before[fd]) by {
            assert(ks.contains(fd) <==> before.contains_key(fd));
        }
    }
}

impl Kernel {
    /// Makes a child of a task; returns its id.
    pub fn do_fork(&mut self, parent_id: u64) -> (r: Result<u64, &'static str>)
        requires
            old(self).wf(),
            old(self).tasks.map@.contains_key(parent_id) ==> table::counts_left(
                old(self).tasks.store@[old(self).tasks.map@[parent_id] as int],
                old(self).sem_store,
                old(self).shm_store,
            ),
        ensures
            final(self).wf(),
            if old(self).tasks.map@.contains_key(parent_id) {
                &&& r == Ok::<u64, &'static str>(old(self).tasks.seq)
                &&& forked(*old(self), *final(self), old(self).tasks.map@[parent_id])
            } else {
                &&& r == Err::<u64, &'static str>("esrch")
                &&& *final(self) == *old(self)
            },
    {
        let src: usize = match self.tasks.find(parent_id) {
            Some(t) => t,
            None => {
                return Err("esrch");
            },
        };
        assert(self.tasks.map@.contains_key(parent_id));
        let ghost p = self.tasks.store@[src as int];
        assert(task_ok(p, self.pipes@, self.sem_store, self.shm_store));
        let h = self.tasks.fork_task(src, &mut self.sem_store, &mut self.shm_store);
        let ghost c = self.tasks.store@[h as int];
        let ghost mid = *self;
        let child_id = self.tasks.store[h].id();
        let parent_vm_token: u64 = self.tasks.store[src].vm_token;
        self.tasks.store[h].vm_token = parent_vm_token;
        proof {
            assert(table::is_fork_child(p, c, old(self).tasks.seq, src));
            lemma_forked_wf(*old(self), *self, src, h, c);
        }
        Ok(child_id)
    }

    /// Starts a program in a task: descriptors that are marked so are closed, and
    /// the task goes on at the entry point with the stack at `sp`, which is where
    /// arguments and environment, laid out below `user_stack_top`, end.
    pub fn do_exec(&mut self, task_id: u64, path: &str, sp: u64) -> (r: Result<(), &'static str>)
        requires
            old(self).wf(),
        ensures
            final(self).wf(),
            if old(self).tasks.map@.contains_key(task_id) {
                let t = old(self).tasks.map@[task_id];
                &&& r == Ok::<(), &'static str>(())
                &&& *final(self) == (Kernel { tasks: final(self).tasks, ..*old(self) })
                &&& table::only_task(old(self).tasks, final(self).tasks, t)
                &&& started(
                    old(self).tasks.store@[t as int],
                    final(self).tasks.store@[t as int],
                    path@,
                    sp,
                )
            } else {
                &&& r == Err::<(), &'static str>("esrch")
                &&& *final(self) == *old(self)
            },
    {
        let t: usize = match self.tasks.find(task_id) {
            Some(t) => t,
            None => {
                return Err("esrch");
            },
        };
        assert(self.tasks.map@.contains_key(task_id));
        let ghost p = self.tasks.store@[t as int];
        assert(table::links_ok(p, self.tasks.store@.len()));
        assert(task_ok(p, self.pipes@, self.sem_store, self.shm_store));
        self.tasks.store[t].exec_path = path.to_owned();
        drop_cloexec(&mut self.tasks.store[t].files);
        let mut thread_context = ThreadContext::default();
        thread_context.user_trap_frame.set_stack_pointer(sp);
        thread_context.user_trap_frame.set_instruction_pointer(BRK_BASE);
        self.tasks.store[t].thread_context = Some(thread_context);
        proof {
            let q = self.tasks.store@[t as int];
            assert forall|fd: u64| #[trigger] q.files@.contains_key(fd) implies (
            file::pipe_of(q.files@[fd]) matches Some(n) ==> n.wf(self.pipes@)) by {
                assert(p.files@.contains_key(fd));
            }
            lemma_one_task(*old(self), *self, t);
        }
        Ok(())
    }

    /// Makes a pipe and gives a task its two ends, the reading end first.
    pub fn do_pipe(&mut self, task_id: u64) -> (r: Result<(u64, u64), &'static str>)
        requires
            old(self).wf(),
        ensures
            final(self).wf(),
            match r {
                Ok(fds) => {
                    &&& old(self).tasks.map@.contains_key(task_id)
                    &&& piped(
                        *old(self),
                        *final(self),
                        old(self).tasks.map@[task_id],
                        fds.0,
                        fds.1,
                    )
                },
                Err(e) => {
                    &&& !old(self).tasks.map@.contains_key(task_id)
                    &&& e == "esrch"
                    &&& *final(self) == *old(self)
                },
            },
    {
        match self.tasks.find(task_id) {
            Some(t) => {
                assert(self.tasks.map@.contains_key(task_id));
                Ok(self.add_pipe(t))
            },
            None => Err("esrch"),
        }
    }

    /// Makes a pipe and gives the task at `t` its two ends.
    pub fn add_pipe(&mut self, t: TaskRef) -> (r: (u64, u64))
        requires
            old(self).wf(),
            t < old(self).tasks.store@.len(),
        ensures
            final(self).wf(),
            piped(*old(self), *final(self), t, r.0, r.1),
    {
        let ghost p = self.tasks.store@[t as int];
        assert(table::links_ok(p, self.tasks.store@.len()));
        let (rd, wr) = PipeNode::pair(&mut self.pipes);
        let rd_fd: u64 = self.tasks.store[t].add_file(FLike::Pipe(rd));
        let wr_fd: u64 = self.tasks.store[t].add_file(FLike::Pipe(wr));
        proof {
            let n = self.tasks.store@.len();
            lemma_same_tables(old(self).tasks.store@, self.tasks.store@);
            assert forall|i: int| 0 <= i < n implies table::links_ok(
                #[trigger] self.tasks.store@[i],
                n,
            ) && task_ok(self.tasks.store@[i], self.pipes@, self.sem_store, self.shm_store) by {
                let a = old(self).tasks.store@[i];
                assert(table::links_ok(a, n));
                assert(task_ok(a, old(self).pipes@, self.sem_store, self.shm_store));
                let b = self.tasks.store@[i];
                assert forall|fd: u64| #[trigger] b.files@.contains_key(fd) implies (
                file::pipe_of(b.files@[fd]) matches Some(x) ==> x.wf(self.pipes@)) by {
                    if a.files@.contains_key(fd) && b.files@[fd] == a.files@[fd] {
                        assert(file::pipe_of(a.files@[fd]) matches Some(x) ==> x.wf(
                            old(self).pipes@,
                        ));
                    }
                }
            }
        }
        (rd_fd, wr_fd)
    }

    /// Collects a child that is done: its id and exit code. Without one, `(0, 0)` if
    /// the caller does not want to wait, else an error. The child stays in the list
    /// of its parent, and so keeps what it holds.
    pub fn do_wait(&mut self, parent_id: u64, target_pid: i64, options: u64) -> (r: Result<
        (u64, u64),
        &'static str,
    >)
        requires
            old(self).wf(),
            target_pid != i64::MIN,
        ensures
            final(self).wf(),
            *final(self) == (Kernel { tasks: final(self).tasks, ..*old(self) }),
            waited(*old(self), *final(self), parent_id, target_pid, options, r),
            target_pid == 0 && old(self).tasks.map@.contains_key(parent_id) ==> ({
                let store = old(self).tasks.store@;
                let p = store[old(self).tasks.map@[parent_id] as int];
                (forall|k: int|
                    0 <= k < p.subtasks@.len() ==> store[#[trigger] p.subtasks@[k] as int].pgid
                        != p.pgid || store[p.subtasks@[k] as int].info.status is None)
                    ==> final(self).tasks == old(self).tasks
            }),
    {
        let p: usize = match self.tasks.find(parent_id) {
            Some(t) => t,
            None => {
                return Err("esrch");
            },
        };
        assert(self.tasks.map@.contains_key(parent_id));
        assert(table::links_ok(self.tasks.store@[p as int], self.tasks.store@.len()));
        let wnohang: bool = (options & 1) != 0;
        let n: usize = self.tasks.store[p].subtasks.len();
        if n == 0 {
            return Err("echild");
        }
        let ghost a = self.tasks;
        let mut i: usize = 0;
        while i < n
            invariant
                i <= n,
                *self == *old(self),
                self.wf(),
                a == self.tasks,
                target_pid != i64::MIN,
                p < a.store@.len(),
                n == a.store@[p as int].subtasks@.len(),
                table::links_ok(a.store@[p as int], a.store@.len()),
                a.map@.contains_key(parent_id),
                p == a.map@[parent_id],
                forall|k: int|
                    0 <= k < i ==> !#[trigger] collectable(a.store@, p as int, target_pid, k),
            decreases n - i,
        {
            let c: usize = self.tasks.store[p].subtasks[i];
            assert(a.store@[p as int].subtasks@[i as int] < a.store@.len());
            let matches: bool = if target_pid == -1 {
                true
            } else if target_pid == 0 {
                self.tasks.store[c].pgid == self.tasks.store[p].pgid
            } else if target_pid > 0 {
                self.tasks.store[c].id() == target_pid as u64
            } else {
                self.tasks.store[c].pgid == to_signed_half((-target_pid) as u64)
            };
            if matches && self.tasks.store[c].done() {
                let id: u64 = self.tasks.store[c].id();
                let code: u64 = self.tasks.store[c].exit_code;
                assert(collectable(a.store@, p as int, target_pid, i as int));
                assert(is_collected(a.store@, p as int, target_pid, i as int));
                self.tasks.reap(id);
                proof {
                    assert forall|j: int| 0 <= j < a.store@.len() implies ({
                        let x = a.store@[j];
                        let y = #[trigger] self.tasks.store@[j];
                        y.files@ == x.files@ && y.sem_ctx == x.sem_ctx && y.shm_ctx == x.shm_ctx
                            && y.sig_mask == x.sig_mask
                    }) by {
                        if !a.map@.contains_key(id) {
                            assert(self.tasks.store@ == a.store@);
                        }
                    }
                    lemma_same_holdings(*old(self), *self);
                }
                return Ok((id, code));
            }
            i = i + 1;
        }
        assert(forall|k: int| #[trigger] is_collected(a.store@, p as int, target_pid, k) ==> false);
        if wnohang {
            Ok((0, 0))
        } else {
            Err("echild")
        }
    }
}

/// The references of a task that has the contexts of another, with references of its
/// own, are counted.
proof fn lemma_copied_refs(before: Kernel, after: Kernel, src: TaskRef)
    requires
        before.wf(),
        src < before.tasks.store@.len(),
        after.tasks.store@.len() == before.tasks.store@.len() + 1,
        table::contexts_copied(
            before.tasks.store@[src as int],
            before.sem_store,
            after.sem_store,
            before.shm_store,
            after.shm_store,
        ),
        table::counts_left(
            before.tasks.store@[src as int],
            before.sem_store,
            before.shm_store,
        ),
        forall|j: int|
            0 <= j < before.tasks.store@.len() ==> (#[trigger] after.tasks.store@[j]).sem_ctx.arrays@
                == before.tasks.store@[j].sem_ctx.arrays@ && after.tasks.store@[j].shm_ctx.ids@
                == before.tasks.store@[j].shm_ctx.ids@,
        after.tasks.store@.last().sem_ctx.arrays@
            == before.tasks.store@[src as int].sem_ctx.arrays@,
        after.tasks.store@.last().shm_ctx.ids@ == before.tasks.store@[src as int].shm_ctx.ids@,
    ensures
        refs_ok(after.tasks.store@, after.sem_store, after.shm_store),
        forall|g: int|
            0 <= g < before.sem_store.strong@.len() ==> #[trigger] after.sem_store.strong@[g]
                >= before.sem_store.strong@[g],
{
    let p = before.tasks.store@[src as int];
    let a = sem_tables(before.tasks.store@);
    let b = shm_tables(before.tasks.store@);
    let m = shared_mem::segments_of(p.shm_ctx.ids@);
    let c = before.sem_store.strong@;
    let d = shared_mem::counts(before.shm_store.segments@);
    assert(m.dom() =~= p.shm_ctx.ids@.dom());
    keys::lemma_listing_exists(p.sem_ctx.arrays@);
    keys::lemma_listing_exists(m);
    let list = keys::listing(p.sem_ctx.arrays@);
    assert forall|g: int| 0 <= g < d.len() implies #[trigger] d[g] + keys::listing(m).len()
        <= usize::MAX by {
        assert(before.shm_store.segments@[g].strong + p.shm_ctx.ids@.len() <= usize::MAX);
    }
    refs::lemma_copy_covered(a, c, src as int);
    refs::lemma_copy_covered(b, d, src as int);
    assert(sem_tables(after.tasks.store@) =~= a.push(p.sem_ctx.arrays@));
    assert(shm_tables(after.tasks.store@) =~= b.push(m));
    refs::lemma_table_below(a, c, src as int);
    assert forall|g: int| 0 <= g < c.len() implies #[trigger] after.sem_store.strong@[g] >= c[g] by {
        assert(c[g] + p.sem_ctx.arrays@.len() <= usize::MAX);
        refs::lemma_entries_bounds(list, p.sem_ctx.arrays@, g);
        refs::lemma_more(c, list, p.sem_ctx.arrays@, g);
    }
}

proof fn lemma_forked_wf(before: Kernel, after: Kernel, src: TaskRef, h: TaskRef, c: Task)
    requires
        before.wf(),
        src < before.tasks.store@.len(),
        h == before.tasks.store@.len(),
        after == (Kernel {
            tasks: after.tasks,
            sem_store: after.sem_store,
            shm_store: after.shm_store,
            ..before
        }),
        after.tasks.store@.len() == h + 1,
        table::is_fork_child(before.tasks.store@[src as int], c, before.tasks.seq, src),
        after.tasks.store@[h as int] == (Task {
            vm_token: before.tasks.store@[src as int].vm_token,
            ..c
        }),
        after.tasks.map@ == before.tasks.map@.insert(before.tasks.seq, h),
        after.tasks.root == before.tasks.root,
        ({
            let p = before.tasks.store@[src as int];
            let q = after.tasks.store@[src as int];
            &&& q == (Task { subtasks: q.subtasks, ..p })
            &&& q.subtasks@ == p.subtasks@.push(h)
        }),
        forall|j: int|
            0 <= j < h && j != src ==> #[trigger] after.tasks.store@[j] == before.tasks.store@[j],
        table::contexts_copied(
            before.tasks.store@[src as int],
            before.sem_store,
            after.sem_store,
            before.shm_store,
            after.shm_store,
        ),
        table::counts_left(
            before.tasks.store@[src as int],
            before.sem_store,
            before.shm_store,
        ),
    ensures
        after.wf(),
{
    lemma_copied_refs(before, after, src);
    let grown = Kernel { sem_store: after.sem_store, shm_store: after.shm_store, ..before };
    lemma_stores_grow(before, grown);
    let n = after.tasks.store@.len();
    let p = before.tasks.store@[src as int];
    assert(task_ok(p, grown.pipes@, grown.sem_store, grown.shm_store));
    assert forall|i: int| 0 <= i < n implies table::links_ok(#[trigger] after.tasks.store@[i], n)
        && task_ok(after.tasks.store@[i], after.pipes@, after.sem_store, after.shm_store) by {
        if i < h {
            let a = grown.tasks.store@[i];
            assert(table::links_ok(a, h as nat));
            assert(task_ok(a, grown.pipes@, grown.sem_store, grown.shm_store));
        } else {
            assert forall|fd: u64| #[trigger] c.files@.contains_key(fd) implies (
            file::pipe_of(c.files@[fd]) matches Some(x) ==> x.wf(after.pipes@)) by {
                assert(c.files@.dom().contains(fd));
                assert(p.files@.contains_key(fd));
            }
        }
    }
}

/// Something in the kernel refers to the task at `t`: the table, a processor, or
/// another task.
pub open spec fn referenced(k: Kernel, t: TaskRef) -> bool {
    ||| exists|id: u64| #[trigger] k.tasks.map@.contains_key(id) && k.tasks.map@[id] == t
    ||| k.tasks.root == Some(t)
    ||| exists|c: int| 0 <= c < k.cpus@.len() && #[trigger] k.cpus@[c] == Some(t)
    ||| exists|i: int| 0 <= i < k.tasks.store@.len() && refers_to(#[trigger] k.tasks.store@[i], t)
}

/// The task at `t` is the parent or a child of `x`.
pub open spec fn refers_to(x: Task, t: TaskRef) -> bool {
    x.parent == Some(t) || x.subtasks@.contains(t)
}

/// The kernel after the task at `t` has gone: its files are closed, and it has given
/// up its arrays, its segments and its relatives.
pub open spec fn gone(before: Kernel, after: Kernel, t: TaskRef) -> bool {
    let p = before.tasks.store@[t as int];
    let q = after.tasks.store@[t as int];
    let arrays = p.sem_ctx.arrays@;
    let segments = shared_mem::segments_of(p.shm_ctx.ids@);
    &&& after == (Kernel {
        tasks: after.tasks,
        pipes: after.pipes,
        sem_store: after.sem_store,
        shm_store: after.shm_store,
        ..before
    })
    &&& table::only_task(before.tasks, after.tasks, t)
    &&& q == (Task {
        files: q.files,
        sem_ctx: q.sem_ctx,
        shm_ctx: q.shm_ctx,
        parent: None,
        subtasks: q.subtasks,
        ..p
    })
    &&& q.files@ == Map::<u64, FLike>::empty()
    &&& q.sem_ctx.arrays@ == Map::<u64, usize>::empty()
    &&& q.shm_ctx.ids@ == Map::<u64, ShmTag>::empty()
    &&& q.subtasks@ == Seq::<usize>::empty()
    &&& task::pipes_closed(
        before.pipes@,
        after.pipes@,
        |i: int| task::hits(keys::listing(p.files@), p.files@, i),
    )
    &&& after.sem_store.arrays@ == before.sem_store.arrays@
    &&& after.sem_store.by_key@ == before.sem_store.by_key@
    &&& after.sem_store.strong@ == refs::held_once_less(
        before.sem_store.strong@,
        keys::listing(arrays),
        arrays,
    )
    &&& after.shm_store.by_key@ == before.shm_store.by_key@
    &&& shared_mem::same_pages(before.shm_store.segments@, after.shm_store.segments@)
    &&& shared_mem::counts(after.shm_store.segments@) == refs::held_once_less(
        shared_mem::counts(before.shm_store.segments@),
        keys::listing(segments),
        segments,
    )
}

/// What is counted for a task is held.
proof fn lemma_counted_is_held(tasks: Seq<Task>, shms: ShmStore, i: int)
    requires
        refs::covered(shm_tables(tasks), shared_mem::counts(shms.segments@)),
        0 <= i < tasks.len(),
    ensures
        shared_mem::ids_held(tasks[i].shm_ctx.ids@, shms.segments@),
{
    let ids = tasks[i].shm_ctx.ids@;
    let m = shared_mem::segments_of(ids);
    let c = shared_mem::counts(shms.segments@);
    assert(m.dom() =~= ids.dom());
    keys::lemma_listing_exists(m);
    let list = keys::listing(m);
    assert(shm_tables(tasks)[i] == m);
    refs::lemma_table_below(shm_tables(tasks), c, i);
    assert forall|id: u64| #[trigger] ids.contains_key(id) implies ids[id].pages
        < shms.segments@.len() && shms.segments@[ids[id].pages as int].strong > 0 by {
        let g = ids[id].pages as int;
        assert(m.contains_key(id));
        assert(list.contains(id));
        let k = choose|k: int| 0 <= k < list.len() && list[k] == id;
        refs::lemma_entries_bounds(list, m, g);
        assert(m[list[k]] == g);
        assert(refs::entries(list, m, g) <= refs::counted(c, g));
        assert(c[g] == shms.segments@[g].strong);
    }
}

fn lists(v: &Vec<TaskRef>, t: TaskRef) -> (r: bool)
    ensures
        r == v@.contains(t),
{
    let mut i: usize = 0;
    while i < v.len()
        invariant
            i <= v@.len(),
            forall|k: int| 0 <= k < i ==> v@[k] != t,
        decreases v@.len() - i,
    {
        if v[i] == t {
            return true;
        }
        i = i + 1;
    }
    false
}

impl Kernel {
    /// Whether the table, a processor or another task refers to the task.
    pub fn is_referenced(&self, t: TaskRef) -> (r: bool)
        ensures
            r == referenced(*self, t),
    {
        if let Some(root) = self.tasks.root {
            if root == t {
                return true;
            }
        }
        let ids = sorted_keys(&self.tasks.map);
        let mut i: usize = 0;
        while i < ids.len()
            invariant
                i <= ids@.len(),
                keys::lists_keys(ids@, self.tasks.map@),
                forall|k: int| 0 <= k < i ==> self.tasks.map@[#[trigger] ids@[k]] != t,
            decreases ids@.len() - i,
        {
            let id: u64 = ids[i];
            assert(ids@.contains(id));
            if *self.tasks.map.get(&id).unwrap() == t {
                assert(self.tasks.map@.contains_key(id));
                return true;
            }
            i = i + 1;
        }
        proof {
            assert forall|id: u64| #[trigger] self.tasks.map@.contains_key(id) implies self.tasks.map@[id]
                != t by {
                assert(ids@.contains(id));
                let k = choose|k: int| 0 <= k < ids@.len() && ids@[k] == id;
                assert(self.tasks.map@[ids@[k]] != t);
            }
        }
        let mut c: usize = 0;
        while c < self.cpus.len()
            invariant
                c <= self.cpus@.len(),
                forall|k: int| 0 <= k < c ==> #[trigger] self.cpus@[k] != Some(t),
            decreases self.cpus@.len() - c,
        {
            if let Some(x) = self.cpus[c] {
                if x == t {
                    assert(self.cpus@[c as int] == Some(t));
                    return true;
                }
            }
            c = c + 1;
        }
        let mut j: usize = 0;
        while j < self.tasks.store.len()
            invariant
                j <= self.tasks.store@.len(),
                forall|k: int| 0 <= k < j ==> !refers_to(#[trigger] self.tasks.store@[k], t),
            decreases self.tasks.store@.len() - j,
        {
            let x = &self.tasks.store[j];
            let is_parent: bool = match x.parent {
                Some(p) => p == t,
                None => false,
            };
            if is_parent || lists(&x.subtasks, t) {
                assert(refers_to(self.tasks.store@[j as int], t));
                return true;
            }
            j = j + 1;
        }
        false
    }

    /// The caller gives up its handle of a task. If nothing in the kernel refers to
    /// the task, it goes, with everything that it holds; its relatives lose a
    /// reference and can go in turn. Says whether the task went.
    pub fn drop_task(&mut self, t: TaskRef) -> (r: bool)
        requires
            old(self).wf(),
            t < old(self).tasks.store@.len(),
            !referenced(*old(self), t) ==> task::ends_left(
                old(self).pipes@,
                old(self).tasks.store@[t as int].files@.len(),
            ),
        ensures
            final(self).wf(),
            r == !referenced(*old(self), t),
            r ==> gone(*old(self), *final(self), t),
            !r ==> *final(self) == *old(self),
    {
        if self.is_referenced(t) {
            return false;
        }
        let ghost before = *self;
        let ghost tasks = self.tasks.store@;
        let ghost p = tasks[t as int];
        let ghost a = sem_tables(tasks);
        let ghost b = shm_tables(tasks);
        let ghost c = self.sem_store.strong@;
        let ghost d = shared_mem::counts(self.shm_store.segments@);
        let ghost none = Map::<u64, usize>::empty();
        proof {
            assert(task_ok(p, self.pipes@, self.sem_store, self.shm_store));
            assert(a[t as int] == p.sem_ctx.arrays@);
            assert(b[t as int] == shared_mem::segments_of(p.shm_ctx.ids@));
            refs::lemma_table_below(a, c, t as int);
            refs::lemma_table_below(b, d, t as int);
            refs::lemma_emptied_covered(a, c, t as int);
            refs::lemma_emptied_covered(b, d, t as int);
            assert forall|g: int| 0 <= g < d.len() implies #[trigger] refs::entries(
                keys::listing(b[t as int]),
                b[t as int],
                g,
            ) <= self.shm_store.segments@[g].strong by {
                assert(refs::entries(keys::listing(b[t as int]), b[t as int], g) <= refs::counted(
                    d,
                    g,
                ));
            }
        }
        self.tasks.store[t].close_files(&mut self.pipes);
        self.tasks.store[t].sem_ctx.clear(&mut self.sem_store);
        self.tasks.store[t].shm_ctx.clear(&mut self.shm_store);
        self.tasks.store[t].parent = None;
        self.tasks.store[t].subtasks = Vec::new();
        proof {
            let n = tasks.len();
            let q = self.tasks.store@[t as int];
            assert(q.subtasks@ =~= Seq::<usize>::empty());
            assert(shared_mem::segments_of(q.shm_ctx.ids@) =~= none);
            assert(sem_tables(self.tasks.store@) =~= a.update(t as int, none));
            assert(shm_tables(self.tasks.store@) =~= b.update(t as int, none));
            assert forall|i: int| 0 <= i < n implies table::links_ok(
                #[trigger] self.tasks.store@[i],
                n,
            ) && task_ok(self.tasks.store@[i], self.pipes@, self.sem_store, self.shm_store) by {
                let x = tasks[i];
                let y = self.tasks.store@[i];
                assert(table::links_ok(x, n));
                assert(task_ok(x, before.pipes@, before.sem_store, before.shm_store));
                lemma_counted_is_held(self.tasks.store@, self.shm_store, i);
                if i != t {
                    assert(y == x);
                    assert forall|fd: u64| #[trigger] y.files@.contains_key(fd) implies (
                    file::pipe_of(y.files@[fd]) matches Some(m) ==> m.wf(self.pipes@)) by {
                        assert(x.files@.contains_key(fd));
                    }
                }
            }
        }
        true
    }
}

impl Kernel {
    /// Gives up a reference to a semaphore array that the caller holds.
    pub fn release_sem(&mut self, g: usize)
        requires
            old(self).wf(),
            refs::total(sem_tables(old(self).tasks.store@), g as int) < refs::counted(
                old(self).sem_store.strong@,
                g as int,
            ),
        ensures
            final(self).wf(),
            *final(self) == (Kernel { sem_store: final(self).sem_store, ..*old(self) }),
            final(self).sem_store.arrays@ == old(self).sem_store.arrays@,
            final(self).sem_store.by_key@ == old(self).sem_store.by_key@,
            final(self).sem_store.strong@ == old(self).sem_store.strong@.update(
                g as int,
                (old(self).sem_store.strong@[g as int] - 1) as usize,
            ),
    {
        let ghost before = self.sem_store;
        self.sem_store.release(g);
        proof {
            let tables = sem_tables(self.tasks.store@);
            let c = before.strong@;
            let d = self.sem_store.strong@;
            assert forall|x: int| #[trigger] refs::total(tables, x) <= refs::counted(d, x) by {
                assert(refs::total(tables, x) <= refs::counted(c, x));
            }
            assert forall|i: int| 0 <= i < self.tasks.store@.len() implies task_ok(
                #[trigger] self.tasks.store@[i],
                self.pipes@,
                self.sem_store,
                self.shm_store,
            ) by {
                assert(task_ok(old(self).tasks.store@[i], self.pipes@, before, self.shm_store));
            }
        }
    }

    /// Gives up a reference to a shared-memory segment that the caller holds.
    pub fn release_shm(&mut self, g: usize)
        requires
            old(self).wf(),
            refs::total(shm_tables(old(self).tasks.store@), g as int) < refs::counted(
                shared_mem::counts(old(self).shm_store.segments@),
                g as int,
            ),
        ensures
            final(self).wf(),
            *final(self) == (Kernel { shm_store: final(self).shm_store, ..*old(self) }),
            final(self).shm_store.by_key@ == old(self).shm_store.by_key@,
            shared_mem::same_pages(old(self).shm_store.segments@, final(self).shm_store.segments@),
            shared_mem::counts(final(self).shm_store.segments@) == shared_mem::counts(
                old(self).shm_store.segments@,
            ).update(g as int, (old(self).shm_store.segments@[g as int].strong - 1) as usize),
    {
        let ghost before = self.shm_store;
        let ghost c = shared_mem::counts(before.segments@);
        assert(c[g as int] == before.segments@[g as int].strong);
        self.shm_store.release(g);
        proof {
            let tables = shm_tables(self.tasks.store@);
            let d = shared_mem::counts(self.shm_store.segments@);
            assert forall|x: int| #[trigger] refs::total(tables, x) <= refs::counted(d, x) by {
                assert(refs::total(tables, x) <= refs::counted(c, x));
            }
            assert forall|i: int| 0 <= i < self.tasks.store@.len() implies task_ok(
                #[trigger] self.tasks.store@[i],
                self.pipes@,
                self.sem_store,
                self.shm_store,
            ) by {
                assert(task_ok(old(self).tasks.store@[i], self.pipes@, self.sem_store, before));
                lemma_counted_is_held(self.tasks.store@, self.shm_store, i);
            }
        }
    }
}

/// A task that has gone holds nothing, and nothing refers to it: its arrays and
/// segments are counted as if it had never had them.
pub proof fn lemma_gone_task_holds_nothing(before: Kernel, after: Kernel, t: TaskRef, g: int)
    requires
        before.wf(),
        t < before.tasks.store@.len(),
        !referenced(before, t),
        gone(before, after, t),
    ensures
        !referenced(after, t),
        0 <= g < before.sem_store.strong@.len() ==> ({
            let arrays = before.tasks.store@[t as int].sem_ctx.arrays@;
            after.sem_store.strong@[g] == before.sem_store.strong@[g] - refs::entries(
                keys::listing(arrays),
                arrays,
                g,
            )
        }),
        0 <= g < before.shm_store.segments@.len() ==> ({
            let segments = shared_mem::segments_of(before.tasks.store@[t as int].shm_ctx.ids@);
            after.shm_store.segments@[g].strong == before.shm_store.segments@[g].strong
                - refs::entries(keys::listing(segments), segments, g)
        }),
{
    let tasks = before.tasks.store@;
    let a = sem_tables(tasks);
    let b = shm_tables(tasks);
    let c = before.sem_store.strong@;
    let d = shared_mem::counts(before.shm_store.segments@);
    assert(a[t as int] == tasks[t as int].sem_ctx.arrays@);
    assert(b[t as int] == shared_mem::segments_of(tasks[t as int].shm_ctx.ids@));
    refs::lemma_table_below(a, c, t as int);
    refs::lemma_table_below(b, d, t as int);
    if 0 <= g < c.len() {
        assert(refs::entries(keys::listing(a[t as int]), a[t as int], g) <= refs::counted(c, g));
        refs::lemma_less(c, keys::listing(a[t as int]), a[t as int], g);
    }
    if 0 <= g < d.len() {
        assert(refs::entries(keys::listing(b[t as int]), b[t as int], g) <= refs::counted(d, g));
        refs::lemma_less(d, keys::listing(b[t as int]), b[t as int], g);
        assert(shared_mem::counts(after.shm_store.segments@)[g]
            == after.shm_store.segments@[g].strong);
    }
    assert forall|i: int| 0 <= i < after.tasks.store@.len() implies !refers_to(
        #[trigger] after.tasks.store@[i],
        t,
    ) by {
        assert(!refers_to(tasks[i], t));
        if i != t {
            assert(after.tasks.store@[i] == tasks[i]);
        }
    }
}

/// Bytes come out of the terminal in the order in which they were typed.
pub proof fn lemma_tty_keeps_order(a: Seq<u8>, c: u8)
    ensures
        a.len() > 0 ==> a.push(c)[0] == a[0] && a.push(c).skip(1) == a.skip(1).push(c),
        a.len() == 0 ==> a.push(c)[0] == c && a.push(c).skip(1) == a,
{
    if a.len() > 0 {
        assert(a.push(c).skip(1) =~= a.skip(1).push(c));
    } else {
        assert(a.push(c).skip(1) =~= a);
    }
}

/// A child that is collected stays among its parent's children, so that it keeps its
/// arrays and segments, unless its id is the one under which the parent is known.
pub proof fn lemma_collected_child_stays(a: TaskTable, b: TaskTable, p: TaskRef, pid: i64, i: int)
    requires
        p < a.store@.len(),
        table::links_ok(a.store@[p as int], a.store@.len()),
        is_collected(a.store@, p as int, pid, i),
        ({
            let id = a.store@[a.store@[p as int].subtasks@[i] as int].info.id;
            &&& a.map@.contains_key(id) ==> a.map@[id] != p
            &&& table::removed(a, b, id)
        }),
    ensures
        refers_to(b.store@[p as int], a.store@[p as int].subtasks@[i]),
{
    let kids = a.store@[p as int].subtasks@;
    let c = kids[i];
    let id = a.store@[c as int].info.id;
    if a.map@.contains_key(id) {
        let t = a.map@[id];
        let moved = a.store@[t as int].subtasks@;
        assert(b.store@[p as int].subtasks@ == table::new_kids(a.store@[p as int], moved, t, a.root, p as int));
        if a.root == Some(p) {
            assert(b.store@[p as int].subtasks@ == kids + moved);
        }
    }
    assert(b.store@[p as int].subtasks@[i] == c);
}

/// A child that has exited can be collected, with the code it exited with.
pub proof fn lemma_exited_child_is_collectable(
    before: Seq<Task>,
    after: Seq<Task>,
    p: int,
    i: int,
    t: TaskRef,
    code: u64,
)
    requires
        0 <= p < before.len(),
        0 <= i < before[p].subtasks@.len(),
        before[p].subtasks@[i] == t,
        t < before.len(),
        task::exited(before, after, t, code),
    ensures
        collectable(after, p, -1i64, i),
        after[after[p].subtasks@[i] as int].exit_code == code,
{
    if p != t && !task::child_of(before[t as int], p) {
        assert(after[p] == before[p]);
    }
}

/// A wait that changes the tasks has found a child of the caller that is done, and
/// answers its id and its exit code: one of the caller's own group, for a wait for 0;
/// the one of the given id, for a wait for a positive number; one of the given group,
/// for a wait for a negative one.
pub proof fn lemma_wait_finds_fitting_child(
    before: Kernel,
    after: Kernel,
    parent_id: u64,
    pid: i64,
    options: u64,
    r: Result<(u64, u64), &'static str>,
) -> (i: int)
    requires
        waited(before, after, parent_id, pid, options, r),
        before.tasks.map@.contains_key(parent_id),
        after.tasks != before.tasks || (r is Ok && r != Ok::<(u64, u64), &'static str>((0, 0))),
    ensures
        ({
            let store = before.tasks.store@;
            let p = store[before.tasks.map@[parent_id] as int];
            let c = store[p.subtasks@[i] as int];
            &&& 0 <= i < p.subtasks@.len()
            &&& r == Ok::<(u64, u64), &'static str>((c.info.id, c.exit_code))
            &&& c.info.status is Some
            &&& pid == 0 ==> c.pgid == p.pgid
            &&& pid > 0 ==> c.info.id == pid
            &&& -i32::MAX <= pid < -1 ==> c.pgid == -pid
            &&& !after.tasks.map@.contains_key(c.info.id)
        }),
        forall|id: u64| #[trigger]
            after.tasks.map@.contains_key(id) ==> before.tasks.map@.contains_key(id)
                && after.tasks.map@[id] == before.tasks.map@[id],
{
    let a = before.tasks;
    let p = a.map@[parent_id] as int;
    let kids = a.store@[p].subtasks@;
    let i = choose|i: int|
        {
            &&& #[trigger] is_collected(a.store@, p, pid, i)
            &&& r == Ok::<(u64, u64), &'static str>(
                (a.store@[kids[i] as int].info.id, a.store@[kids[i] as int].exit_code),
            )
        };
    assert(collectable(a.store@, p, pid, i));
    i
}

/// A child that is done is collected by a wait for any child, by one for its id and,
/// if it is in the caller's group, by one for 0: such a wait does not come back empty.
pub proof fn lemma_done_child_ends_wait(
    before: Kernel,
    after: Kernel,
    parent_id: u64,
    pid: i64,
    options: u64,
    r: Result<(u64, u64), &'static str>,
    k: int,
)
    requires
        waited(before, after, parent_id, pid, options, r),
        before.tasks.map@.contains_key(parent_id),
        ({
            let store = before.tasks.store@;
            let p = store[before.tasks.map@[parent_id] as int];
            let c = store[p.subtasks@[k] as int];
            &&& 0 <= k < p.subtasks@.len()
            &&& c.info.status is Some
            &&& {
                ||| pid == -1
                ||| pid == 0 && c.pgid == p.pgid
                ||| pid > 0 && c.info.id == pid
                ||| -i32::MAX <= pid < -1 && c.pgid == -pid
            }
        }),
    ensures
        ({
            let store = before.tasks.store@;
            let kids = store[before.tasks.map@[parent_id] as int].subtasks@;
            exists|i: int|
                {
                    &&& 0 <= i <= k
                    &&& r == Ok::<(u64, u64), &'static str>(
                        (
                            store[#[trigger] kids[i] as int].info.id,
                            store[kids[i] as int].exit_code,
                        ),
                    )
                    &&& store[kids[i] as int].info.status is Some
                }
        }),
{
    let a = before.tasks;
    let p = a.map@[parent_id] as int;
    let kids = a.store@[p].subtasks@;
    let first = lemma_first_collectable(a.store@, p, pid, k);
    assert(is_collected(a.store@, p, pid, first));
    let i = choose|i: int|
        {
            &&& #[trigger] is_collected(a.store@, p, pid, i)
            &&& r == Ok::<(u64, u64), &'static str>(
                (a.store@[kids[i] as int].info.id, a.store@[kids[i] as int].exit_code),
            )
        };
    assert(collectable(a.store@, p, pid, i));
    assert(collectable(a.store@, p, pid, first));
    if i > first {
        assert(!collectable(a.store@, p, pid, first));
    }
    assert(kids[i] == kids[i]);
}

proof fn lemma_first_collectable(store: Seq<Task>, p: int, pid: i64, k: int) -> (i: int)
    requires
        0 <= k < store[p].subtasks@.len(),
        collectable(store, p, pid, k),
    ensures
        0 <= i <= k,
        is_collected(store, p, pid, i),
    decreases k,
{
    if exists|j: int| 0 <= j < k && #[trigger] collectable(store, p, pid, j) {
        let j = choose|j: int| 0 <= j < k && #[trigger] collectable(store, p, pid, j);
        lemma_first_collectable(store, p, pid, j)
    } else {
        k
    }
}

/// If no child that is waited for is done, nothing changes: the answer is `(0, 0)` for
/// a caller that has children and does not want to wait, else an error.
pub proof fn lemma_wait_finds_nobody(
    before: Kernel,
    after: Kernel,
    parent_id: u64,
    pid: i64,
    options: u64,
    r: Result<(u64, u64), &'static str>,
)
    requires
        waited(before, after, parent_id, pid, options, r),
        before.tasks.map@.contains_key(parent_id),
        ({
            let store = before.tasks.store@;
            let p = store[before.tasks.map@[parent_id] as int];
            forall|k: int|
                0 <= k < p.subtasks@.len() ==> {
                    let c = store[#[trigger] p.subtasks@[k] as int];
                    ||| c.info.status is None
                    ||| pid == 0 && c.pgid != p.pgid
                    ||| pid > 0 && c.info.id != pid
                    ||| -i32::MAX <= pid < -1 && c.pgid != -pid
                }
        }),
    ensures
        after == before,
        options % 2 == 1 && before.tasks.store@[before.tasks.map@[parent_id] as int].subtasks@.len()
            > 0 ==> r == Ok::<(u64, u64), &'static str>((0, 0)),
        options % 2 == 0 || before.tasks.store@[before.tasks.map@[parent_id] as int].subtasks@.len()
            == 0 ==> r is Err,
{
    let store = before.tasks.store@;
    let p = before.tasks.map@[parent_id] as int;
    assert forall|i: int| !#[trigger] is_collected(store, p, pid, i) by {
        if is_collected(store, p, pid, i) {
            assert(collectable(store, p, pid, i));
            assert(store[p].subtasks@[i] == store[p].subtasks@[i]);
        }
    }
    words::lemma_bitwise(options, 0, 0, 0);
}

/// A fork adds one task, with the next id: a child of the caller, in its group, with
/// its descriptors, its end of the heap and its mask, not done and without children or
/// pending signals. Nothing else changes but that the caller knows the child.
pub proof fn lemma_fork_makes_child(before: Kernel, after: Kernel, src: TaskRef, j: int)
    requires
        before.wf(),
        src < before.tasks.store@.len(),
        forked(before, after, src),
        0 <= j < before.tasks.store@.len(),
    ensures
        ({
            let h = before.tasks.store@.len() as int;
            let p = before.tasks.store@[src as int];
            let c = after.tasks.store@[h];
            &&& after.tasks.store@.len() == h + 1
            &&& after.tasks.map@.contains_key(before.tasks.seq)
            &&& after.tasks.map@[before.tasks.seq] == h
            &&& c.info.id == before.tasks.seq
            &&& c.parent == Some(src)
            &&& c.pgid == p.pgid
            &&& c.vm_token == p.vm_token
            &&& c.sig_mask == p.sig_mask
            &&& c.info.status is None
            &&& c.subtasks@.len() == 0
            &&& c.sig_queue@.len() == 0
            &&& c.files@.dom() == p.files@.dom()
            &&& c.cwd@ == p.cwd@ && c.exec_path@ == p.exec_path@
            &&& c.sem_ctx.arrays@ == p.sem_ctx.arrays@ && c.shm_ctx.ids@ == p.shm_ctx.ids@
            &&& after.tasks.store@[src as int].subtasks@.last() == h
            &&& after.tasks.store@[src as int].subtasks@.len() == p.subtasks@.len() + 1
            &&& after.tasks.store@[src as int].files@ == p.files@
            &&& j != src ==> after.tasks.store@[j] == before.tasks.store@[j]
        }),
        after.pool@ == before.pool@,
        after.pipes@ == before.pipes@,
{
    assert(after.tasks.map@.contains_key(before.tasks.seq));
}

/// Starting a program closes the files that are marked so and keeps every other
/// descriptor as it is; the task goes on at the entry point, with its stack where it
/// was put and every other register zero. Who the task is does not change.
pub proof fn lemma_exec_keeps_identity(p: Task, q: Task, path: Seq<char>, sp: u64, fd: u64, slot: int)
    requires
        started(p, q, path, sp),
        0 <= slot < N_REGS,
    ensures
        q.exec_path@ == path,
        q.info == p.info && q.pid == p.pid && q.pgid == p.pgid && q.parent == p.parent,
        q.subtasks == p.subtasks && q.sig_mask == p.sig_mask && q.sig_queue == p.sig_queue,
        q.files@.contains_key(fd) <==> p.files@.contains_key(fd) && match p.files@[fd] {
            FLike::File(h) => !h.cloexec,
            _ => true,
        },
        q.files@.contains_key(fd) ==> q.files@[fd] == p.files@[fd],
        q.thread_context matches Some(c) && {
            &&& c.user_trap_frame@.ip == BRK_BASE
            &&& c.user_trap_frame@.flags == 0
            &&& c.signal_mask == 0
            &&& c.clear_child_tid == 0
            &&& c.user_trap_frame@.regs.len() == N_REGS
            &&& c.user_trap_frame@.regs[slot] == if slot == frame::sp_slot() {
                sp
            } else {
                0
            }
        },
{
}

/// Of the free frames the lowest are handed out, as many as asked for or all there are;
/// each once, and none that was not free.
pub proof fn lemma_pages_handed_out(s: Seq<bool>, n: nat, a: int, b: int, j: int)
    requires
        0 <= a < frames::lowest_frames(s, n).len(),
        0 <= b < frames::lowest_frames(s, n).len(),
        0 <= j < s.len(),
    ensures
        ({
            let low = frames::lowest_frames(s, n);
            let left = frames::without(s, low);
            &&& low.len() == if n <= frames::count_free(s) {
                n
            } else {
                frames::count_free(s)
            }
            &&& 0 <= low[a] < s.len() && 0 <= low[b] < s.len()
            &&& a < b ==> low[a] < low[b]
            &&& s[low[a]] && s[low[b]] && !left[low[a]] && !left[low[b]]
            &&& left[j] ==> s[j] && low[b] < j
            &&& s[j] && !left[j] ==> low.contains(j)
        }),
{
    let fl = frames::free_list(s);
    let low = frames::lowest_frames(s, n);
    frames::lemma_free_list(s);
    assert(fl.contains(fl[a]) && fl.contains(fl[b]));
    assert(low.contains(low[a]) && low.contains(low[b]));
    let left = frames::without(s, low);
    if left[j] {
        assert(fl.contains(j));
        let k = choose|k: int| 0 <= k < fl.len() && fl[k] == j;
        if k < low.len() {
            assert(low[k] == j);
        } else {
            assert(fl[b] < fl[k]);
        }
    }
}

/// A task that did not fault is queued as a new task is; one that faulted is queued at
/// a quarter of its faults, no further back than at 19.
pub proof fn lemma_faults_set_niceness(faults: int)
    requires
        0 <= faults,
    ensures
        policy_for(faults).prio == policy_for(0).prio,
        policy_for(faults).vruntime == 0,
        policy_for(0).nice == 0,
        4 * policy_for(faults).nice <= faults,
        policy_for(faults).nice == 19 || faults < 4 * policy_for(faults).nice + 4,
        policy_for(faults).nice <= 19,
{
}

/// A processor without a task counts for nothing; one with a task has that and its
/// children to run, and stands for its group and for whether it is done.
pub proof fn lemma_processors_are_counted(k: Kernel, i: int)
    requires
        0 <= i < MAX_CPU,
        k.cpus@[i] matches Some(t) ==> k.tasks.store@[t as int].subtasks@.len() < usize::MAX,
    ensures
        k.cpus@[i] is None ==> cpu_counts(k)[i] == 0 && cpu_prios(k)[i] == 0 && !cpu_blocked(k)[i],
        k.cpus@[i] matches Some(t) ==> {
            let p = k.tasks.store@[t as int];
            &&& cpu_counts(k)[i] == p.subtasks@.len() + 1
            &&& cpu_prios(k)[i] == p.pgid
            &&& cpu_blocked(k)[i] <==> p.info.status is Some
        },
        cpu_counts(k).len() == MAX_CPU,
        cpu_prios(k).len() == MAX_CPU,
        cpu_blocked(k).len() == MAX_CPU,
{
}

/// Reaping several tasks is reaping one after the other, each from where the one before
/// left off.
pub proof fn lemma_reaping_goes_step_by_step(
    trace: Seq<Seq<Task>>,
    ids: Seq<u64>,
    map: Map<u64, usize>,
    root: Option<TaskRef>,
    i: int,
    j: int,
)
    requires
        reap_trace(trace, ids, map, root),
        0 <= i < ids.len(),
        0 <= j < trace[i].len(),
    ensures
        trace.len() == ids.len() + 1,
        trace[i + 1].len() == trace[i].len(),
        trace[i + 1][j].info == trace[i][j].info,
        trace[i + 1][j].files == trace[i][j].files,
        root != Some(map[ids[i]]) ==> (map[ids[i]] == j ==> trace[i + 1][j].subtasks@.len() == 0),
{
    let t = map[ids[i]];
    assert(table::reaped(trace[i], trace[i + 1], t, root));
    if t == j && root != Some(t) {
        assert(trace[i + 1][j].subtasks@ == table::new_kids(
            trace[i][j],
            trace[i][t as int].subtasks@,
            t,
            root,
            j,
        ));
    }
}

/// The frame of an address is the one whose page holds it.
pub proof fn lemma_frame_holds_address(pa: u64)
    requires
        pa >= MEMORY_OFFSET,
    ensures
        frames::frame_addr(frame_of(pa)) <= pa < frames::frame_addr(frame_of(pa) + 1),
        frame_of(pa) >= 0,
{
}

/// The faults since the last look are the difference of the two counts.
pub proof fn lemma_new_faults(t: Task)
    ensures
        t.fault_count >= t.last_fault_count ==> new_faults(t) + t.last_fault_count == t.fault_count,
        t.fault_count < t.last_fault_count ==> new_faults(t) == 0,
{
}

} // verus!
