//! The table of all tasks.
use crate::consts::{N_REGS, USER_STACK_OFFSET, USER_STACK_SIZE};
use crate::fs::file;
use crate::fs::file::{FHandle, FLike, FdOpt};
use crate::fs::pipe::PipeTable;
use crate::ipc::refs;
use crate::ipc::semary;
use crate::ipc::semary::SemStore;
use crate::ipc::shared_mem;
use crate::ipc::shared_mem::ShmStore;
use crate::keys;
use crate::keys::sorted_keys;
use crate::process::structs::Pid;
use crate::process::task;
use crate::process::task::{Task, TaskRef};
use crate::process::thread::{Pgid, ThreadContext, Tid};
use crate::seqs;
use crate::sync::event_bus;
use crate::sync::event_bus::EventFlag;
use crate::trap::frame;
use std::collections::BTreeMap;
use vstd::prelude::*;

verus! {

broadcast use vstd::std_specs::btree::group_btree_axioms;

/// All tasks there have been, and those that can be found by id.
pub struct TaskTable {
    pub store: Vec<Task>,
    pub map: BTreeMap<u64, TaskRef>,
    /// The next id.
    pub seq: u64,
    /// The task that inherits orphans.
    pub root: Option<TaskRef>,
}

/// The parent and the children of a task are among `n` tasks.
pub open spec fn links_ok(t: Task, n: nat) -> bool {
    &&& t.parent matches Some(p) ==> p < n
    &&& forall|k: int| 0 <= k < t.subtasks@.len() ==> #[trigger] t.subtasks@[k] < n
}

/// What a task is looked for by.
pub enum Query {
    Tag(String),
    Group(Pgid),
    Thread(Tid),
    Done,
    NotDone,
}

pub open spec fn accepts(q: Query, t: Task) -> bool {
    match q {
        Query::Tag(tag) => t.info.tag@ == tag@,
        Query::Group(pgid) => t.pgid == pgid,
        Query::Thread(tid) => t.threads@.contains(tid),
        Query::Done => task::is_done(t),
        Query::NotDone => !task::is_done(t),
    }
}

/// The ids under which tasks that answer a query can be found, in rising order.
pub open spec fn selected(map: Map<u64, usize>, store: Seq<Task>, q: Query) -> Seq<u64> {
    keys::listing(map).filter(|id: u64| accepts(q, store[map[id] as int]))
}

/// The tasks of ids.
pub open spec fn tasks_of(map: Map<u64, usize>, ids: Seq<u64>) -> Seq<usize> {
    ids.map_values(|id: u64| map[id])
}

/// The tasks after the children of the one at `t` have gone to the root, if there
/// is one.
pub open spec fn reaped(before: Seq<Task>, after: Seq<Task>, t: TaskRef, root: Option<TaskRef>) -> bool {
    let kids = before[t as int].subtasks@;
    &&& after.len() == before.len()
    &&& forall|j: int|
        0 <= j < before.len() ==> (#[trigger] after[j]) == (Task {
            parent: after[j].parent,
            subtasks: after[j].subtasks,
            ..before[j]
        }) && after[j].parent == new_parent(before[j], kids, root, j) && after[j].subtasks@
            == new_kids(before[j], kids, t, root, j)
}

pub open spec fn new_parent(t: Task, kids: Seq<usize>, root: Option<TaskRef>, j: int) -> Option<
    TaskRef,
> {
    if root is Some && has_index(kids, j) {
        root
    } else {
        t.parent
    }
}

pub open spec fn has_index(kids: Seq<usize>, j: int) -> bool {
    exists|k: int| 0 <= k < kids.len() && #[trigger] kids[k] == j
}

pub open spec fn new_kids(task: Task, kids: Seq<usize>, t: TaskRef, root: Option<TaskRef>, j: int) -> Seq<
    usize,
> {
    let own = if j == t {
        Seq::<usize>::empty()
    } else {
        task.subtasks@
    };
    if root matches Some(r) && r == j {
        own + kids
    } else {
        own
    }
}

/// The tasks after those of `kids` have become children of the one at `r`.
pub open spec fn adopted(before: Seq<Task>, after: Seq<Task>, kids: Seq<usize>, r: TaskRef) -> bool {
    &&& after.len() == before.len()
    &&& forall|j: int|
        0 <= j < before.len() ==> (#[trigger] after[j]) == (Task {
            parent: after[j].parent,
            subtasks: after[j].subtasks,
            ..before[j]
        }) && after[j].parent == new_parent(before[j], kids, Some(r), j) && after[j].subtasks@ == (
        if j == r {
            before[j].subtasks@ + kids
        } else {
            before[j].subtasks@
        })
}

/// The table after the task of an id has been removed.
pub open spec fn removed(before: TaskTable, after: TaskTable, id: u64) -> bool {
    &&& after.map@ == before.map@.remove(id)
    &&& after.seq == before.seq
    &&& after.root == before.root
    &&& if before.map@.contains_key(id) {
        reaped(before.store@, after.store@, before.map@[id], before.root)
    } else {
        after.store@ == before.store@
    }
}

/// Only the task at `t` may differ.
pub open spec fn only_task(before: TaskTable, after: TaskTable, t: TaskRef) -> bool {
    &&& after == (TaskTable { store: after.store, ..before })
    &&& after.store@.len() == before.store@.len()
    &&& forall|j: int|
        0 <= j < before.store@.len() && j != t ==> #[trigger] after.store@[j] == before.store@[j]
}

/// The tasks after each of the listed ones has been sent a signal.
pub open spec fn all_signalled(
    before: Seq<Task>,
    after: Seq<Task>,
    list: Seq<usize>,
    signo: i32,
    sender: i64,
) -> bool {
    &&& after.len() == before.len()
    &&& forall|j: int|
        0 <= j < before.len() ==> if has_index(list, j) {
            task::signalled(before[j], #[trigger] after[j], signo, sender)
        } else {
            after[j] == before[j]
        }
}

/// The files of a forked child: what the parent has, none closed on exec.
pub open spec fn files_duped(a: Map<u64, FLike>, b: Map<u64, FLike>) -> bool {
    &&& b.dom() == a.dom()
    &&& forall|fd: u64| #[trigger] a.contains_key(fd) ==> file::dup_of(a[fd], b[fd], false)
}

/// A forked child of the task `p` at `parent`.
pub open spec fn is_fork_child(p: Task, c: Task, id: u64, parent: TaskRef) -> bool {
    &&& exists|f: Task|
        {
            &&& #[trigger] task::is_fresh(f, id, p.info.tag@)
            &&& c == (Task {
                cwd: p.cwd,
                exec_path: p.exec_path,
                files: c.files,
                pgid: p.pgid,
                sem_ctx: c.sem_ctx,
                shm_ctx: c.shm_ctx,
                sig_mask: p.sig_mask,
                parent: Some(parent),
                pid: Pid(id),
                threads: c.threads,
                ..f
            })
        }
    &&& files_duped(p.files@, c.files@)
    &&& c.sem_ctx.arrays@ == p.sem_ctx.arrays@
    &&& c.shm_ctx.ids@ == p.shm_ctx.ids@
    &&& c.threads@ == seq![id]
}

/// A new thread of the task `p`.
pub open spec fn is_thread_of(
    p: Task,
    c: Task,
    id: u64,
    stack_top: u64,
    tls: u64,
    clear_child_tid: u64,
) -> bool {
    &&& exists|f: Task|
        {
            &&& #[trigger] task::is_fresh(f, id, p.info.tag@)
            &&& c == (Task {
                thread_context: c.thread_context,
                vm_token: p.vm_token,
                pgid: p.pgid,
                sem_ctx: c.sem_ctx,
                shm_ctx: c.shm_ctx,
                ..f
            })
        }
    &&& c.thread_context matches Some(x) && {
        &&& x.user_trap_frame@ == (frame::FrameView {
            regs: Seq::new(N_REGS as nat, |i: int| 0u64).update(
                frame::sp_slot(),
                stack_top,
            ).update(frame::tp_slot(), tls),
            ip: 0,
            flags: 0,
        })
        &&& x.clear_child_tid == clear_child_tid
        &&& x.signal_mask == p.sig_mask
    }
    &&& c.sem_ctx.arrays@ == p.sem_ctx.arrays@
    &&& c.shm_ctx.ids@ == p.shm_ctx.ids@
}

pub open spec fn is_tty(f: FLike, opt: FdOpt) -> bool {
    &&& f matches FLike::File(h) && {
        &&& h.path@ == "/dev/tty"@
        &&& h.opt == opt
        &&& !h.pipe
        &&& !h.cloexec
    }
}

/// The standard descriptors: the terminal for reading, and twice for writing.
pub open spec fn is_terminal(files: Map<u64, FLike>) -> bool {
    let rd = FdOpt { rd: true, wr: false, ap: false, nb: false };
    let wr = FdOpt { rd: false, wr: true, ap: false, nb: false };
    &&& files.dom() == set![0u64, 1u64, 2u64]
    &&& is_tty(files[0], rd)
    &&& is_tty(files[1], wr)
    &&& is_tty(files[2], wr)
}

/// The first task: fresh but for the standard descriptors.
pub open spec fn is_root_task(t: Task, id: u64) -> bool {
    &&& exists|f: Task|
        {
            &&& #[trigger] task::is_fresh(f, id, "init"@)
            &&& t == (Task { files: t.files, ..f })
        }
    &&& is_terminal(t.files@)
}

/// A new user task: the standard descriptors on the terminal, and a stack.
pub open spec fn is_user_task(c: Task, id: u64, path: Seq<char>, sp: u64) -> bool {
    &&& exists|f: Task|
        {
            &&& #[trigger] task::is_fresh(f, id, path)
            &&& c == (Task {
                exec_path: c.exec_path,
                thread_context: c.thread_context,
                files: c.files,
                pid: Pid(id),
                threads: c.threads,
                ..f
            })
        }
    &&& c.exec_path@ == path
    &&& c.thread_context matches Some(x) && {
        &&& x.user_trap_frame@ == (frame::FrameView {
            regs: Seq::new(N_REGS as nat, |i: int| 0u64).update(frame::sp_slot(), sp),
            ip: 0,
            flags: 0,
        })
        &&& x.clear_child_tid == 0
        &&& x.signal_mask == 0
    }
    &&& is_terminal(c.files@)
    &&& c.threads@ == seq![id]
}

/// The contexts of a task name what there is, and the references that a copy takes
/// can be counted.
pub open spec fn contexts_ok(t: Task, sems: SemStore, shms: ShmStore) -> bool {
    &&& sems.wf()
    &&& shms.wf()
    &&& semary::ids_valid(t.sem_ctx.arrays@, sems)
    &&& shared_mem::ids_held(t.shm_ctx.ids@, shms.segments@)
    &&& counts_left(t, sems, shms)
}

/// The references that copying the contexts of a task takes can be counted.
pub open spec fn counts_left(t: Task, sems: SemStore, shms: ShmStore) -> bool {
    &&& forall|g: int|
        0 <= g < sems.strong@.len() ==> #[trigger] sems.strong@[g] + t.sem_ctx.arrays@.len()
            <= usize::MAX
    &&& forall|g: int|
        0 <= g < shms.segments@.len() ==> (#[trigger] shms.segments@[g]).strong
            + t.shm_ctx.ids@.len() <= usize::MAX
}

/// The stores after the contexts of a task have been copied.
pub open spec fn contexts_copied(
    t: Task,
    sems: SemStore,
    sems2: SemStore,
    shms: ShmStore,
    shms2: ShmStore,
) -> bool {
    &&& sems2.wf()
    &&& shms2.wf()
    &&& sems2.arrays@ == sems.arrays@
    &&& sems2.by_key@ == sems.by_key@
    &&& sems2.strong@ == refs::held_once_more(
        sems.strong@,
        keys::listing(t.sem_ctx.arrays@),
        t.sem_ctx.arrays@,
    )
    &&& shms2.by_key@ == shms.by_key@
    &&& shared_mem::same_pages(shms.segments@, shms2.segments@)
    &&& shared_mem::none_lost(shms.segments@, shms2.segments@)
    &&& shared_mem::counts(shms2.segments@) == refs::held_once_more(
        shared_mem::counts(shms.segments@),
        keys::listing(shared_mem::segments_of(t.shm_ctx.ids@)),
        shared_mem::segments_of(t.shm_ctx.ids@),
    )
}

proof fn lemma_signal_twice(a: Task, b: Task, c: Task, signo: i32, sender: i64)
    requires
        task::signalled(a, b, signo, sender),
        task::signalled(b, c, signo, sender),
    ensures
        task::signalled(a, c, signo, sender),
{
    task::lemma_sent_signal_is_pending(a, b, signo, sender);
    event_bus::lemma_set_is_idempotent(
        a.event_bus,
        b.event_bus,
        c.event_bus,
        EventFlag::RECEIVE_SIGNAL,
    );
}

/// Sends a signal to each of the listed tasks.
pub fn signal_each(store: &mut Vec<Task>, list: &Vec<TaskRef>, signo: i32, sender: i64)
    requires
        forall|k: int| 0 <= k < list@.len() ==> #[trigger] list@[k] < old(store)@.len(),
    ensures
        all_signalled(old(store)@, final(store)@, list@, signo, sender),
{
    let ghost before = store@;
    let mut i: usize = 0;
    while i < list.len()
        invariant
            i <= list@.len(),
            forall|k: int| 0 <= k < list@.len() ==> #[trigger] list@[k] < before.len(),
            store@.len() == before.len(),
            all_signalled(before, store@, list@.take(i as int), signo, sender),
        decreases list@.len() - i,
    {
        let t: usize = list[i];
        let ghost mid = store@;
        let ghost here = list@.take(i as int);
        let ghost next = list@.take(i + 1);
        store[t].send_sig(signo, sender);
        proof {
            assert forall|j: int| 0 <= j < before.len() implies if has_index(next, j) {
                task::signalled(before[j], #[trigger] store@[j], signo, sender)
            } else {
                store@[j] == before[j]
            } by {
                assert(next =~= here.push(t));
                if has_index(here, j) {
                    let k = choose|k: int| 0 <= k < here.len() && #[trigger] here[k] == j;
                    assert(next[k] == j);
                    assert(task::signalled(before[j], mid[j], signo, sender));
                    if j == t {
                        lemma_signal_twice(before[j], mid[j], store@[j], signo, sender);
                    }
                } else {
                    assert(mid[j] == before[j]);
                    if j == t {
                        assert(next[i as int] == j);
                    } else if has_index(next, j) {
                        let k = choose|k: int| 0 <= k < next.len() && #[trigger] next[k] == j;
                        assert(here[k] == j);
                    }
                }
            }
        }
        i = i + 1;
    }
    assert(list@.take(i as int) =~= list@);
}

/// Makes the listed tasks children of the one at `r`.
pub fn adopt(store: &mut Vec<Task>, kids: &Vec<TaskRef>, r: TaskRef)
    requires
        r < old(store)@.len(),
        forall|k: int| 0 <= k < kids@.len() ==> #[trigger] kids@[k] < old(store)@.len(),
    ensures
        adopted(old(store)@, final(store)@, kids@, r),
{
    let ghost before = store@;
    let ghost n = before.len();
    let mut i: usize = 0;
    assert(kids@.take(0) =~= Seq::<usize>::empty());
    while i < kids.len()
        invariant
            i <= kids@.len(),
            r < n,
            n == before.len(),
            forall|k: int| 0 <= k < kids@.len() ==> #[trigger] kids@[k] < n,
            adopted(before, store@, kids@.take(i as int), r),
        decreases kids@.len() - i,
    {
        let c: usize = kids[i];
        let ghost mid = store@;
        let ghost here = kids@.take(i as int);
        let ghost next = kids@.take(i + 1);
        store[c].link_parent(r);
        store[r].link_child(c);
        proof {
            assert(next =~= here.push(c));
            assert forall|j: int| has_index(next, j) <==> has_index(here, j) || j == c by {
                if has_index(here, j) {
                    let k = choose|k: int| 0 <= k < here.len() && #[trigger] here[k] == j;
                    assert(next[k] == j);
                }
                assert(next[i as int] == c);
                if has_index(next, j) && j != c {
                    let k = choose|k: int| 0 <= k < next.len() && #[trigger] next[k] == j;
                    assert(here[k] == j);
                }
            }
            assert forall|j: int| 0 <= j < n implies (#[trigger] store@[j]) == (Task {
                parent: store@[j].parent,
                subtasks: store@[j].subtasks,
                ..before[j]
            }) && store@[j].parent == new_parent(before[j], next, Some(r), j)
                && store@[j].subtasks@ == (if j == r {
                before[j].subtasks@ + next
            } else {
                before[j].subtasks@
            }) by {
                assert(mid[j].parent == new_parent(before[j], here, Some(r), j));
                if j == r {
                    assert(store@[j].subtasks@ =~= before[j].subtasks@ + next);
                }
            }
        }
        i = i + 1;
    }
    assert(kids@.take(i as int) =~= kids@);
}

fn runs_thread(t: &Task, tid: Tid) -> (r: bool)
    ensures
        r == t.threads@.contains(tid),
{
    let mut i: usize = 0;
    while i < t.threads.len()
        invariant
            i <= t.threads@.len(),
            forall|k: int| 0 <= k < i ==> t.threads@[k] != tid,
        decreases t.threads@.len() - i,
    {
        if t.threads[i] == tid {
            return true;
        }
        i = i + 1;
    }
    false
}

impl Query {
    fn holds(&self, t: &Task) -> (r: bool)
        ensures
            r == accepts(*self, *t),
    {
        match self {
            Query::Tag(tag) => t.info.tag == *tag,
            Query::Group(pgid) => t.pgid == *pgid,
            Query::Thread(tid) => runs_thread(t, *tid),
            Query::Done => t.done(),
            Query::NotDone => !t.done(),
        }
    }
}

impl TaskTable {
    /// Every handle names a task.
    pub open spec fn wf(&self) -> bool {
        &&& forall|id: u64| #[trigger]
            self.map@.contains_key(id) ==> self.map@[id] < self.store@.len()
        &&& self.root matches Some(r) ==> r < self.store@.len()
        &&& forall|i: int|
            0 <= i < self.store@.len() ==> links_ok(#[trigger] self.store@[i], self.store@.len())
    }

    pub fn new() -> (r: Self)
        ensures
            r.wf(),
            r.store@.len() == 0,
            r.map@ == Map::<u64, usize>::empty(),
            r.seq == 1,
            r.root is None,
    {
        Self { store: Vec::new(), map: BTreeMap::new(), seq: 1, root: None }
    }

    /// The handle of a task that was just added under the next id.
    pub open spec fn added(&self, before: &TaskTable, r: TaskRef) -> bool {
        &&& r == before.store@.len()
        &&& self.store@.len() == r + 1
        &&& self.map@ == before.map@.insert(before.seq, r)
        &&& self.seq == before.seq.wrapping_add(1)
    }

    /// Makes a task and enters it under the next id.
    pub fn spawn(&mut self, tag: &str) -> (r: TaskRef)
        requires
            old(self).wf(),
        ensures
            final(self).wf(),
            final(self).added(old(self), r),
            final(self).root == old(self).root,
            final(self).store@ == old(self).store@.push(final(self).store@[r as int]),
            task::is_fresh(final(self).store@[r as int], old(self).seq, tag@),
    {
        let id = self.seq;
        self.seq = id.wrapping_add(1);
        let r = self.store.len();
        self.store.push(Task::make(id, tag));
        self.map.insert(id, r);
        proof {
            let n = self.store@.len();
            assert forall|i: int| 0 <= i < n implies links_ok(#[trigger] self.store@[i], n) by {
                if i < r {
                    assert(self.store@[i] == old(self).store@[i]);
                    assert(links_ok(old(self).store@[i], r as nat));
                }
            }
        }
        r
    }

    /// Makes the first task, which inherits orphans and has the standard descriptors.
    pub fn spawn_root(&mut self) -> (r: TaskRef)
        requires
            old(self).wf(),
        ensures
            final(self).wf(),
            final(self).added(old(self), r),
            final(self).root == Some(r),
            final(self).store@ == old(self).store@.push(final(self).store@[r as int]),
            is_root_task(final(self).store@[r as int], old(self).seq),
    {
        let r = self.spawn("init");
        let ghost mid = self.store@;
        self.store[r].files = open_terminal();
        self.root = Some(r);
        proof {
            let n = self.store@.len();
            assert(self.store@ =~= old(self).store@.push(self.store@[r as int]));
            assert forall|i: int| 0 <= i < n implies links_ok(#[trigger] self.store@[i], n) by {
                assert(links_ok(mid[i], n));
            }
            assert(task::is_fresh(mid[r as int], old(self).seq, "init"@));
        }
        r
    }

    pub fn find(&self, id: u64) -> (r: Option<TaskRef>)
        ensures
            r == if self.map@.contains_key(id) {
                Some(self.map@[id])
            } else {
                None
            },
    {
        match self.map.get(&id) {
            Some(t) => Some(*t),
            None => None,
        }
    }

    /// The ids under which tasks that answer a query can be found.
    pub fn select(&self, q: &Query) -> (r: Vec<u64>)
        requires
            self.wf(),
        ensures
            r@ == selected(self.map@, self.store@, *q),
            keys::increasing(r@),
            forall|k: int| 0 <= k < r@.len() ==> self.map@.contains_key(#[trigger] r@[k]),
    {
        let list = sorted_keys(&self.map);
        let ghost ks = list@;
        let ghost p = |id: u64| accepts(*q, self.store@[self.map@[id] as int]);
        proof {
            keys::lemma_listing(ks, self.map@);
            reveal(Seq::filter);
            assert(ks.take(0) =~= Seq::<u64>::empty());
        }
        let mut out: Vec<u64> = Vec::new();
        let mut i: usize = 0;
        while i < list.len()
            invariant
                i <= list@.len(),
                ks == list@,
                self.wf(),
                keys::lists_keys(ks, self.map@),
                p == (|id: u64| accepts(*q, self.store@[self.map@[id] as int])),
                out@ == ks.take(i as int).filter(p),
                keys::increasing(out@),
                forall|k: int, j: int|
                    0 <= k < out@.len() && i <= j < ks.len() ==> #[trigger] out@[k] < #[trigger] ks[j],
                forall|k: int| 0 <= k < out@.len() ==> self.map@.contains_key(#[trigger] out@[k]),
            decreases list@.len() - i,
        {
            let id: u64 = list[i];
            proof {
                assert(ks.contains(id));
                seqs::lemma_filter_step(ks, i as int, p);
            }
            let t: usize = *self.map.get(&id).unwrap();
            if q.holds(&self.store[t]) {
                out.push(id);
            }
            i = i + 1;
        }
        assert(ks.take(i as int) =~= ks);
        out
    }

    /// The tasks of ids.
    pub fn handles(&self, ids: &Vec<u64>) -> (r: Vec<TaskRef>)
        requires
            self.wf(),
            forall|k: int| 0 <= k < ids@.len() ==> self.map@.contains_key(#[trigger] ids@[k]),
        ensures
            r@ == tasks_of(self.map@, ids@),
            forall|k: int| 0 <= k < r@.len() ==> #[trigger] r@[k] < self.store@.len(),
    {
        let mut out: Vec<usize> = Vec::new();
        let mut i: usize = 0;
        while i < ids.len()
            invariant
                i <= ids@.len(),
                self.wf(),
                forall|k: int| 0 <= k < ids@.len() ==> self.map@.contains_key(#[trigger] ids@[k]),
                out@ == tasks_of(self.map@, ids@.take(i as int)),
                forall|k: int| 0 <= k < out@.len() ==> #[trigger] out@[k] < self.store@.len(),
            decreases ids@.len() - i,
        {
            assert(self.map@.contains_key(ids@[i as int]));
            out.push(*self.map.get(&ids[i]).unwrap());
            i = i + 1;
            assert(out@ =~= tasks_of(self.map@, ids@.take(i as int)));
        }
        assert(ids@.take(i as int) =~= ids@);
        out
    }

    pub fn find_by_tag(&self, tag: &str) -> (r: Vec<TaskRef>)
        requires
            self.wf(),
        ensures
            exists|q: Query|
                (q matches Query::Tag(s) && s@ == tag@) && r@ == #[trigger] tasks_of(
                    self.map@,
                    selected(self.map@, self.store@, q),
                ),
    {
        let q = Query::Tag(tag.to_owned());
        let ids = self.select(&q);
        let r = self.handles(&ids);
        assert(r@ == tasks_of(self.map@, selected(self.map@, self.store@, q)));
        r
    }

    /// The first task, in order of the ids, that has a thread of this id.
    pub fn process_of_tid(&self, tid: Tid) -> (r: Option<TaskRef>)
        requires
            self.wf(),
        ensures
            ({
                let ids = selected(self.map@, self.store@, Query::Thread(tid));
                r == if ids.len() > 0 {
                    Some(self.map@[ids[0]])
                } else {
                    None
                }
            }),
    {
        let ids = self.select(&Query::Thread(tid));
        if ids.len() > 0 {
            assert(self.map@.contains_key(ids@[0]));
            self.find(ids[0])
        } else {
            None
        }
    }

    pub fn pgid_group(&self, pgid: Pgid) -> (r: Vec<TaskRef>)
        requires
            self.wf(),
        ensures
            r@ == tasks_of(
                self.map@,
                selected(self.map@, self.store@, Query::Group(pgid)),
            ),
            forall|k: int| 0 <= k < r@.len() ==> #[trigger] r@[k] < self.store@.len(),
    {
        let ids = self.select(&Query::Group(pgid));
        self.handles(&ids)
    }

    /// Gives a task its process id, and enters it under that.
    pub fn register(&mut self, t: TaskRef, pid: Pid)
        requires
            old(self).wf(),
            t < old(self).store@.len(),
        ensures
            final(self).wf(),
            final(self).store@ == old(self).store@.update(
                t as int,
                Task { pid, ..old(self).store@[t as int] },
            ),
            final(self).map@ == old(self).map@.insert(pid.0, t),
            final(self).seq == old(self).seq,
            final(self).root == old(self).root,
    {
        self.store[t].pid = pid;
        self.map.insert(pid.get(), t);
        proof {
            let n = self.store@.len();
            assert(self.store@ =~= old(self).store@.update(
                t as int,
                Task { pid, ..old(self).store@[t as int] },
            ));
            assert forall|i: int| 0 <= i < n implies links_ok(#[trigger] self.store@[i], n) by {
                assert(links_ok(old(self).store@[i], n));
            }
        }
    }

    /// Removes a task from the table; its children go to the root, if there is one.
    /// The task stays with its parent, and keeps what it holds as long as anything
    /// refers to it.
    pub fn reap(&mut self, id: u64)
        requires
            old(self).wf(),
        ensures
            final(self).wf(),
            removed(*old(self), *final(self), id),
    {
        let t: usize = match self.map.remove(&id) {
            Some(t) => t,
            None => {
                assert(self.map@ =~= old(self).map@.remove(id));
                return ;
            },
        };
        assert(self.map@ =~= old(self).map@.remove(id));
        let ghost before = self.store@;
        let ghost n = before.len();
        let ghost kids = before[t as int].subtasks@;
        assert(links_ok(before[t as int], n));
        let mut ch: Vec<usize> = Vec::new();
        std::mem::swap(&mut ch, &mut self.store[t].subtasks);
        let root = self.root;
        let ghost mid = self.store@;
        if let Some(r) = root {
            adopt(&mut self.store, &ch, r);
            assert forall|j: int| 0 <= j < n implies (#[trigger] self.store@[j]) == (Task {
                parent: self.store@[j].parent,
                subtasks: self.store@[j].subtasks,
                ..before[j]
            }) && self.store@[j].parent == new_parent(before[j], kids, root, j)
                && self.store@[j].subtasks@ == new_kids(before[j], kids, t, root, j) by {
                assert(mid[j].parent == before[j].parent);
                assert(self.store@[j].parent == new_parent(mid[j], kids, root, j));
            }
        }
        proof {
            assert(reaped(before, self.store@, t, root));
            lemma_reaped_links(before, self.store@, t, root);
        }
    }

    pub fn count(&self) -> (r: usize)
        ensures
            r == self.map@.len(),
    {
        self.map.len()
    }

    /// Makes a child of a task: it has the same files, contexts and group, and runs
    /// one thread.
    pub fn fork_task(&mut self, src: TaskRef, sems: &mut SemStore, shms: &mut ShmStore) -> (r:
        TaskRef)
        requires
            old(self).wf(),
            src < old(self).store@.len(),
            contexts_ok(old(self).store@[src as int], *old(sems), *old(shms)),
        ensures
            final(self).wf(),
            final(self).added(old(self), r),
            final(self).root == old(self).root,
            is_fork_child(
                old(self).store@[src as int],
                final(self).store@[r as int],
                old(self).seq,
                src,
            ),
            ({
                let p = old(self).store@[src as int];
                let q = final(self).store@[src as int];
                &&& q == (Task { subtasks: q.subtasks, ..p })
                &&& q.subtasks@ == p.subtasks@.push(r)
                &&& forall|j: int|
                    0 <= j < r && j != src ==> #[trigger] final(self).store@[j] == old(self).store@[j]
            }),
            contexts_copied(
                old(self).store@[src as int],
                *old(sems),
                *final(sems),
                *old(shms),
                *final(shms),
            ),
    {
        let nid = self.seq;
        self.seq = nid.wrapping_add(1);
        let ghost before = self.store@;
        let ghost p = before[src as int];
        let r = self.store.len();
        let tag = self.store[src].tag();
        let mut child = Task::make(nid, tag.as_str());
        let ghost fresh = child;
        child.cwd = self.store[src].cwd.clone();
        child.exec_path = self.store[src].exec_path.clone();
        child.files = dup_files(&self.store[src].files);
        child.pgid = self.store[src].pgid;
        child.sem_ctx = self.store[src].sem_ctx.clone_ctx(sems);
        child.shm_ctx = self.store[src].shm_ctx.clone_ctx(shms);
        child.sig_mask = self.store[src].sig_mask;
        child.parent = Some(src);
        child.pid = Pid(nid);
        child.threads.push(nid);
        assert(child.threads@ =~= seq![nid]);
        assert(task::is_fresh(fresh, nid, p.info.tag@));
        self.store[src].link_child(r);
        self.store.push(child);
        self.map.insert(nid, r);
        proof {
            let n = self.store@.len();
            assert forall|i: int| 0 <= i < n implies links_ok(#[trigger] self.store@[i], n) by {
                if i < r {
                    assert(links_ok(before[i], r as nat));
                }
            }
        }
        r
    }

    /// Makes a thread of a task, with a stack and a thread pointer of its own.
    pub fn clone_thread(
        &mut self,
        src: TaskRef,
        stack_top: u64,
        tls: u64,
        clear_child_tid: u64,
        sems: &mut SemStore,
        shms: &mut ShmStore,
    ) -> (r: TaskRef)
        requires
            old(self).wf(),
            src < old(self).store@.len(),
            contexts_ok(old(self).store@[src as int], *old(sems), *old(shms)),
        ensures
            final(self).wf(),
            final(self).added(old(self), r),
            final(self).root == old(self).root,
            is_thread_of(
                old(self).store@[src as int],
                final(self).store@[r as int],
                old(self).seq,
                stack_top,
                tls,
                clear_child_tid,
            ),
            ({
                let p = old(self).store@[src as int];
                let q = final(self).store@[src as int];
                &&& q == (Task { threads: q.threads, ..p })
                &&& q.threads@ == p.threads@.push(old(self).seq)
                &&& forall|j: int|
                    0 <= j < r && j != src ==> #[trigger] final(self).store@[j] == old(self).store@[j]
            }),
            contexts_copied(
                old(self).store@[src as int],
                *old(sems),
                *final(sems),
                *old(shms),
                *final(shms),
            ),
    {
        let id = self.seq;
        self.seq = id.wrapping_add(1);
        let ghost before = self.store@;
        let ghost p = before[src as int];
        let r = self.store.len();
        let tag = self.store[src].tag();
        let mut t = Task::make(id, tag.as_str());
        let ghost fresh = t;
        let mut context = ThreadContext::default();
        let ghost zero = Seq::new(N_REGS as nat, |i: int| 0u64);
        context.user_trap_frame.set_return_value(0);
        assert(zero.update(0, 0u64) =~= zero);
        context.user_trap_frame.set_stack_pointer(stack_top);
        context.user_trap_frame.set_thread_pointer(tls);
        context.clear_child_tid = clear_child_tid;
        context.signal_mask = self.store[src].sig_mask;
        t.thread_context = Some(context);
        t.vm_token = self.store[src].vm_token;
        t.pgid = self.store[src].pgid;
        t.sem_ctx = self.store[src].sem_ctx.clone_ctx(sems);
        t.shm_ctx = self.store[src].shm_ctx.clone_ctx(shms);
        assert(task::is_fresh(fresh, id, p.info.tag@));
        self.store[src].threads.push(id);
        self.store.push(t);
        self.map.insert(id, r);
        proof {
            let n = self.store@.len();
            assert forall|i: int| 0 <= i < n implies links_ok(#[trigger] self.store@[i], n) by {
                if i < r {
                    assert(links_ok(before[i], r as nat));
                }
            }
        }
        r
    }

    /// Makes a task for a program, with the standard descriptors on the terminal.
    /// `sp` is the stack pointer once arguments and environment are laid out below
    /// `user_stack_top`.
    pub fn new_user_task(&mut self, path: &str, sp: u64) -> (r: TaskRef)
        requires
            old(self).wf(),
        ensures
            final(self).wf(),
            final(self).added(old(self), r),
            final(self).root == old(self).root,
            final(self).store@ == old(self).store@.push(final(self).store@[r as int]),
            is_user_task(final(self).store@[r as int], old(self).seq, path@, sp),
    {
        let ghost before = self.store@;
        let r = self.spawn(path);
        let ghost fresh = self.store@[r as int];
        let id = self.store[r].id();
        self.store[r].exec_path = path.to_owned();
        let mut context = ThreadContext::default();
        context.user_trap_frame.set_stack_pointer(sp);
        self.store[r].thread_context = Some(context);
        self.store[r].files = open_terminal();
        proof {
            let n = self.store@.len();
            assert forall|i: int| 0 <= i < n implies links_ok(#[trigger] self.store@[i], n) by {
                if i < r {
                    assert(self.store@[i] == before[i]);
                    assert(links_ok(before[i], before.len()));
                }
            }
        }
        let ghost m0 = self.map@;
        self.register(r, Pid(id));
        assert(m0.insert(id, r) =~= m0);
        self.store[r].threads.push(id);
        proof {
            assert(self.store@[r as int].threads@ =~= seq![id]);
            assert(self.store@ =~= before.push(self.store@[r as int]));
            let n = self.store@.len();
            assert forall|i: int| 0 <= i < n implies links_ok(#[trigger] self.store@[i], n) by {
                if i < r {
                    assert(self.store@[i] == before[i]);
                    assert(links_ok(before[i], before.len()));
                }
            }
            assert(task::is_fresh(fresh, id, path@));
        }
        r
    }

    /// Lets a task exit and removes it; says whether it was there.
    pub fn terminate_and_collect(&mut self, id: u64, code: u64, pipes: &mut PipeTable) -> (r: bool)
        requires
            old(self).wf(),
            old(self).map@.contains_key(id) ==> task::files_wf(
                old(self).store@[old(self).map@[id] as int].files@,
                old(pipes)@,
            ) && task::ends_left(
                old(pipes)@,
                old(self).store@[old(self).map@[id] as int].files@.len(),
            ),
        ensures
            final(self).wf(),
            r == old(self).map@.contains_key(id),
            final(self).map@ == old(self).map@.remove(id),
            final(self).seq == old(self).seq,
            final(self).root == old(self).root,
            r ==> ({
                let t = old(self).map@[id];
                let files = old(self).store@[t as int].files@;
                &&& exists|mid: Seq<Task>|
                    {
                        &&& #[trigger] task::exited(old(self).store@, mid, t, code)
                        &&& reaped(mid, final(self).store@, t, old(self).root)
                    }
                &&& task::pipes_closed(
                    old(pipes)@,
                    final(pipes)@,
                    |i: int| task::hits(keys::listing(files), files, i),
                )
            }),
            !r ==> final(self).store@ == old(self).store@ && final(pipes)@ == old(pipes)@,
    {
        match self.find(id) {
            Some(t) => {
                assert(links_ok(self.store@[t as int], self.store@.len()));
                Task::exit_proc(&mut self.store, t, code, pipes);
                let ghost mid = self.store@;
                proof {
                    lemma_exited_links(old(self).store@, mid, t, code);
                }
                self.reap(id);
                assert(task::exited(old(self).store@, mid, t, code));
                true
            },
            None => {
                assert(self.map@ =~= old(self).map@.remove(id));
                false
            },
        }
    }

    /// The ids of the tasks that are not done.
    pub fn active_tasks(&self) -> (r: Vec<u64>)
        requires
            self.wf(),
        ensures
            r@ == selected(self.map@, self.store@, Query::NotDone),
            keys::increasing(r@),
            forall|k: int| 0 <= k < r@.len() ==> self.map@.contains_key(#[trigger] r@[k]),
    {
        self.select(&Query::NotDone)
    }

    /// The ids of the tasks that are done.
    pub fn zombie_tasks(&self) -> (r: Vec<u64>)
        requires
            self.wf(),
        ensures
            r@ == selected(self.map@, self.store@, Query::Done),
            keys::increasing(r@),
            forall|k: int| 0 <= k < r@.len() ==> self.map@.contains_key(#[trigger] r@[k]),
    {
        self.select(&Query::Done)
    }

    /// Sends a signal to every task of a group; returns how many there are.
    pub fn send_signal_group(&mut self, pgid: Pgid, signo: i32) -> (r: usize)
        requires
            old(self).wf(),
        ensures
            final(self).wf(),
            final(self).map@ == old(self).map@,
            final(self).seq == old(self).seq,
            final(self).root == old(self).root,
            ({
                let group = tasks_of(
                    old(self).map@,
                    selected(old(self).map@, old(self).store@, Query::Group(pgid)),
                );
                &&& r == group.len()
                &&& all_signalled(old(self).store@, final(self).store@, group, signo, -1i64)
            }),
    {
        let group = self.pgid_group(pgid);
        signal_each(&mut self.store, &group, signo, -1);
        proof {
            lemma_signalled_links(old(self).store@, self.store@, group@, signo, -1i64);
        }
        group.len()
    }
}

/// The top of a user stack, below which arguments and environment are laid out.
pub fn user_stack_top() -> (r: u64)
    ensures
        r == USER_STACK_OFFSET + USER_STACK_SIZE,
{
    USER_STACK_OFFSET + USER_STACK_SIZE
}

/// The standard descriptors; the third is a copy of the second.
fn open_terminal() -> (r: BTreeMap<u64, FLike>)
    ensures
        is_terminal(r@),
{
    let fd0 = FHandle::new(
        "/dev/tty",
        FdOpt { rd: true, wr: false, ap: false, nb: false },
        false,
        false,
    );
    let fd1 = FHandle::new(
        "/dev/tty",
        FdOpt { rd: false, wr: true, ap: false, nb: false },
        false,
        false,
    );
    let fd2 = fd1.dup(false);
    let mut files: BTreeMap<u64, FLike> = BTreeMap::new();
    files.insert(0, FLike::File(fd0));
    files.insert(1, FLike::File(fd1));
    files.insert(2, FLike::File(fd2));
    assert(files@.dom() =~= set![0u64, 1u64, 2u64]);
    files
}

fn dup_files(files: &BTreeMap<u64, FLike>) -> (r: BTreeMap<u64, FLike>)
    ensures
        files_duped(files@, r@),
{
    let list = sorted_keys(files);
    let ghost ks = list@;
    let mut out: BTreeMap<u64, FLike> = BTreeMap::new();
    let mut i: usize = 0;
    while i < list.len()
        invariant
            i <= list@.len(),
            ks == list@,
            keys::lists_keys(ks, files@),
            forall|fd: u64| #[trigger] out@.contains_key(fd) <==> ks.take(i as int).contains(fd),
            forall|fd: u64| #[trigger]
                out@.contains_key(fd) ==> file::dup_of(files@[fd], out@[fd], false),
        decreases list@.len() - i,
    {
        let fd: u64 = list[i];
        assert(ks.contains(fd));
        let dup = files.get(&fd).unwrap().dup(false);
        out.insert(fd, dup);
        proof {
            let t = ks.take(i as int);
            let u = ks.take(i + 1);
            assert(u =~= t.push(fd));
            assert forall|k: u64| #[trigger] out@.contains_key(k) <==> u.contains(k) by {
                if t.contains(k) {
                    let j = choose|j: int| 0 <= j < t.len() && t[j] == k;
                    assert(u[j] == k);
                }
                assert(u[i as int] == fd);
            }
        }
        i = i + 1;
    }
    proof {
        assert(ks.take(i as int) =~= ks);
        assert forall|fd: u64| out@.dom().contains(fd) <==> files@.dom().contains(fd) by {
            assert(ks.contains(fd) <==> files@.contains_key(fd));
            assert(out@.contains_key(fd) <==> ks.contains(fd));
        }
        assert(out@.dom() =~= files@.dom());
    }
    out
}

/// Reaping keeps the links valid.
pub proof fn lemma_reaped_links(before: Seq<Task>, after: Seq<Task>, t: TaskRef, root: Option<TaskRef>)
    requires
        t < before.len(),
        root matches Some(r) ==> r < before.len(),
        forall|i: int| 0 <= i < before.len() ==> links_ok(#[trigger] before[i], before.len()),
        reaped(before, after, t, root),
    ensures
        forall|i: int| 0 <= i < after.len() ==> links_ok(#[trigger] after[i], after.len()),
{
    let kids = before[t as int].subtasks@;
    assert forall|i: int| 0 <= i < after.len() implies links_ok(#[trigger] after[i], after.len()) by {
        assert(links_ok(before[i], before.len()));
        assert(links_ok(before[t as int], before.len()));
        assert forall|k: int| 0 <= k < after[i].subtasks@.len() implies #[trigger] after[i].subtasks@[k]
            < after.len() by {
            let own = if i == t {
                Seq::<usize>::empty()
            } else {
                before[i].subtasks@
            };
            if k < own.len() {
                assert(after[i].subtasks@[k] == before[i].subtasks@[k]);
            } else {
                assert(after[i].subtasks@[k] == kids[k - own.len()]);
            }
        }
    }
}

/// Adopting keeps the links valid.
pub proof fn lemma_adopted_links(before: Seq<Task>, after: Seq<Task>, kids: Seq<usize>, r: TaskRef)
    requires
        r < before.len(),
        forall|i: int| 0 <= i < before.len() ==> links_ok(#[trigger] before[i], before.len()),
        forall|k: int| 0 <= k < kids.len() ==> #[trigger] kids[k] < before.len(),
        adopted(before, after, kids, r),
    ensures
        forall|i: int| 0 <= i < after.len() ==> links_ok(#[trigger] after[i], after.len()),
{
    assert forall|i: int| 0 <= i < after.len() implies links_ok(#[trigger] after[i], after.len()) by {
        let own = before[i].subtasks@;
        assert(links_ok(before[i], before.len()));
        assert forall|k: int| 0 <= k < after[i].subtasks@.len() implies #[trigger] after[i].subtasks@[k]
            < after.len() by {
            if k < own.len() {
                assert(after[i].subtasks@[k] == own[k]);
            } else {
                assert(after[i].subtasks@[k] == kids[k - own.len()]);
            }
        }
    }
}

/// Exiting keeps the links valid.
pub proof fn lemma_exited_links(before: Seq<Task>, after: Seq<Task>, t: TaskRef, code: u64)
    requires
        t < before.len(),
        forall|i: int| 0 <= i < before.len() ==> links_ok(#[trigger] before[i], before.len()),
        task::exited(before, after, t, code),
    ensures
        forall|i: int| 0 <= i < after.len() ==> links_ok(#[trigger] after[i], after.len()),
{
    assert forall|i: int| 0 <= i < after.len() implies links_ok(#[trigger] after[i], after.len()) by {
        assert(links_ok(before[i], before.len()));
        if i != t && !task::child_of(before[t as int], i) {
            assert(after[i] == before[i]);
        }
    }
}

/// Signals keep the links valid.
pub proof fn lemma_signalled_links(
    before: Seq<Task>,
    after: Seq<Task>,
    list: Seq<usize>,
    signo: i32,
    sender: i64,
)
    requires
        forall|i: int| 0 <= i < before.len() ==> links_ok(#[trigger] before[i], before.len()),
        all_signalled(before, after, list, signo, sender),
    ensures
        forall|i: int| 0 <= i < after.len() ==> links_ok(#[trigger] after[i], after.len()),
{
    assert forall|i: int| 0 <= i < after.len() implies links_ok(#[trigger] after[i], after.len()) by {
        assert(links_ok(before[i], before.len()));
    }
}

/// Once a task is reaped, its children have the root for their parent, and the root
/// knows them.
pub proof fn lemma_orphans_go_to_root(
    before: Seq<Task>,
    after: Seq<Task>,
    t: TaskRef,
    root: TaskRef,
    k: int,
)
    requires
        t < before.len(),
        root < before.len(),
        forall|i: int| 0 <= i < before.len() ==> links_ok(#[trigger] before[i], before.len()),
        reaped(before, after, t, Some(root)),
        0 <= k < before[t as int].subtasks@.len(),
    ensures
        ({
            let c = before[t as int].subtasks@[k];
            &&& after[c as int].parent == Some(root)
            &&& after[root as int].subtasks@.contains(c)
        }),
{
    let kids = before[t as int].subtasks@;
    let c = kids[k];
    assert(links_ok(before[t as int], before.len()));
    assert(after[c as int].parent == new_parent(before[c as int], kids, Some(root), c as int));
    let own = if root == t {
        Seq::<usize>::empty()
    } else {
        before[root as int].subtasks@
    };
    assert(after[root as int].subtasks@ == own + kids);
    assert(after[root as int].subtasks@[own.len() + k] == c);
}

/// A forked child has the descriptors of its parent, and the same contexts.
pub proof fn lemma_fork_inherits(p: Task, c: Task, id: u64, parent: TaskRef, fd: u64)
    requires
        is_fork_child(p, c, id, parent),
    ensures
        c.files@.contains_key(fd) <==> p.files@.contains_key(fd),
        p.files@.contains_key(fd) ==> file::dup_of(p.files@[fd], c.files@[fd], false),
        c.info.id == id,
        c.pgid == p.pgid,
        c.sig_mask == p.sig_mask,
        c.sig_queue@.len() == 0,
        !task::is_done(c),
        c.subtasks@.len() == 0,
        c.parent == Some(parent),
{
    assert(c.files@.dom().contains(fd) <==> p.files@.dom().contains(fd));
}

/// Who answers a query: the tasks in the table of that group, with that thread or of
/// that name; those with an exit status, and those without one. No id is found twice,
/// and they come in rising order.
pub proof fn lemma_who_is_selected(
    map: Map<u64, usize>,
    store: Seq<Task>,
    id: u64,
    pgid: Pgid,
    tid: Tid,
    tag: String,
)
    requires
        map.dom().finite(),
    ensures
        selected(map, store, Query::Group(pgid)).contains(id) <==> map.contains_key(id)
            && store[map[id] as int].pgid == pgid,
        selected(map, store, Query::Thread(tid)).contains(id) <==> map.contains_key(id)
            && store[map[id] as int].threads@.contains(tid),
        selected(map, store, Query::Tag(tag)).contains(id) <==> map.contains_key(id)
            && store[map[id] as int].info.tag@ == tag@,
        selected(map, store, Query::Done).contains(id) <==> map.contains_key(id)
            && store[map[id] as int].info.status is Some,
        selected(map, store, Query::NotDone).contains(id) <==> map.contains_key(id)
            && store[map[id] as int].info.status is None,
{
    lemma_selected(map, store, Query::Group(pgid), id);
    lemma_selected(map, store, Query::Thread(tid), id);
    lemma_selected(map, store, Query::Tag(tag), id);
    lemma_selected(map, store, Query::Done, id);
    lemma_selected(map, store, Query::NotDone, id);
}

/// The ids that answer a query are those in the table whose task the query accepts, in
/// rising order.
pub proof fn lemma_selected(map: Map<u64, usize>, store: Seq<Task>, q: Query, id: u64)
    requires
        map.dom().finite(),
    ensures
        selected(map, store, q).contains(id) <==> map.contains_key(id) && accepts(
            q,
            store[map[id] as int],
        ),
        keys::increasing(selected(map, store, q)),
{
    let f = |id: u64| accepts(q, store[map[id] as int]);
    let list = keys::listing(map);
    keys::lemma_listing_exists(map);
    lemma_filter_increasing(list, f);
    lemma_filter_member(list, f, id);
    assert(list.contains(id) <==> map.contains_key(id));
}

/// A filtered list holds what the list holds and the filter passes.
pub proof fn lemma_filter_member(list: Seq<u64>, f: spec_fn(u64) -> bool, id: u64)
    ensures
        list.filter(f).contains(id) <==> list.contains(id) && f(id),
    decreases list.len(),
{
    reveal(Seq::filter);
    if list.len() > 0 {
        let front = list.drop_last();
        let q = front.filter(f);
        let r = list.filter(f);
        lemma_filter_member(front, f, id);
        if front.contains(id) {
            let i = choose|i: int| 0 <= i < front.len() && front[i] == id;
            assert(list[i] == id);
        }
        if list.contains(id) {
            let i = choose|i: int| 0 <= i < list.len() && list[i] == id;
            if i < front.len() {
                assert(front[i] == id);
            }
        }
        assert(list[list.len() - 1] == list.last());
        if q.contains(id) {
            let i = choose|i: int| 0 <= i < q.len() && q[i] == id;
            assert(r[i] == id);
        }
        if f(list.last()) {
            assert(r == q.push(list.last()));
            assert(r[q.len() as int] == list.last());
        }
        if r.contains(id) {
            let i = choose|i: int| 0 <= i < r.len() && r[i] == id;
            if i < q.len() {
                assert(q[i] == id);
            }
        }
    }
}

proof fn lemma_filter_increasing(list: Seq<u64>, f: spec_fn(u64) -> bool)
    requires
        keys::increasing(list),
    ensures
        keys::increasing(list.filter(f)),
    decreases list.len(),
{
    reveal(Seq::filter);
    if list.len() > 0 {
        let front = list.drop_last();
        lemma_filter_increasing(front, f);
        let r = list.filter(f);
        let q = front.filter(f);
        assert forall|i: int, j: int| 0 <= i < j < r.len() implies r[i] < r[j] by {
            if j == q.len() {
                assert(q.contains(q[i]));
                lemma_filter_member(front, f, q[i]);
                let k = choose|k: int| 0 <= k < front.len() && front[k] == q[i];
                assert(list[k] < list[list.len() - 1]);
            }
        }
    }
}

/// The task at `j` is one of those of the ids exactly if one of them names it.
pub proof fn lemma_tasks_of_ids(map: Map<u64, usize>, ids: Seq<u64>, j: int)
    ensures
        has_index(tasks_of(map, ids), j) <==> exists|id: u64| #[trigger]
            ids.contains(id) && map[id] == j,
{
    let list = tasks_of(map, ids);
    if has_index(list, j) {
        let k = choose|k: int| 0 <= k < list.len() && #[trigger] list[k] == j;
        assert(ids.contains(ids[k]));
    }
    if exists|id: u64| #[trigger] ids.contains(id) && map[id] == j {
        let id = choose|id: u64| #[trigger] ids.contains(id) && map[id] == j;
        let k = choose|k: int| 0 <= k < ids.len() && ids[k] == id;
        assert(list[k] == j);
    }
}

/// A reaped task can no longer be found, every other one still can, and no task but
/// the root gets children by it.
pub proof fn lemma_reaped_task_is_not_found(before: TaskTable, after: TaskTable, id: u64, other: u64)
    requires
        removed(before, after, id),
    ensures
        !after.map@.contains_key(id),
        other != id ==> (after.map@.contains_key(other) <==> before.map@.contains_key(other)),
        other != id && before.map@.contains_key(other) ==> after.map@[other] == before.map@[other],
        after.store@.len() == before.store@.len(),
        forall|j: int|
            0 <= j < before.store@.len() ==> {
                let a = before.store@[j];
                let b = #[trigger] after.store@[j];
                &&& b.info == a.info && b.exit_code == a.exit_code && b.pgid == a.pgid
                &&& b.files@ == a.files@ && b.sig_queue@ == a.sig_queue@ && b.sig_mask == a.sig_mask
                &&& before.root != Some(j as usize) ==> b.subtasks@.len() <= a.subtasks@.len()
            },
{
    assert forall|j: int| 0 <= j < before.store@.len() implies {
        let a = before.store@[j];
        let b = #[trigger] after.store@[j];
        &&& b.info == a.info && b.exit_code == a.exit_code && b.pgid == a.pgid
        &&& b.files@ == a.files@ && b.sig_queue@ == a.sig_queue@ && b.sig_mask == a.sig_mask
        &&& before.root != Some(j as usize) ==> b.subtasks@.len() <= a.subtasks@.len()
    } by {
        if before.map@.contains_key(id) {
            let t = before.map@[id];
            let kids = before.store@[t as int].subtasks@;
            let b = after.store@[j];
            assert(b.subtasks@ == new_kids(before.store@[j], kids, t, before.root, j));
            if before.root matches Some(r) && r == j {
                assert(before.root == Some(j as usize));
            }
        }
    }
}

/// Only children that lose their parent get another one, and only if there is a root to
/// take them; who is nobody's child keeps what it has.
pub proof fn lemma_others_keep_parent(before: Seq<Task>, after: Seq<Task>, t: TaskRef, root: Option<TaskRef>, j: int)
    requires
        t < before.len(),
        reaped(before, after, t, root),
        0 <= j < before.len(),
    ensures
        root is None ==> after[j].parent == before[j].parent,
        (forall|k: int|
            0 <= k < before[t as int].subtasks@.len() ==> #[trigger] before[t as int].subtasks@[k]
                != j) ==> after[j].parent == before[j].parent,
        root != Some(t) ==> after[t as int].subtasks@.len() == 0,
        j != t && root != Some(j as usize) ==> after[j].subtasks@ == before[j].subtasks@,
{
    if root matches Some(r) && r == j {
        assert(root == Some(j as usize));
    }
    if root matches Some(r) && r == t {
        assert(root == Some(t));
    }
    assert(after[t as int].subtasks@ == new_kids(
        before[t as int],
        before[t as int].subtasks@,
        t,
        root,
        t as int,
    ));
}

/// Adopted tasks have their new parent, who knows them; everyone else keeps theirs.
pub proof fn lemma_adoption(before: Seq<Task>, after: Seq<Task>, kids: Seq<usize>, r: TaskRef, j: int)
    requires
        r < before.len(),
        adopted(before, after, kids, r),
        0 <= j < before.len(),
    ensures
        (exists|k: int| 0 <= k < kids.len() && #[trigger] kids[k] == j) ==> after[j].parent == Some(r),
        (forall|k: int| 0 <= k < kids.len() ==> #[trigger] kids[k] != j) ==> after[j].parent
            == before[j].parent,
        after[r as int].subtasks@ == before[r as int].subtasks@ + kids,
        j != r ==> after[j].subtasks@ == before[j].subtasks@,
        after[j].info == before[j].info,
{
}

/// The standard descriptors are the terminal: one to read from and two to write to, and
/// none of them goes when a program starts.
pub proof fn lemma_terminal_descriptors(files: Map<u64, FLike>, fd: u64)
    requires
        is_terminal(files),
    ensures
        files.contains_key(fd) <==> fd < 3,
        fd < 3 ==> (files[fd] matches FLike::File(h) && {
            &&& h.path@ == "/dev/tty"@
            &&& h.opt.rd == (fd == 0)
            &&& h.opt.wr == (fd != 0)
            &&& !h.opt.ap && !h.opt.nb && !h.cloexec && !h.pipe
        }),
{
    assert(files.dom().contains(fd) <==> fd == 0 || fd == 1 || fd == 2);
}

/// A new task for a program has the name of the program, one thread, the terminal and
/// the stack that was made for it; it is nobody's child, and not done.
pub proof fn lemma_user_task(c: Task, id: u64, path: Seq<char>, sp: u64)
    requires
        is_user_task(c, id, path, sp),
    ensures
        c.info.id == id && c.pid == Pid(id) && c.info.tag@ == path && c.exec_path@ == path,
        c.info.status is None && c.parent is None && c.subtasks@.len() == 0,
        c.threads@.len() == 1 && c.threads@[0] == id,
        c.files@.contains_key(0) && c.files@.contains_key(1) && c.files@.contains_key(2),
        c.thread_context matches Some(x) && x.user_trap_frame@.regs[N_REGS - 1] == sp
            && x.user_trap_frame@.ip == 0 && x.clear_child_tid == 0 && x.signal_mask == 0,
        c.sig_mask == 0 && c.pgid == 0 && c.vm_token == 0,
{
    assert(c.files@.dom().contains(0) && c.files@.dom().contains(1) && c.files@.dom().contains(2));
}

/// A thread of a task has its end of the heap, its group and its mask, and starts with
/// the stack and the thread pointer that it was given; it has no files of its own.
pub proof fn lemma_thread_of_task(
    p: Task,
    c: Task,
    id: u64,
    stack_top: u64,
    tls: u64,
    clear_child_tid: u64,
)
    requires
        is_thread_of(p, c, id, stack_top, tls, clear_child_tid),
    ensures
        c.info.id == id && c.vm_token == p.vm_token && c.pgid == p.pgid,
        c.sem_ctx.arrays@ == p.sem_ctx.arrays@ && c.shm_ctx.ids@ == p.shm_ctx.ids@,
        c.files@.len() == 0 && c.parent is None && c.info.status is None,
        c.thread_context matches Some(x) && x.user_trap_frame@.regs[N_REGS - 1] == stack_top
            && x.user_trap_frame@.regs[N_REGS - 2] == tls && x.user_trap_frame@.regs[0] == 0
            && x.clear_child_tid == clear_child_tid && x.signal_mask == p.sig_mask,
{
}

/// Ids are given out in order: the next task gets the next one.
pub proof fn lemma_next_id(before: TaskTable, after: TaskTable, r: TaskRef)
    requires
        after.added(&before, r),
        before.seq < u64::MAX,
    ensures
        after.seq == before.seq + 1,
        after.map@.contains_key(before.seq) && after.map@[before.seq] == r,
        forall|id: u64| #[trigger]
            before.map@.contains_key(id) && id != before.seq ==> after.map@.contains_key(id)
                && after.map@[id] == before.map@[id],
        after.store@.len() == before.store@.len() + 1,
{
}

/// A signal to a list of tasks is pending with each of them, and with no other one that
/// did not have it.
pub proof fn lemma_signal_reaches_list(
    before: Seq<Task>,
    after: Seq<Task>,
    list: Seq<usize>,
    signo: i32,
    sender: i64,
    j: int,
)
    requires
        all_signalled(before, after, list, signo, sender),
        0 <= j < before.len(),
    ensures
        list.contains(j as usize) && j <= usize::MAX ==> task::has_signo(after[j].sig_queue@, signo),
        !list.contains(j as usize) ==> after[j] == before[j],
        after[j].info == before[j].info && after[j].sig_mask == before[j].sig_mask,
{
    if list.contains(j as usize) && j <= usize::MAX {
        let k = choose|k: int| 0 <= k < list.len() && list[k] == j as usize;
        assert(list[k] == j);
        assert(has_index(list, j));
        task::lemma_sent_signal_is_pending(before[j], after[j], signo, sender);
    }
    if has_index(list, j) {
        let k = choose|k: int| 0 <= k < list.len() && #[trigger] list[k] == j;
        assert(list.contains(list[k]));
    }
}

} // verus!
