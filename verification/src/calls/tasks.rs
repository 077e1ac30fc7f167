//! System calls on tasks.
use crate::bits;
use crate::bits::{extend, to_signed, to_signed_half};
use crate::calls::files;
use crate::calls::memory::CallResult;
use crate::consts::{PAGE_SIZE, PHYSICAL_FRAME_COUNT, SIGCHLD};
use crate::fs::file;
use crate::keys;
use crate::memory::addr::check_access;
use crate::memory::frames;
use crate::process::kernel;
use crate::process::kernel::Kernel;
use crate::process::table;
use crate::process::table::{adopt, TaskTable};
use crate::process::task;
use crate::process::task::{Task, TaskRef};
use crate::process::thread::Pgid;
use crate::seqs;
use crate::util::words;
use vstd::prelude::*;

verus! {

broadcast use vstd::std_specs::btree::group_btree_axioms;

/// Bytes of an argument or environment vector that are looked at.
pub const VECTOR_SIZE: u64 = 512;

/// Bytes of a resource-usage record.
pub const RUSAGE_SIZE: u64 = 144;

/// The share of the frames that is in use, in percent.
pub open spec fn frames_used(k: Kernel) -> int {
    (PHYSICAL_FRAME_COUNT - frames::count_free(k.pool@)) * 100 / (PHYSICAL_FRAME_COUNT as int)
}

/// The frames that a copy of a task is taken to cost.
pub open spec fn copy_cost(k: Kernel) -> int {
    let free = frames::count_free(k.pool@) as int;
    let counted = if free < 256 {
        free
    } else {
        256
    };
    (counted + k.tasks.map@.len() * 2) / (PAGE_SIZE as int)
}

/// The numbers that `fork` looks at are machine numbers.
pub open spec fn fork_fits(k: Kernel) -> bool {
    &&& frames::count_free(k.pool@) <= PHYSICAL_FRAME_COUNT
    &&& k.tasks.map@.len() * 2 + 256 <= u64::MAX
}

/// `fork` uses up an id, also where memory is short.
pub open spec fn fork_counted(before: Kernel, after: Kernel, r: CallResult) -> bool {
    &&& after == (Kernel {
        tasks: TaskTable { seq: before.tasks.seq.wrapping_add(1), ..before.tasks },
        ..before
    })
    &&& r == if frames_used(before) > 90 || frames::count_free(before.pool@) < copy_cost(before) {
        CallResult::Err("enomem")
    } else {
        Ok(before.tasks.seq)
    }
}

pub open spec fn exec_result(path: u64, argv: u64, envp: u64) -> CallResult {
    if path == 0 || !files::reachable(path, files::PATH_SIZE) {
        Err("efault")
    } else if argv != 0 && !files::reachable(argv, VECTOR_SIZE) {
        Err("efault")
    } else if envp != 0 && !files::reachable(envp, VECTOR_SIZE) {
        Err("efault")
    } else {
        Ok(0)
    }
}

/// The tasks after the parent of the one at `t`, if it has one, was told that it is
/// gone.
pub open spec fn parent_told(before: Seq<Task>, after: Seq<Task>, t: TaskRef) -> bool {
    let id = bits::signed_word(before[t as int].info.id) as i64;
    match before[t as int].parent {
        Some(p) => {
            &&& after.len() == before.len()
            &&& task::signalled(before[p as int], after[p as int], SIGCHLD as i32, id)
            &&& forall|j: int|
                0 <= j < before.len() && j != p ==> #[trigger] after[j] == before[j]
        },
        None => after == before,
    }
}

/// The three steps of an exit: the task exits, its parent is told, and its children
/// go to the first task.
pub open spec fn exit_steps(
    before: Seq<Task>,
    gone: Seq<Task>,
    told: Seq<Task>,
    after: Seq<Task>,
    t: TaskRef,
    status: u64,
    init: Option<TaskRef>,
) -> bool {
    &&& task::exited(before, gone, t, status)
    &&& parent_told(gone, told, t)
    &&& match init {
        Some(i) => table::adopted(told, after, told[t as int].subtasks@, i),
        None => after == told,
    }
}

/// The task that orphans go to.
pub open spec fn first_task(tasks: TaskTable) -> Option<TaskRef> {
    if tasks.map@.contains_key(1) {
        Some(tasks.map@[1])
    } else {
        None
    }
}

/// The task that runs has exited.
pub open spec fn exit_done(before: Kernel, after: Kernel, status: u64, r: CallResult) -> bool {
    &&& r == CallResult::Ok(0)
    &&& match kernel::running(before, 0) {
        Some(t) => {
            let files = before.tasks.store@[t as int].files@;
            &&& after == (Kernel { tasks: after.tasks, pipes: after.pipes, ..before })
            &&& after.tasks == (TaskTable { store: after.tasks.store, ..before.tasks })
            &&& exists|gone: Seq<Task>, told: Seq<Task>| #[trigger]
                exit_steps(
                    before.tasks.store@,
                    gone,
                    told,
                    after.tasks.store@,
                    t,
                    status,
                    first_task(before.tasks),
                )
            &&& task::pipes_closed(
                before.pipes@,
                after.pipes@,
                |i: int| task::hits(keys::listing(files), files, i),
            )
        },
        None => after == before,
    }
}

/// The pipes can lose the ends that the task that runs has.
pub open spec fn exit_fits(k: Kernel) -> bool {
    kernel::running(k, 0) matches Some(t) ==> task::ends_left(
        k.pipes@,
        k.tasks.store@[t as int].files@.len(),
    )
}

/// The id names a task that is done.
pub open spec fn names_zombie(tasks: TaskTable, id: u64) -> bool {
    tasks.map@.contains_key(id) && task::is_done(tasks.store@[tasks.map@[id] as int])
}

/// The tasks of a group.
pub open spec fn group_of(tasks: TaskTable, pgid: Pgid) -> Seq<usize> {
    table::tasks_of(
        tasks.map@,
        table::selected(tasks.map@, tasks.store@, table::Query::Group(pgid)),
    )
}

/// The ids of the tasks of a group that are done.
pub open spec fn zombies_in(tasks: TaskTable, pgid: Pgid) -> Seq<u64> {
    group_of(tasks, pgid).map_values(|g: usize| tasks.store@[g as int].info.id).filter(
        |id: u64| names_zombie(tasks, id),
    )
}

/// What a wait answers that found nobody.
pub open spec fn nobody(options: u64) -> CallResult {
    if options & 1 != 0 {
        Ok(0)
    } else {
        Err("echild")
    }
}

/// The group of a request that is not refused has a number.
pub open spec fn wait_fits(pid: u64, status: u64, rusage: u64) -> bool {
    (status == 0 || files::reachable(status, 4)) && (rusage == 0 || files::reachable(
        rusage,
        RUSAGE_SIZE,
    )) ==> pid != 0x8000_0000_0000_0000
}

pub open spec fn wait_result(
    k: Kernel,
    pid: u64,
    status: u64,
    options: u64,
    rusage: u64,
) -> CallResult {
    let p = bits::signed_word(pid);
    if status != 0 && !files::reachable(status, 4) {
        Err("efault")
    } else if rusage != 0 && !files::reachable(rusage, RUSAGE_SIZE) {
        Err("efault")
    } else if p == -1 {
        let zombies = table::selected(k.tasks.map@, k.tasks.store@, table::Query::Done);
        if zombies.len() > 0 {
            Ok(zombies[0])
        } else {
            nobody(options)
        }
    } else if p == 0 {
        match kernel::running(k, 0) {
            Some(t) => {
                let zombies = zombies_in(k.tasks, k.tasks.store@[t as int].pgid);
                if zombies.len() > 0 {
                    Ok(zombies.last())
                } else {
                    nobody(options)
                }
            },
            None => Err("echild"),
        }
    } else if p > 0 {
        if !k.tasks.map@.contains_key(pid) {
            Err("echild")
        } else if names_zombie(k.tasks, pid) {
            Ok(pid)
        } else {
            nobody(options)
        }
    } else {
        let pgid = bits::signed_half((-p) as u64) as i32;
        let zombies = zombies_in(k.tasks, pgid);
        if group_of(k.tasks, pgid).len() == 0 {
            Err("echild")
        } else if zombies.len() > 0 {
            Ok(zombies[0])
        } else {
            nobody(options)
        }
    }
}

/// The id of the task that runs.
pub open spec fn running_id(k: Kernel) -> Option<u64> {
    match kernel::running(k, 0) {
        Some(t) => Some(k.tasks.store@[t as int].info.id),
        None => None,
    }
}

pub open spec fn getpid_result(k: Kernel) -> CallResult {
    match running_id(k) {
        Some(id) => Ok(id),
        None => Ok(1),
    }
}

pub open spec fn getppid_result(k: Kernel) -> CallResult {
    match kernel::running(k, 0) {
        Some(t) => match k.tasks.store@[t as int].parent {
            Some(p) => Ok(k.tasks.store@[p as int].info.id),
            None => Ok(0),
        },
        None => Ok(0),
    }
}

/// The task of the id `pid` has a parent of the id `caller`.
pub open spec fn is_child(tasks: TaskTable, pid: u64, caller: u64) -> bool {
    &&& tasks.map@.contains_key(pid)
    &&& tasks.store@[tasks.map@[pid] as int].parent matches Some(p)
        && tasks.store@[p as int].info.id == caller
}

/// A task can put itself and its children into a group; 0 stands for the caller, or
/// for the group that the task leads.
pub open spec fn group_set(before: Kernel, after: Kernel, pid: u64, pgid: u64, r: CallResult) -> bool {
    let caller = match running_id(before) {
        Some(id) => id,
        None => 1,
    };
    let target = if pid == 0 {
        caller
    } else {
        pid
    };
    let group = if pgid == 0 {
        target
    } else {
        pgid
    };
    if target != caller && !is_child(before.tasks, target, caller) {
        r == CallResult::Err("esrch") && after == before
    } else {
        &&& r == CallResult::Ok(0)
        &&& if before.tasks.map@.contains_key(target) {
            let t = before.tasks.map@[target];
            let p = before.tasks.store@[t as int];
            &&& after == (Kernel { tasks: after.tasks, ..before })
            &&& table::only_task(before.tasks, after.tasks, t)
            &&& after.tasks.store@[t as int] == (Task {
                pgid: bits::signed_half(group) as i32,
                ..p
            })
        } else {
            after == before
        }
    }
}

pub open spec fn getpgid_result(k: Kernel, pid: u64) -> CallResult {
    let target = if pid == 0 {
        match running_id(k) {
            Some(id) => id,
            None => 0,
        }
    } else {
        pid
    };
    if target != 0 && k.tasks.map@.contains_key(target) {
        Ok(bits::extended(k.tasks.store@[k.tasks.map@[target] as int].pgid))
    } else {
        Err("esrch")
    }
}

/// The task that runs leads a group of its own, unless it did so already.
pub open spec fn session_set(before: Kernel, after: Kernel, r: CallResult) -> bool {
    match kernel::running(before, 0) {
        Some(t) => {
            let p = before.tasks.store@[t as int];
            if bits::extended(p.pgid) == p.info.id {
                r == CallResult::Err("eperm") && after == before
            } else {
                &&& r == CallResult::Ok(p.info.id)
                &&& after == (Kernel { tasks: after.tasks, ..before })
                &&& table::only_task(before.tasks, after.tasks, t)
                &&& after.tasks.store@[t as int] == (Task {
                    pgid: bits::signed_half(p.info.id) as i32,
                    ..p
                })
            }
        },
        None => r == CallResult::Err("esrch") && after == before,
    }
}

fn answer_nobody(options: u64) -> (r: CallResult)
    ensures
        r == nobody(options),
{
    if (options & 1) != 0 {
        Ok(0)
    } else {
        Err("echild")
    }
}

impl Kernel {
    /// The next id, if there is memory for a copy of a task.
    pub fn sys_fork(&mut self) -> (r: CallResult)
        requires
            old(self).wf(),
            fork_fits(*old(self)),
        ensures
            final(self).wf(),
            fork_counted(*old(self), *final(self), r),
    {
        let free: u64 = self.pool.free_frame_count() as u64;
        let active: u64 = self.tasks.count() as u64;
        let counted: u64 = if free < 256 {
            free
        } else {
            256
        };
        let cost: u64 = counted + active * 2;
        let new_pid: u64 = self.tasks.seq;
        self.tasks.seq = new_pid.wrapping_add(1);
        let used: u64 = PHYSICAL_FRAME_COUNT - free;
        let ratio: u64 = (used * 100) / PHYSICAL_FRAME_COUNT;
        if ratio > 90 {
            return Err("enomem");
        }
        if free < cost / PAGE_SIZE {
            return Err("enomem");
        }
        Ok(new_pid)
    }

    /// Checks the arguments of a program start.
    pub fn sys_exec(&self, path_addr: u64, argv_addr: u64, envp_addr: u64) -> (r: CallResult)
        ensures
            r == exec_result(path_addr, argv_addr, envp_addr),
    {
        if path_addr == 0 {
            return Err("efault");
        }
        if !check_access(path_addr, files::PATH_SIZE) {
            return Err("efault");
        }
        if argv_addr != 0 && !check_access(argv_addr, VECTOR_SIZE) {
            return Err("efault");
        }
        if envp_addr != 0 && !check_access(envp_addr, VECTOR_SIZE) {
            return Err("efault");
        }
        Ok(0)
    }

    /// Lets the task that runs exit.
    pub fn sys_exit(&mut self, status: u64) -> (r: CallResult)
        requires
            old(self).wf(),
            exit_fits(*old(self)),
        ensures
            final(self).wf(),
            exit_done(*old(self), *final(self), status, r),
    {
        let t: usize = match self.cur_task(0) {
            Some(t) => t,
            None => {
                return Ok(0);
            },
        };
        assert(self.cpus@[0] == Some(t));
        let ghost before = self.tasks.store@;
        let ghost n = before.len();
        assert(table::links_ok(before[t as int], n));
        assert(kernel::task_ok(
            before[t as int],
            self.pipes@,
            self.sem_store,
            self.shm_store,
        ));
        Task::exit_proc(&mut self.tasks.store, t, status, &mut self.pipes);
        let ghost gone = self.tasks.store@;
        proof {
            table::lemma_exited_links(before, gone, t, status);
            assert(table::links_ok(gone[t as int], n));
        }
        let parent = self.tasks.store[t].parent;
        let id: i64 = to_signed(self.tasks.store[t].id());
        if let Some(p) = parent {
            self.tasks.store[p].send_sig(SIGCHLD as i32, id);
        }
        let ghost told = self.tasks.store@;
        let children: Vec<TaskRef> = self.tasks.store[t].subtasks.clone();
        assert(children@ =~= told[t as int].subtasks@);
        proof {
            assert forall|i: int| 0 <= i < n implies table::links_ok(#[trigger] told[i], n) by {
                assert(table::links_ok(gone[i], n));
            }
            assert(table::links_ok(told[t as int], n));
            assert forall|k: int| 0 <= k < children@.len() implies #[trigger] children@[k] < n by {
                assert(told[t as int].subtasks@[k] < n);
            }
        }
        match self.tasks.find(1) {
            Some(init) => {
                assert(self.tasks.map@.contains_key(1));
                adopt(&mut self.tasks.store, &children, init);
                proof {
                    table::lemma_adopted_links(told, self.tasks.store@, children@, init);
                }
            },
            None => {},
        }
        proof {
            assert(exit_steps(
                before,
                gone,
                told,
                self.tasks.store@,
                t,
                status,
                first_task(old(self).tasks),
            ));
            assert forall|j: int| 0 <= j < n implies (#[trigger] self.tasks.store@[j]).sem_ctx.arrays@
                == before[j].sem_ctx.arrays@ && self.tasks.store@[j].shm_ctx.ids@
                == before[j].shm_ctx.ids@ by {
                assert(self.tasks.store@[j].sem_ctx == told[j].sem_ctx);
                assert(self.tasks.store@[j].shm_ctx == told[j].shm_ctx);
                assert(told[j].sem_ctx == gone[j].sem_ctx && told[j].shm_ctx == gone[j].shm_ctx);
                if j != t && !task::child_of(before[t as int], j) {
                    assert(gone[j] == before[j]);
                }
            }
            kernel::lemma_same_tables(before, self.tasks.store@);
            assert forall|j: int| 0 <= j < n implies kernel::task_ok(
                #[trigger] self.tasks.store@[j],
                self.pipes@,
                self.sem_store,
                self.shm_store,
            ) by {
                let x = before[j];
                let y = self.tasks.store@[j];
                assert(kernel::task_ok(x, old(self).pipes@, self.sem_store, self.shm_store));
                assert(y.files@ == told[j].files@ && y.sem_ctx == told[j].sem_ctx && y.shm_ctx
                    == told[j].shm_ctx && y.sig_mask == told[j].sig_mask);
                assert(told[j].files@ == gone[j].files@ && told[j].sem_ctx == gone[j].sem_ctx
                    && told[j].shm_ctx == gone[j].shm_ctx && told[j].sig_mask == gone[j].sig_mask);
                if j != t {
                    if !task::child_of(before[t as int], j) {
                        assert(gone[j] == x);
                    }
                    assert forall|fd: u64| #[trigger] y.files@.contains_key(fd) implies (
                    file::pipe_of(y.files@[fd]) matches Some(m) ==> m.wf(self.pipes@)) by {
                        assert(x.files@.contains_key(fd));
                    }
                }
            }
        }
        Ok(0)
    }

    /// The ids of the tasks of a group that are done.
    fn list_zombies(&self, pgid: Pgid) -> (r: (usize, Vec<u64>))
        requires
            self.wf(),
        ensures
            r.0 == group_of(self.tasks, pgid).len(),
            r.1@ == zombies_in(self.tasks, pgid),
    {
        let group = self.tasks.pgid_group(pgid);
        let ghost p = |id: u64| names_zombie(self.tasks, id);
        let ghost ids = group@.map_values(|g: usize| self.tasks.store@[g as int].info.id);
        let mut out: Vec<u64> = Vec::new();
        let mut i: usize = 0;
        proof {
            reveal(Seq::filter);
            assert(ids.take(0) =~= Seq::<u64>::empty());
        }
        while i < group.len()
            invariant
                i <= group@.len(),
                self.wf(),
                forall|k: int| 0 <= k < group@.len() ==> #[trigger] group@[k] < self.tasks.store@.len(),
                ids == group@.map_values(|g: usize| self.tasks.store@[g as int].info.id),
                p == (|id: u64| names_zombie(self.tasks, id)),
                out@ == ids.take(i as int).filter(p),
            decreases group@.len() - i,
        {
            let g: usize = group[i];
            let id: u64 = self.tasks.store[g].id();
            proof {
                assert(ids[i as int] == id);
                seqs::lemma_filter_step(ids, i as int, p);
            }
            if let Some(t) = self.tasks.find(id) {
                assert(self.tasks.map@.contains_key(id));
                if self.tasks.store[t].done() {
                    out.push(id);
                }
            }
            i = i + 1;
        }
        assert(ids.take(i as int) =~= ids);
        (group.len(), out)
    }

    /// The id of a task that is done, among those that are waited for.
    pub fn sys_wait4(&self, pid: u64, status_addr: u64, options: u64, rusage_addr: u64) -> (r:
        CallResult)
        requires
            self.wf(),
            wait_fits(pid, status_addr, rusage_addr),
        ensures
            r == wait_result(*self, pid, status_addr, options, rusage_addr),
    {
        if status_addr != 0 && !check_access(status_addr, 4) {
            return Err("efault");
        }
        if rusage_addr != 0 && !check_access(rusage_addr, RUSAGE_SIZE) {
            return Err("efault");
        }
        let p: i64 = to_signed(pid);
        if p == -1 {
            let zombies = self.tasks.zombie_tasks();
            if zombies.len() == 0 {
                return answer_nobody(options);
            }
            Ok(zombies[0])
        } else if p == 0 {
            match self.cur_task(0) {
                Some(t) => {
                    assert(self.cpus@[0] == Some(t));
                    let (_n, zombies) = self.list_zombies(self.tasks.store[t].pgid);
                    if zombies.len() == 0 {
                        return answer_nobody(options);
                    }
                    Ok(zombies[zombies.len() - 1])
                },
                None => Err("echild"),
            }
        } else if p > 0 {
            match self.tasks.find(pid) {
                Some(t) => {
                    assert(self.tasks.map@.contains_key(pid));
                    if self.tasks.store[t].done() {
                        Ok(pid)
                    } else {
                        answer_nobody(options)
                    }
                },
                None => Err("echild"),
            }
        } else {
            let pgid: i32 = to_signed_half((-p) as u64);
            let (n, zombies) = self.list_zombies(pgid);
            if n == 0 {
                return Err("echild");
            }
            if zombies.len() == 0 {
                return answer_nobody(options);
            }
            Ok(zombies[0])
        }
    }

    fn current_id(&self) -> (r: Option<u64>)
        requires
            self.wf(),
        ensures
            r == running_id(*self),
    {
        match self.cur_task(0) {
            Some(t) => {
                assert(self.cpus@[0] == Some(t));
                Some(self.tasks.store[t].id())
            },
            None => None,
        }
    }

    pub fn sys_getpid(&self) -> (r: CallResult)
        requires
            self.wf(),
        ensures
            r == getpid_result(*self),
    {
        match self.current_id() {
            Some(id) => Ok(id),
            None => Ok(1),
        }
    }

    pub fn sys_getppid(&self) -> (r: CallResult)
        requires
            self.wf(),
        ensures
            r == getppid_result(*self),
    {
        match self.cur_task(0) {
            Some(t) => {
                assert(self.cpus@[0] == Some(t));
                assert(table::links_ok(self.tasks.store@[t as int], self.tasks.store@.len()));
                match self.tasks.store[t].parent {
                    Some(p) => Ok(self.tasks.store[p].id()),
                    None => Ok(0),
                }
            },
            None => Ok(0),
        }
    }

    /// Sets the group of a task.
    fn put_in_group(&mut self, t: TaskRef, pgid: Pgid)
        requires
            old(self).wf(),
            t < old(self).tasks.store@.len(),
        ensures
            final(self).wf(),
            *final(self) == (Kernel { tasks: final(self).tasks, ..*old(self) }),
            table::only_task(old(self).tasks, final(self).tasks, t),
            final(self).tasks.store@[t as int] == (Task {
                pgid,
                ..old(self).tasks.store@[t as int]
            }),
    {
        assert(table::links_ok(self.tasks.store@[t as int], self.tasks.store@.len()));
        self.tasks.store[t].pgid = pgid;
        proof {
            kernel::lemma_one_task(*old(self), *self, t);
        }
    }

    /// Puts a task into a group.
    pub fn sys_setpgid(&mut self, pid: u64, pgid: u64) -> (r: CallResult)
        requires
            old(self).wf(),
        ensures
            final(self).wf(),
            group_set(*old(self), *final(self), pid, pgid, r),
    {
        let caller: u64 = match self.current_id() {
            Some(id) => id,
            None => 1,
        };
        let target: u64 = if pid == 0 {
            caller
        } else {
            pid
        };
        let group: u64 = if pgid == 0 {
            target
        } else {
            pgid
        };
        let found = self.tasks.find(target);
        if target != caller {
            match found {
                Some(t) => {
                    assert(self.tasks.map@.contains_key(target));
                    assert(table::links_ok(self.tasks.store@[t as int], self.tasks.store@.len()));
                    let is_child: bool = match self.tasks.store[t].parent {
                        Some(p) => self.tasks.store[p].id() == caller,
                        None => false,
                    };
                    if !is_child {
                        return Err("esrch");
                    }
                },
                None => {
                    return Err("esrch");
                },
            }
        }
        if let Some(t) = found {
            assert(self.tasks.map@.contains_key(target));
            self.put_in_group(t, to_signed_half(group));
        }
        Ok(0)
    }

    pub fn sys_getpgid(&self, pid: u64) -> (r: CallResult)
        requires
            self.wf(),
        ensures
            r == getpgid_result(*self, pid),
    {
        let target: u64 = if pid == 0 {
            match self.current_id() {
                Some(id) => id,
                None => 0,
            }
        } else {
            pid
        };
        if target == 0 {
            return Err("esrch");
        }
        match self.tasks.find(target) {
            Some(t) => {
                assert(self.tasks.map@.contains_key(target));
                Ok(extend(self.tasks.store[t].pgid))
            },
            None => Err("esrch"),
        }
    }

    /// Makes the task that runs the leader of a group of its own.
    pub fn sys_setsid(&mut self) -> (r: CallResult)
        requires
            old(self).wf(),
        ensures
            final(self).wf(),
            session_set(*old(self), *final(self), r),
    {
        match self.cur_task(0) {
            Some(t) => {
                assert(self.cpus@[0] == Some(t));
                let tid: u64 = self.tasks.store[t].id();
                if extend(self.tasks.store[t].pgid) == tid {
                    return Err("eperm");
                }
                self.put_in_group(t, to_signed_half(tid));
                Ok(tid)
            },
            None => Err("esrch"),
        }
    }
}

/// Once a task has exited, its parent has a pending `SIGCHLD`.
pub proof fn lemma_parent_hears_of_exit(
    before: Seq<Task>,
    gone: Seq<Task>,
    told: Seq<Task>,
    after: Seq<Task>,
    t: TaskRef,
    status: u64,
    init: Option<TaskRef>,
    p: TaskRef,
)
    requires
        t < before.len(),
        p < before.len(),
        before[t as int].parent == Some(p),
        exit_steps(before, gone, told, after, t, status, init),
    ensures
        task::is_done(after[t as int]),
        after[t as int].exit_code == status,
        task::has_signo(after[p as int].sig_queue@, SIGCHLD as i32),
{
    let id = bits::signed_word(gone[t as int].info.id) as i64;
    task::lemma_exit_is_final(before, gone, t, status);
    task::lemma_sent_signal_is_pending(gone[p as int], told[p as int], SIGCHLD as i32, id);
    assert(told[t as int].info == gone[t as int].info && told[t as int].exit_code
        == gone[t as int].exit_code);
    assert(after[t as int].info == told[t as int].info && after[t as int].exit_code
        == told[t as int].exit_code);
    assert(after[p as int].sig_queue == told[p as int].sig_queue);
}

/// After `setsid` the task is in the group of its own id, if that id is a positive
/// 32-bit number.
pub proof fn lemma_session_is_own_group(before: Kernel, after: Kernel, t: TaskRef, r: CallResult)
    requires
        kernel::running(before, 0) == Some(t),
        t < before.tasks.store@.len(),
        before.tasks.store@[t as int].info.id <= i32::MAX,
        session_set(before, after, r),
    ensures
        after.tasks.store@[t as int].pgid == before.tasks.store@[t as int].info.id,
{
}

/// A wait that answers a task answers one that is in the table and done: of the given
/// id, of the caller's group, or of the given group; for any task, the lowest id.
pub proof fn lemma_wait_answers_done_task(
    k: Kernel,
    p: i64,
    pid: u64,
    status: u64,
    options: u64,
    rusage: u64,
    x: u64,
)
    requires
        k.wf(),
        pid == if p >= 0 {
            p as int
        } else {
            p + 0x1_0000_0000_0000_0000
        },
        -i32::MAX <= p,
        wait_result(k, pid, status, options, rusage) == CallResult::Ok(x),
        x != 0,
    ensures
        k.tasks.map@.contains_key(x),
        k.tasks.store@[k.tasks.map@[x] as int].info.status is Some,
        p > 0 ==> x == p,
        p == -1 ==> forall|id: u64|
            id < x && #[trigger] k.tasks.map@.contains_key(id)
                ==> k.tasks.store@[k.tasks.map@[id] as int].info.status is None,
        p == 0 || p < -1 ==> exists|id: u64| #[trigger]
            k.tasks.map@.contains_key(id) && {
                let c = k.tasks.store@[k.tasks.map@[id] as int];
                &&& c.info.id == x
                &&& p == 0 ==> c.pgid == k.tasks.store@[kernel::running(k, 0)->0 as int].pgid
                &&& p < -1 ==> c.pgid == -p
            },
{
    let map = k.tasks.map@;
    let store = k.tasks.store@;
    assert(bits::signed_word(pid) == p);
    if p == -1 {
        let all = table::selected(map, store, table::Query::Done);
        assert(all.len() > 0 || nobody(options) == CallResult::Ok(x));
        assert(all.contains(all[0]));
        table::lemma_selected(map, store, table::Query::Done, all[0]);
        assert forall|id: u64| id < x && #[trigger] map.contains_key(id) implies store[map[id] as int].info.status is None by {
            table::lemma_selected(map, store, table::Query::Done, id);
            if all.contains(id) {
                let n = choose|n: int| 0 <= n < all.len() && all[n] == id;
                if n > 0 {
                    assert(all[0] < all[n]);
                }
            }
        }
    } else if p == 0 || p < -1 {
        let pgid = if p == 0 {
            store[kernel::running(k, 0)->0 as int].pgid
        } else {
            bits::signed_half((-p) as u64) as i32
        };
        let z = zombies_in(k.tasks, pgid);
        assert(z.contains(x)) by {
            if p == 0 {
                assert(z[z.len() - 1] == x);
            } else {
                assert(z[0] == x);
            }
        }
        let q = table::Query::Group(pgid);
        let ids = table::selected(map, store, q);
        let group = group_of(k.tasks, pgid);
        let names = group.map_values(|g: usize| store[g as int].info.id);
        table::lemma_filter_member(names, |id: u64| names_zombie(k.tasks, id), x);
        let n = choose|n: int| 0 <= n < names.len() && names[n] == x;
        let id = ids[n];
        assert(ids.contains(id));
        table::lemma_selected(map, store, q, id);
        assert(group[n] == map[id]);
    }
}

/// A wait that finds nobody says so: with 0 to a caller that does not want to wait, and
/// then no task of the given id, or none at all, is done; with an error to the others.
pub proof fn lemma_wait_without_done_task(
    k: Kernel,
    p: i64,
    pid: u64,
    status: u64,
    options: u64,
    rusage: u64,
)
    requires
        k.wf(),
        pid == if p >= 0 {
            p as int
        } else {
            p + 0x1_0000_0000_0000_0000
        },
        p > 0 || p == -1,
        forall|id: u64| #[trigger]
            k.tasks.map@.contains_key(id) && (p > 0 ==> id == p)
                ==> k.tasks.store@[k.tasks.map@[id] as int].info.status is None,
    ensures
        ({
            let r = wait_result(k, pid, status, options, rusage);
            &&& options % 2 == 0 ==> r is Err
            &&& p > 0 && !k.tasks.map@.contains_key(pid) ==> r is Err
            &&& options % 2 == 1 && status == 0 && rusage == 0 && (p > 0
                ==> k.tasks.map@.contains_key(pid)) ==> r == CallResult::Ok(0)
        }),
{
    let map = k.tasks.map@;
    let store = k.tasks.store@;
    assert(bits::signed_word(pid) == p);
    words::lemma_bitwise(options, 0, 0, 0);
    let all = table::selected(map, store, table::Query::Done);
    if p == -1 && all.len() > 0 {
        assert(all.contains(all[0]));
        table::lemma_selected(map, store, table::Query::Done, all[0]);
    }
}

/// What an exit leaves: the task has its code, its low eight bits for a status, no
/// files and no threads; its children, if the first task is there, have that for a
/// parent. Each pipe has lost the ends that the task held. Nobody else has changed.
pub proof fn lemma_exit_leaves(before: Kernel, after: Kernel, status: u64, r: CallResult, t: TaskRef)
    requires
        before.wf(),
        kernel::running(before, 0) == Some(t),
        exit_done(before, after, status, r),
    ensures
        ({
            let a = before.tasks.store@;
            let b = after.tasks.store@;
            &&& b.len() == a.len()
            &&& b[t as int].exit_code == status
            &&& b[t as int].info.status == Some((status % 256) as i32)
            &&& b[t as int].files@.len() == 0
            &&& b[t as int].threads@.len() == 0
            &&& b[t as int].info.id == a[t as int].info.id
            &&& before.tasks.map@.contains_key(1) ==> forall|k: int|
                0 <= k < a[t as int].subtasks@.len() ==> b[#[trigger] a[t as int].subtasks@[k] as int].parent
                    == Some(before.tasks.map@[1])
            &&& forall|j: int|
                0 <= j < a.len() && j != t && a[t as int].parent != Some(j as usize)
                    && !a[t as int].subtasks@.contains(j as usize) && before.tasks.map@[1] != j
                    ==> #[trigger] b[j].info == a[j].info && b[j].sig_queue@ == a[j].sig_queue@
                    && b[j].files@ == a[j].files@ && b[j].parent == a[j].parent
        }),
        r == CallResult::Ok(0),
        after.tasks.map@ == before.tasks.map@,
        after.pool@ == before.pool@,
        after.pipes@.len() == before.pipes@.len(),
        forall|i: int|
            0 <= i < before.pipes@.len() ==> (#[trigger] after.pipes@[i]).ends
                == before.pipes@[i].ends - task::hits(
                keys::listing(before.tasks.store@[t as int].files@),
                before.tasks.store@[t as int].files@,
                i,
            ) && after.pipes@[i].buf@ == before.pipes@[i].buf@,
{
    let a = before.tasks.store@;
    let b = after.tasks.store@;
    assert(before.cpus@[0] == Some(t));
    let init = first_task(before.tasks);
    let (gone, told) = choose|gone: Seq<Task>, told: Seq<Task>| #[trigger]
        exit_steps(a, gone, told, b, t, status, init);
    assert(table::links_ok(a[t as int], a.len()));
    assert(told[t as int].info == gone[t as int].info && told[t as int].exit_code
        == gone[t as int].exit_code && told[t as int].files@ == gone[t as int].files@
        && told[t as int].threads@ == gone[t as int].threads@ && told[t as int].subtasks
        == gone[t as int].subtasks);
    assert(b[t as int].info == told[t as int].info && b[t as int].exit_code
        == told[t as int].exit_code && b[t as int].files@ == told[t as int].files@
        && b[t as int].threads@ == told[t as int].threads@);
    let kids = a[t as int].subtasks@;
    if before.tasks.map@.contains_key(1) {
        let i = before.tasks.map@[1];
        assert forall|k: int| 0 <= k < kids.len() implies b[#[trigger] kids[k] as int].parent
            == Some(i) by {
            let c = kids[k];
            assert(c < a.len());
            assert(table::has_index(kids, c as int));
            assert(b[c as int].parent == table::new_parent(told[c as int], kids, Some(i), c as int));
        }
    }
    assert forall|j: int|
        0 <= j < a.len() && j != t && a[t as int].parent != Some(j as usize) && !kids.contains(
            j as usize,
        ) && before.tasks.map@[1] != j implies #[trigger] b[j].info == a[j].info && b[j].sig_queue@
        == a[j].sig_queue@ && b[j].files@ == a[j].files@ && b[j].parent == a[j].parent by {
        assert(!task::child_of(a[t as int], j));
        assert(gone[j] == a[j]);
        assert(told[j] == gone[j]);
        if init is Some {
            assert(b[j].parent == table::new_parent(told[j], kids, init, j));
            if table::has_index(kids, j) {
                let k = choose|k: int| 0 <= k < kids.len() && #[trigger] kids[k] == j;
                assert(kids.contains(kids[k]));
            }
        }
    }
    assert forall|i: int| 0 <= i < before.pipes@.len() implies (#[trigger] after.pipes@[i]).ends
        == before.pipes@[i].ends - task::hits(
        keys::listing(a[t as int].files@),
        a[t as int].files@,
        i,
    ) && after.pipes@[i].buf@ == before.pipes@[i].buf@ by {
        let n = task::hits(keys::listing(a[t as int].files@), a[t as int].files@, i);
        assert(task::closed_times(before.pipes@[i], after.pipes@[i], n));
    }
}

/// Two forks in a row answer different ids, one after the other.
pub proof fn lemma_forks_count_up(a: Kernel, b: Kernel, c: Kernel, x: u64, y: u64)
    requires
        fork_counted(a, b, Ok::<u64, &'static str>(x)),
        fork_counted(b, c, Ok::<u64, &'static str>(y)),
        a.tasks.seq < u64::MAX,
    ensures
        y == x + 1,
        b.tasks.map@ == a.tasks.map@,
        b.pool@ == a.pool@,
{
}

/// A fork is refused exactly if 91 percent of the frames are in use, or if the pages
/// that it counts, two for each task and one for each free frame up to 256, fill more
/// frames than are free. It takes no frame.
pub proof fn lemma_fork_wants_memory(before: Kernel, after: Kernel, r: CallResult)
    requires
        fork_fits(before),
        fork_counted(before, after, r),
    ensures
        ({
            let free = frames::count_free(before.pool@) as int;
            let small = if free < 256 {
                free
            } else {
                256
            };
            r is Err <==> (PHYSICAL_FRAME_COUNT - free) * 100 >= 91 * PHYSICAL_FRAME_COUNT || small
                + 2 * before.tasks.map@.len() >= (free + 1) * PAGE_SIZE
        }),
        after.pool@ == before.pool@,
{
}

/// A program can be started exactly if the path, and each vector that is given, can be
/// read; more than that is not looked at.
pub proof fn lemma_exec_wants_readable(path: u64, argv: u64, envp: u64)
    ensures
        exec_result(path, argv, envp) is Ok <==> path != 0 && files::reachable(
            path,
            files::PATH_SIZE,
        ) && (argv == 0 || files::reachable(argv, VECTOR_SIZE)) && (envp == 0 || files::reachable(
            envp,
            VECTOR_SIZE,
        )),
        exec_result(path, argv, envp) is Ok ==> exec_result(path, 0, 0) is Ok,
{
}

/// A task that was put into a group is found there: asking for its group gives the
/// number it was put in with. Nobody else changes group.
pub proof fn lemma_group_reads_back(
    before: Kernel,
    after: Kernel,
    pid: u64,
    pgid: u64,
    r: CallResult,
    j: int,
)
    requires
        before.wf(),
        group_set(before, after, pid, pgid, r),
        r is Ok,
        pid != 0,
        0 < pgid <= i32::MAX,
        before.tasks.map@.contains_key(pid),
        0 <= j < before.tasks.store@.len(),
    ensures
        getpgid_result(after, pid) == CallResult::Ok(pgid),
        before.tasks.map@[pid] != j ==> after.tasks.store@[j] == before.tasks.store@[j],
        after.tasks.map@ == before.tasks.map@,
{
}

/// Only oneself and one's own children can be put into a group.
pub proof fn lemma_group_of_strangers(
    before: Kernel,
    after: Kernel,
    pid: u64,
    pgid: u64,
    r: CallResult,
    t: TaskRef,
)
    requires
        before.wf(),
        group_set(before, after, pid, pgid, r),
        kernel::running(before, 0) == Some(t),
        t < before.tasks.store@.len(),
        pid != 0,
        pid != before.tasks.store@[t as int].info.id,
        before.tasks.map@.contains_key(pid) ==> match before.tasks.store@[before.tasks.map@[pid] as int].parent {
            Some(p) => before.tasks.store@[p as int].info.id
                != before.tasks.store@[t as int].info.id,
            None => true,
        },
    ensures
        r is Err,
        after == before,
{
}

/// A task and its parent are told apart by their ids.
pub proof fn lemma_ids_of_running_task(k: Kernel, t: TaskRef, p: TaskRef)
    requires
        kernel::running(k, 0) == Some(t),
        k.tasks.store@[t as int].parent == Some(p),
    ensures
        getpid_result(k) == CallResult::Ok(k.tasks.store@[t as int].info.id),
        getppid_result(k) == CallResult::Ok(k.tasks.store@[p as int].info.id),
{
}

/// A task can always put itself into a group, by its id or by 0, and each of its
/// children; 0 for the group makes the task lead one of its own.
pub proof fn lemma_group_of_own(
    before: Kernel,
    after: Kernel,
    pid: u64,
    pgid: u64,
    r: CallResult,
    t: TaskRef,
)
    requires
        before.wf(),
        group_set(before, after, pid, pgid, r),
        kernel::running(before, 0) == Some(t),
        t < before.tasks.store@.len(),
        pid == 0 || pid == before.tasks.store@[t as int].info.id || (before.tasks.map@.contains_key(
            pid,
        ) && (before.tasks.store@[before.tasks.map@[pid] as int].parent matches Some(p)
            && before.tasks.store@[p as int].info.id == before.tasks.store@[t as int].info.id)),
        pgid <= i32::MAX,
        before.tasks.store@[t as int].info.id <= i32::MAX,
        pid <= i32::MAX,
    ensures
        r == CallResult::Ok(0),
        ({
            let target = if pid == 0 {
                before.tasks.store@[t as int].info.id
            } else {
                pid
            };
            before.tasks.map@.contains_key(target)
                ==> after.tasks.store@[before.tasks.map@[target] as int].pgid == if pgid == 0 {
                target
            } else {
                pgid
            }
        }),
{
}

/// The group of a task is told by its id, or by 0 for the caller; nobody has the group
/// of an id that is not there.
pub proof fn lemma_group_is_told(k: Kernel, pid: u64, t: TaskRef)
    requires
        kernel::running(k, 0) == Some(t),
        k.tasks.store@[t as int].info.id != 0,
    ensures
        getpgid_result(k, 0) == getpgid_result(k, k.tasks.store@[t as int].info.id),
        pid != 0 ==> (getpgid_result(k, pid) is Ok <==> k.tasks.map@.contains_key(pid)),
        pid != 0 && k.tasks.map@.contains_key(pid) && k.tasks.store@[k.tasks.map@[pid] as int].pgid
            >= 0 ==> getpgid_result(k, pid) == CallResult::Ok(
            k.tasks.store@[k.tasks.map@[pid] as int].pgid as u64,
        ),
{
}

/// A session is made by a task that does not lead its group, and only by a task.
pub proof fn lemma_session_is_refused(before: Kernel, after: Kernel, r: CallResult)
    requires
        session_set(before, after, r),
    ensures
        kernel::running(before, 0) is None ==> r is Err && after == before,
        r is Err ==> after == before,
        kernel::running(before, 0) matches Some(t) ==> {
            let p = before.tasks.store@[t as int];
            &&& 0 <= p.pgid && p.pgid == p.info.id ==> r is Err
            &&& 0 <= p.pgid && p.pgid != p.info.id ==> r == CallResult::Ok(p.info.id)
        },
{
}

/// Without a task that runs, the first task and nobody are meant, and an exit or a wait
/// for the own group has nothing to do.
pub proof fn lemma_calls_without_task(before: Kernel, after: Kernel, status: u64, r: CallResult, options: u64)
    requires
        kernel::running(before, 0) is None,
        exit_done(before, after, status, r),
    ensures
        getpid_result(before) == CallResult::Ok(1),
        getppid_result(before) == CallResult::Ok(0),
        r == CallResult::Ok(0) && after == before,
        wait_result(before, 0, 0, options, 0) is Err,
        getpgid_result(before, 0) is Err,
{
}

/// A wait is refused that is to leave something where the user may not.
pub proof fn lemma_wait_wants_room(k: Kernel, pid: u64, status: u64, options: u64, rusage: u64)
    requires
        status != 0 && !files::reachable(status, 4) || rusage != 0 && !files::reachable(
            rusage,
            RUSAGE_SIZE,
        ),
    ensures
        wait_result(k, pid, status, options, rusage) == CallResult::Err("efault"),
{
}

/// Where a wait leaves its answers does not change the answer, as long as it may leave
/// them there.
pub proof fn lemma_wait_answers_alike(k: Kernel, pid: u64, status: u64, options: u64, rusage: u64)
    requires
        files::reachable(status, 4),
        files::reachable(rusage, RUSAGE_SIZE),
    ensures
        wait_result(k, pid, status, options, rusage) == wait_result(k, pid, 0, options, 0),
{
}

/// A task without a parent has nobody for one.
pub proof fn lemma_orphan_has_no_parent(k: Kernel, t: TaskRef)
    requires
        kernel::running(k, 0) == Some(t),
        k.tasks.store@[t as int].parent is None,
    ensures
        getppid_result(k) == CallResult::Ok(0),
{
}

} // verus!
