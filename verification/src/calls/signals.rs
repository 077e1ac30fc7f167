//! System calls on signals.
use crate::bits;
use crate::bits::{to_signed, to_signed_half};
use crate::calls::files;
use crate::calls::memory::CallResult;
use crate::calls::tasks;
use crate::consts::{NSIG, SIGKILL, SIGSTOP, UNMASKABLE};
use crate::memory::addr::check_access;
use crate::process::kernel;
use crate::process::kernel::Kernel;
use crate::process::table;
use crate::process::table::{signal_each, TaskTable};
use crate::process::task;
use crate::process::task::{Task, TaskRef};
use crate::seqs;
use crate::util::words;
use vstd::prelude::*;

verus! {

broadcast use vstd::std_specs::btree::group_btree_axioms;

/// Bytes of a signal-action record.
pub const SIGACTION_SIZE: u64 = 32;

/// A signal that a task can neither mask nor handle.
pub open spec fn is_forced(sig: u64) -> bool {
    sig == SIGKILL || sig == SIGSTOP
}

/// Every task that is not done, but for the first.
pub open spec fn everyone(tasks: TaskTable) -> Seq<usize> {
    table::tasks_of(
        tasks.map@,
        table::selected(tasks.map@, tasks.store@, table::Query::NotDone).filter(
            |id: u64| id > 1,
        ),
    )
}

/// Only the listed tasks have changed: each was sent the signal.
pub open spec fn sent(before: Kernel, after: Kernel, list: Seq<usize>, sig: u64) -> bool {
    &&& after == (Kernel { tasks: after.tasks, ..before })
    &&& after.tasks == (TaskTable { store: after.tasks.store, ..before.tasks })
    &&& table::all_signalled(
        before.tasks.store@,
        after.tasks.store@,
        list,
        sig as i32,
        -1i64,
    )
}

/// The signal was sent to a list of tasks, or the call failed because there are none.
pub open spec fn sent_to_some(
    before: Kernel,
    after: Kernel,
    list: Seq<usize>,
    sig: u64,
    r: CallResult,
) -> bool {
    if list.len() == 0 {
        r == CallResult::Err("esrch") && after == before
    } else {
        r == CallResult::Ok(list.len() as u64) && sent(before, after, list, sig)
    }
}

/// The group of a request that is not refused has a number.
pub open spec fn kill_fits(pid: u64, sig: u64) -> bool {
    sig <= NSIG ==> pid != 0x8000_0000_0000_0000
}

/// Who a signal goes to: a task, the own group, everyone, or another group.
pub open spec fn killed(before: Kernel, after: Kernel, pid: u64, sig: u64, r: CallResult) -> bool {
    let p = bits::signed_word(pid);
    if sig > NSIG {
        r == CallResult::Err("einval") && after == before
    } else if is_forced(sig) && -1 <= p <= 1 {
        r == CallResult::Err("eperm") && after == before
    } else if p == 0 {
        match kernel::running(before, 0) {
            Some(t) => {
                let group = tasks::group_of(
                    before.tasks,
                    before.tasks.store@[t as int].pgid,
                );
                r == CallResult::Ok(group.len() as u64) && sent(before, after, group, sig)
            },
            None => r == CallResult::Ok(0) && after == before,
        }
    } else if p == -1 {
        sent_to_some(before, after, everyone(before.tasks), sig, r)
    } else if p > 0 {
        if !before.tasks.map@.contains_key(pid) || tasks::names_zombie(before.tasks, pid) && sig
            != 0 {
            r == CallResult::Err("esrch") && after == before
        } else {
            &&& r == CallResult::Ok(0)
            &&& sent(before, after, seq![before.tasks.map@[pid]], sig)
        }
    } else {
        sent_to_some(
            before,
            after,
            tasks::group_of(before.tasks, bits::signed_half((-p) as u64) as i32),
            sig,
            r,
        )
    }
}

pub open spec fn sigaction_result(signo: u64, act: u64, oldact: u64) -> CallResult {
    if !is_forced(signo) {
        Err("einval")
    } else if act != 0 && !files::reachable(act, SIGACTION_SIZE) {
        Err("efault")
    } else if oldact != 0 && !files::reachable(oldact, SIGACTION_SIZE) {
        Err("efault")
    } else {
        Ok(0)
    }
}

/// The mask after a change: signals are added, removed, or all set anew. The two
/// forced ones are never added.
pub open spec fn new_mask(mask: u64, how: u64, set: u64) -> Option<u64> {
    if how == 0 {
        Some((mask | set) & !UNMASKABLE)
    } else if how == 1 {
        Some(mask & !set)
    } else if how == 2 {
        Some(set & !UNMASKABLE)
    } else {
        None
    }
}

/// The mask of the task that runs is changed. The set is the second word itself.
pub open spec fn mask_set(
    before: Kernel,
    after: Kernel,
    how: u64,
    set: u64,
    oldset: u64,
    r: CallResult,
) -> bool {
    if set != 0 && !files::reachable(set, 8) || oldset != 0 && !files::reachable(oldset, 8) {
        r == CallResult::Err("efault") && after == before
    } else {
        match kernel::running(before, 0) {
            Some(t) => {
                let p = before.tasks.store@[t as int];
                if set == 0 {
                    r == CallResult::Ok(0) && after == before
                } else {
                    match new_mask(p.sig_mask, how, set) {
                        Some(mask) => {
                            &&& r == CallResult::Ok(0)
                            &&& after == (Kernel { tasks: after.tasks, ..before })
                            &&& table::only_task(before.tasks, after.tasks, t)
                            &&& after.tasks.store@[t as int] == (Task { sig_mask: mask, ..p })
                        },
                        None => r == CallResult::Err("einval") && after == before,
                    }
                }
            },
            None => r == CallResult::Ok(0) && after == before,
        }
    }
}

impl Kernel {
    /// Sends a signal to each of the listed tasks.
    fn send_to(&mut self, list: &Vec<TaskRef>, sig: u64)
        requires
            old(self).wf(),
            sig <= NSIG,
            forall|k: int| 0 <= k < list@.len() ==> #[trigger] list@[k] < old(self).tasks.store@.len(),
        ensures
            final(self).wf(),
            sent(*old(self), *final(self), list@, sig),
    {
        let signo: i32 = sig as i32;
        signal_each(&mut self.tasks.store, list, signo, -1);
        proof {
            table::lemma_signalled_links(
                old(self).tasks.store@,
                self.tasks.store@,
                list@,
                signo,
                -1i64,
            );
            kernel::lemma_same_holdings(*old(self), *self);
        }
    }

    /// The tasks that are not done, but for the first.
    fn list_everyone(&self) -> (r: Vec<TaskRef>)
        requires
            self.wf(),
        ensures
            r@ == everyone(self.tasks),
            forall|k: int| 0 <= k < r@.len() ==> #[trigger] r@[k] < self.tasks.store@.len(),
    {
        let active = self.tasks.active_tasks();
        let ghost ids = active@;
        let ghost p = |id: u64| id > 1;
        let mut others: Vec<u64> = Vec::new();
        let mut i: usize = 0;
        proof {
            reveal(Seq::filter);
            assert(ids.take(0) =~= Seq::<u64>::empty());
        }
        while i < active.len()
            invariant
                i <= active@.len(),
                ids == active@,
                p == (|id: u64| id > 1),
                forall|k: int| 0 <= k < ids.len() ==> self.tasks.map@.contains_key(#[trigger] ids[k]),
                others@ == ids.take(i as int).filter(p),
                forall|k: int|
                    0 <= k < others@.len() ==> self.tasks.map@.contains_key(#[trigger] others@[k]),
            decreases active@.len() - i,
        {
            let id: u64 = active[i];
            proof {
                assert(self.tasks.map@.contains_key(ids[i as int]));
                seqs::lemma_filter_step(ids, i as int, p);
            }
            if id > 1 {
                others.push(id);
            }
            i = i + 1;
        }
        assert(ids.take(i as int) =~= ids);
        self.tasks.handles(&others)
    }

    /// Sends a signal.
    pub fn sys_kill(&mut self, pid: u64, sig: u64) -> (r: CallResult)
        requires
            old(self).wf(),
            kill_fits(pid, sig),
        ensures
            final(self).wf(),
            killed(*old(self), *final(self), pid, sig, r),
    {
        if sig > NSIG as u64 {
            return Err("einval");
        }
        let p: i64 = to_signed(pid);
        if sig == SIGKILL as u64 || sig == SIGSTOP as u64 {
            let target_pid: i64 = if p < 0 {
                -p
            } else {
                p
            };
            if target_pid <= 1 {
                return Err("eperm");
            }
        }
        if p == 0 {
            match self.cur_task(0) {
                Some(t) => {
                    assert(self.cpus@[0] == Some(t));
                    let group = self.tasks.pgid_group(self.tasks.store[t].pgid);
                    self.send_to(&group, sig);
                    Ok(group.len() as u64)
                },
                None => Ok(0),
            }
        } else if p == -1 {
            let all = self.list_everyone();
            if all.len() == 0 {
                return Err("esrch");
            }
            self.send_to(&all, sig);
            Ok(all.len() as u64)
        } else if p > 0 {
            match self.tasks.find(pid) {
                Some(t) => {
                    assert(self.tasks.map@.contains_key(pid));
                    if self.tasks.store[t].done() && sig != 0 {
                        return Err("esrch");
                    }
                    let mut one: Vec<TaskRef> = Vec::new();
                    one.push(t);
                    assert(one@ =~= seq![t]);
                    self.send_to(&one, sig);
                    Ok(0)
                },
                None => Err("esrch"),
            }
        } else {
            let group = self.tasks.pgid_group(to_signed_half((-p) as u64));
            if group.len() == 0 {
                return Err("esrch");
            }
            self.send_to(&group, sig);
            Ok(group.len() as u64)
        }
    }

    /// Checks the arguments of a signal action.
    pub fn sys_sigaction(&self, signo: u64, act_addr: u64, oldact_addr: u64) -> (r: CallResult)
        ensures
            r == sigaction_result(signo, act_addr, oldact_addr),
    {
        if signo == 0 || signo >= NSIG as u64 {
            return Err("einval");
        }
        if signo != SIGKILL as u64 && signo != SIGSTOP as u64 {
            return Err("einval");
        }
        if act_addr != 0 && !check_access(act_addr, SIGACTION_SIZE) {
            return Err("efault");
        }
        if oldact_addr != 0 && !check_access(oldact_addr, SIGACTION_SIZE) {
            return Err("efault");
        }
        Ok(0)
    }

    /// Changes the signal mask of the task that runs.
    pub fn sys_sigprocmask(&mut self, how: u64, set_addr: u64, oldset_addr: u64) -> (r: CallResult)
        requires
            old(self).wf(),
        ensures
            final(self).wf(),
            mask_set(*old(self), *final(self), how, set_addr, oldset_addr, r),
            kernel::running(*old(self), 0) matches Some(t) ==> ({
                let a = old(self).tasks.store@[t as int].sig_mask;
                let b = final(self).tasks.store@[t as int].sig_mask;
                &&& how == 0 ==> a & b == a
                &&& how == 1 ==> b & a == b
                &&& b & UNMASKABLE == 0
            }),
    {
        proof {
            if let Some(t) = kernel::running(*self, 0) {
                assert(self.cpus@[0] == Some(t));
                let p = self.tasks.store@[t as int];
                assert(kernel::task_ok(p, self.pipes@, self.sem_store, self.shm_store));
                lemma_block_keeps(p.sig_mask, set_addr);
            }
        }
        if set_addr != 0 && !check_access(set_addr, 8) {
            return Err("efault");
        }
        if oldset_addr != 0 && !check_access(oldset_addr, 8) {
            return Err("efault");
        }
        match self.cur_task(0) {
            Some(t) => {
                assert(self.cpus@[0] == Some(t));
                assert(table::links_ok(self.tasks.store@[t as int], self.tasks.store@.len()));
                if set_addr != 0 {
                    let mask: u64 = self.tasks.store[t].sig_mask;
                    let changed: u64 = if how == 0 {
                        (mask | set_addr) & !UNMASKABLE
                    } else if how == 1 {
                        mask & !set_addr
                    } else if how == 2 {
                        set_addr & !UNMASKABLE
                    } else {
                        return Err("einval");
                    };
                    self.tasks.store[t].sig_mask = changed;
                    proof {
                        let p = old(self).tasks.store@[t as int];
                        assert(kernel::task_ok(p, self.pipes@, self.sem_store, self.shm_store));
                        lemma_forced_stay_unmasked(mask, how, set_addr);
                        kernel::lemma_one_task(*old(self), *self, t);
                    }
                }
                Ok(0)
            },
            None => Ok(0),
        }
    }
}

/// No change of the mask masks one of the forced signals.
pub proof fn lemma_forced_stay_unmasked(mask: u64, how: u64, set: u64)
    requires
        mask & UNMASKABLE == 0,
    ensures
        new_mask(mask, how, set) matches Some(m) ==> m & UNMASKABLE == 0,
{
    assert(((mask | set) & !0x8_0200u64) & 0x8_0200u64 == 0 && (set & !0x8_0200u64) & 0x8_0200u64
        == 0 && (mask & 0x8_0200u64 == 0 ==> (mask & !set) & 0x8_0200u64 == 0)) by (bit_vector);
}

/// A signal that was sent is pending with each task that it was sent to.
pub proof fn lemma_sent_is_pending(before: Kernel, after: Kernel, list: Seq<usize>, sig: u64, k: int)
    requires
        sent(before, after, list, sig),
        0 <= k < list.len(),
        list[k] < before.tasks.store@.len(),
    ensures
        task::has_signo(after.tasks.store@[list[k] as int].sig_queue@, sig as i32),
{
    let j = list[k] as int;
    assert(table::has_index(list, j));
    task::lemma_sent_signal_is_pending(
        before.tasks.store@[j],
        after.tasks.store@[j],
        sig as i32,
        -1i64,
    );
}

/// Blocking keeps every signal that was masked and masks those of the set, but for the
/// two that cannot be masked; unblocking takes those of the set away and leaves the
/// rest; setting masks those of the set and no other. Any other request is refused.
pub proof fn lemma_mask_changes_by_signal(
    before: Kernel,
    after: Kernel,
    how: u64,
    set: u64,
    oldset: u64,
    r: CallResult,
    t: TaskRef,
    s: u64,
)
    requires
        mask_set(before, after, how, set, oldset, r),
        kernel::running(before, 0) == Some(t),
        t < before.tasks.store@.len(),
        before.tasks.store@[t as int].sig_mask & UNMASKABLE == 0,
        set != 0,
        s < 64,
    ensures
        r is Err ==> after == before,
        how > 2 ==> r is Err,
        r is Ok ==> ({
            let a = before.tasks.store@[t as int].sig_mask;
            let b = after.tasks.store@[t as int].sig_mask;
            let free = s != SIGKILL && s != SIGSTOP;
            &&& how == 0 ==> a & b == a
            &&& how == 0 ==> (words::bit(b, s) <==> words::bit(a, s) || words::bit(set, s) && free)
            &&& how == 1 ==> (words::bit(b, s) <==> words::bit(a, s) && !words::bit(set, s))
            &&& how == 2 ==> (words::bit(b, s) <==> words::bit(set, s) && free)
        }),
        forall|j: int|
            0 <= j < before.tasks.store@.len() && j != t ==> #[trigger] after.tasks.store@[j]
                == before.tasks.store@[j],
{
    let a = before.tasks.store@[t as int].sig_mask;
    words::lemma_bitwise(a | set, !UNMASKABLE, s, 0);
    words::lemma_bitwise(a, set, s, 0);
    words::lemma_bitwise(a, !set, s, 0);
    words::lemma_bitwise(set, !UNMASKABLE, s, 0);
    words::lemma_bitwise(set, 0, s, 0);
    words::lemma_bitwise(a, UNMASKABLE, s, 0);
    words::lemma_bitwise(UNMASKABLE, 0, s, 0);
    words::lemma_bitwise(0, 0, s, 0);
    lemma_block_keeps(a, set);
}

/// What is blocked and then unblocked again is not masked; what was masked and is not
/// of the set still is.
pub proof fn lemma_unblock_after_block(mask: u64, set: u64, s: u64)
    requires
        mask & UNMASKABLE == 0,
        s < 64,
    ensures
        ({
            let mid = new_mask(mask, 0, set)->0;
            let end = new_mask(mid, 1, set)->0;
            words::bit(end, s) <==> words::bit(mask, s) && !words::bit(set, s)
        }),
{
    let mid = (mask | set) & !UNMASKABLE;
    words::lemma_bitwise(mask | set, !UNMASKABLE, s, 0);
    words::lemma_bitwise(mask, set, s, 0);
    words::lemma_bitwise(mid, !set, s, 0);
    words::lemma_bitwise(set, 0, s, 0);
    words::lemma_bitwise(mask, UNMASKABLE, s, 0);
    words::lemma_bitwise(UNMASKABLE, 0, s, 0);
    words::lemma_bitwise(0, 0, s, 0);
}

proof fn lemma_block_keeps(mask: u64, set: u64)
    requires
        mask & UNMASKABLE == 0,
    ensures
        mask & ((mask | set) & !UNMASKABLE) == mask,
        (mask & !set) & mask == mask & !set,
        mask & mask == mask,
{
    assert(mask & 0x8_0200u64 == 0 ==> mask & ((mask | set) & !0x8_0200u64) == mask && (mask & !set)
        & mask == mask & !set && mask & mask == mask) by (bit_vector);
}

/// Whom a signal reaches: the task of the id, for a positive number; every task of the
/// caller's group, for 0; every task but the first that is not done, for -1; every task
/// of the group, for another negative number. It is then pending there; no other task
/// changes.
pub proof fn lemma_kill_reaches(
    before: Kernel,
    after: Kernel,
    p: i64,
    pid: u64,
    sig: u64,
    r: CallResult,
    j: int,
)
    requires
        before.wf(),
        pid == if p >= 0 {
            p as int
        } else {
            p + 0x1_0000_0000_0000_0000
        },
        killed(before, after, pid, sig, r),
        r is Ok,
        p == 0 ==> kernel::running(before, 0) is Some,
        -i32::MAX <= p,
        0 <= j < before.tasks.store@.len(),
    ensures
        ({
            let x = before.tasks.store@[j];
            let reached = exists|id: u64| #[trigger]
                before.tasks.map@.contains_key(id) && before.tasks.map@[id] == j && {
                    &&& p > 0 ==> id == p
                    &&& p == 0 ==> x.pgid == before.tasks.store@[kernel::running(
                        before,
                        0,
                    )->0 as int].pgid
                    &&& p == -1 ==> id > 1 && x.info.status is None
                    &&& p < -1 ==> x.pgid == -p
                };
            &&& reached ==> task::has_signo(after.tasks.store@[j].sig_queue@, sig as i32)
            &&& !reached ==> after.tasks.store@[j] == x
        }),
        after.tasks.map@ == before.tasks.map@,
{
    let map = before.tasks.map@;
    let store = before.tasks.store@;
    let x = store[j];
    assert(bits::signed_word(pid) == p);
    let list: Seq<usize> = if p == 0 {
        tasks::group_of(before.tasks, store[kernel::running(before, 0)->0 as int].pgid)
    } else if p == -1 {
        everyone(before.tasks)
    } else if p > 0 {
        seq![map[pid]]
    } else {
        tasks::group_of(before.tasks, bits::signed_half((-p) as u64) as i32)
    };
    assert(sent(before, after, list, sig));
    if p > 0 {
        assert(list[0] == map[pid]);
    } else if p == -1 {
        let all = table::selected(map, store, table::Query::NotDone);
        let f = |id: u64| id > 1;
        table::lemma_tasks_of_ids(map, all.filter(f), j);
        assert forall|id: u64| #[trigger] all.filter(f).contains(id) <==> map.contains_key(id) && id
            > 1 && store[map[id] as int].info.status is None by {
            table::lemma_filter_member(all, f, id);
            table::lemma_selected(map, store, table::Query::NotDone, id);
        }
    } else {
        let pgid = if p == 0 {
            store[kernel::running(before, 0)->0 as int].pgid
        } else {
            bits::signed_half((-p) as u64) as i32
        };
        let q = table::Query::Group(pgid);
        let ids = table::selected(map, store, q);
        table::lemma_tasks_of_ids(map, ids, j);
        assert forall|id: u64| #[trigger] ids.contains(id) <==> map.contains_key(id)
            && store[map[id] as int].pgid == pgid by {
            table::lemma_selected(map, store, q, id);
        }
    }
    let pgid = if p == 0 {
        store[kernel::running(before, 0)->0 as int].pgid
    } else {
        bits::signed_half((-p) as u64) as i32
    };
    let named = |id: u64|
        map.contains_key(id) && map[id] == j && (p > 0 ==> id == p) && (p == 0 ==> x.pgid == pgid)
            && (p == -1 ==> id > 1 && x.info.status is None) && (p < -1 ==> x.pgid == -p);
    if exists|id: u64| #[trigger] map.contains_key(id) && named(id) {
        let id = choose|id: u64| #[trigger] map.contains_key(id) && named(id);
        if p > 0 {
            assert(list[0] == j);
        } else if p == -1 {
            let f = |id: u64| id > 1;
            assert(table::selected(map, store, table::Query::NotDone).filter(f).contains(id));
        } else {
            assert(table::selected(map, store, table::Query::Group(pgid)).contains(id));
        }
        assert(table::has_index(list, j));
    }
    if table::has_index(list, j) {
        if p > 0 {
            assert(map.contains_key(pid) && named(pid));
        } else if p == -1 {
            let f = |id: u64| id > 1;
            let ids = table::selected(map, store, table::Query::NotDone).filter(f);
            let id = choose|id: u64| #[trigger] ids.contains(id) && map[id] == j;
            assert(map.contains_key(id) && named(id));
        } else {
            let ids = table::selected(map, store, table::Query::Group(pgid));
            let id = choose|id: u64| #[trigger] ids.contains(id) && map[id] == j;
            assert(map.contains_key(id) && named(id));
        }
        task::lemma_sent_signal_is_pending(x, after.tasks.store@[j], sig as i32, -1i64);
    }
}

/// Signals that do not exist, and the kill and stop signals for everyone or for the
/// first task, are refused; nothing changes then.
pub proof fn lemma_kill_refused(before: Kernel, after: Kernel, p: i64, pid: u64, sig: u64, r: CallResult)
    requires
        pid == if p >= 0 {
            p as int
        } else {
            p + 0x1_0000_0000_0000_0000
        },
        killed(before, after, pid, sig, r),
    ensures
        sig > 64 ==> r is Err,
        (sig == 9 || sig == 19) && (p == 1 || p == 0 || p == -1) ==> r is Err,
        p > 0 && !before.tasks.map@.contains_key(pid) ==> r is Err,
        r is Err ==> after == before,
{
    assert(bits::signed_word(pid) == p);
}

/// A mask changes only where a set is given and a task runs; a call without either is
/// answered and changes nothing, and one with an address that the user may not use is
/// refused.
pub proof fn lemma_mask_without_set(
    before: Kernel,
    after: Kernel,
    how: u64,
    set: u64,
    oldset: u64,
    r: CallResult,
)
    requires
        mask_set(before, after, how, set, oldset, r),
    ensures
        set != 0 && !files::reachable(set, 8) ==> r is Err && after == before,
        oldset != 0 && !files::reachable(oldset, 8) ==> r is Err && after == before,
        (set == 0 || files::reachable(set, 8)) && (oldset == 0 || files::reachable(oldset, 8)) && (
        set == 0 || kernel::running(before, 0) is None) ==> r == CallResult::Ok(0) && after
            == before,
        (set == 0 || files::reachable(set, 8)) && (oldset == 0 || files::reachable(oldset, 8)) && how
            <= 2 ==> r == CallResult::Ok(0),
{
}

/// An action can be asked for and set for the two forced signals only, if the records
/// that are given can be used.
pub proof fn lemma_action_wants_records(signo: u64, act: u64, oldact: u64)
    ensures
        sigaction_result(signo, act, oldact) is Ok <==> (signo == SIGKILL || signo == SIGSTOP) && (
        act == 0 || files::reachable(act, SIGACTION_SIZE)) && (oldact == 0 || files::reachable(
            oldact,
            SIGACTION_SIZE,
        )),
        sigaction_result(signo, act, oldact) matches Ok(n) ==> n == 0,
{
}

/// A signal to one task answers 0, and so does one to the group of nobody.
pub proof fn lemma_kill_answers(before: Kernel, after: Kernel, p: i64, pid: u64, sig: u64, n: u64)
    requires
        pid == if p >= 0 {
            p as int
        } else {
            p + 0x1_0000_0000_0000_0000
        },
        killed(before, after, pid, sig, Ok::<u64, &'static str>(n)),
    ensures
        p > 0 ==> n == 0,
        p == 0 && kernel::running(before, 0) is None ==> n == 0 && after == before,
        p == -1 ==> everyone(before.tasks).len() > 0,
{
    assert(bits::signed_word(pid) == p);
}

} // verus!
