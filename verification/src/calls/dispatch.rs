//! The dispatch of system calls.
use crate::calls::events;
use crate::calls::files;
use crate::calls::memory;
use crate::calls::memory::CallResult;
use crate::calls::signals;
use crate::calls::tasks;
use crate::consts::{
    SYS_BRK, SYS_CLOCK_GETTIME, SYS_CLOSE, SYS_DUP, SYS_DUP2, SYS_EPOLL_CREATE, SYS_EPOLL_CTL,
    SYS_EPOLL_WAIT, SYS_EXEC, SYS_EXIT, SYS_FCNTL, SYS_FORK, SYS_FSTAT, SYS_FUTEX, SYS_GETPGID,
    SYS_GETPID, SYS_GETPPID, SYS_IOCTL, SYS_KILL, SYS_MMAP, SYS_MUNMAP, SYS_OPEN, SYS_PIPE,
    SYS_READ, SYS_SETPGID, SYS_SETSID, SYS_SIGACTION, SYS_SIGPROCMASK, SYS_STAT, SYS_WAIT4,
    SYS_WRITE,
};
use crate::process::kernel;
use crate::process::kernel::Kernel;
use crate::trap::timer::Clock;
use vstd::prelude::*;

verus! {

/// The arithmetic of the call stays within machine numbers.
pub open spec fn call_fits(
    k: Kernel,
    tick: u64,
    nr: u64,
    a0: u64,
    a1: u64,
    a2: u64,
    a3: u64,
    a4: u64,
    a5: u64,
) -> bool {
    &&& nr == SYS_MMAP ==> memory::mmap_fits(tick, a0, a1, a3, a4)
    &&& nr == SYS_DUP ==> files::dup_fits(k, a0)
    &&& nr == SYS_DUP2 ==> files::dup2_fits(k, a0, a1)
    &&& nr == SYS_FORK ==> tasks::fork_fits(k)
    &&& nr == SYS_EXIT ==> tasks::exit_fits(k)
    &&& nr == SYS_WAIT4 ==> tasks::wait_fits(a0, a1, a3)
    &&& nr == SYS_KILL ==> signals::kill_fits(a0, a1)
    &&& nr == SYS_FCNTL ==> files::fcntl_fits(tick, a0, a1, a2)
    &&& nr == SYS_FUTEX ==> events::futex_fits(a0, a1, a2, a4, a5)
}

/// The answer of a call that changes nothing, if it is one.
pub open spec fn query_result(
    k: Kernel,
    tick: u64,
    nr: u64,
    a0: u64,
    a1: u64,
    a2: u64,
    a3: u64,
    a4: u64,
    a5: u64,
) -> Option<CallResult> {
    if nr == SYS_READ {
        Some(files::read_result(k, a0, a1, a2))
    } else if nr == SYS_STAT || nr == SYS_FSTAT {
        Some(files::stat_result(nr == SYS_STAT, a0, a1))
    } else if nr == SYS_MMAP {
        Some(memory::mmap_result(k, tick, a0, a1, a3, a4, a5))
    } else if nr == SYS_MUNMAP {
        Some(memory::munmap_result(a0))
    } else if nr == SYS_IOCTL {
        Some(files::ioctl_result(a1, a2))
    } else if nr == SYS_EXEC {
        Some(tasks::exec_result(a0, a1, a2))
    } else if nr == SYS_WAIT4 {
        Some(tasks::wait_result(k, a0, a1, a2, a3))
    } else if nr == SYS_FCNTL {
        Some(files::fcntl_result(k, tick, a0, a1, a2))
    } else if nr == SYS_GETPID {
        Some(tasks::getpid_result(k))
    } else if nr == SYS_GETPPID {
        Some(tasks::getppid_result(k))
    } else if nr == SYS_GETPGID {
        Some(tasks::getpgid_result(k, a0))
    } else if nr == SYS_EPOLL_CREATE {
        Some(events::epoll_create_result(a0))
    } else if nr == SYS_EPOLL_CTL {
        Some(events::epoll_ctl_result(a1, a3))
    } else if nr == SYS_EPOLL_WAIT {
        Some(events::epoll_wait_result(a1, a2))
    } else if nr == SYS_CLOCK_GETTIME {
        Some(events::clock_result(a0, a1))
    } else if nr == SYS_SIGACTION {
        Some(signals::sigaction_result(a0, a1, a2))
    } else if nr == SYS_FUTEX {
        Some(events::futex_result(k, a0, a1, a2, a3, a4, a5))
    } else {
        None
    }
}

/// What a call answers and does.
pub open spec fn served(
    before: Kernel,
    after: Kernel,
    tick: u64,
    nr: u64,
    a0: u64,
    a1: u64,
    a2: u64,
    a3: u64,
    a4: u64,
    a5: u64,
    r: CallResult,
) -> bool {
    match query_result(before, tick, nr, a0, a1, a2, a3, a4, a5) {
        Some(answer) => r == answer && after == before,
        None => if nr == SYS_WRITE {
            files::written(before, after, a0, a1, a2, r)
        } else if nr == SYS_OPEN {
            files::opened(before, after, a0, a1, r)
        } else if nr == SYS_CLOSE {
            files::closed(before, after, a0, r)
        } else if nr == SYS_BRK {
            memory::brk_moved(before, after, a0, r)
        } else if nr == SYS_PIPE {
            files::pipe_made(before, after, a0, r)
        } else if nr == SYS_DUP {
            files::duplicated(before, a0, r) && after == before
        } else if nr == SYS_DUP2 {
            files::redirected(before, after, a0, a1, r)
        } else if nr == SYS_FORK {
            tasks::fork_counted(before, after, r)
        } else if nr == SYS_EXIT {
            tasks::exit_done(before, after, a0, r)
        } else if nr == SYS_KILL {
            signals::killed(before, after, a0, a1, r)
        } else if nr == SYS_SETPGID {
            tasks::group_set(before, after, a0, a1, r)
        } else if nr == SYS_SETSID {
            tasks::session_set(before, after, r)
        } else if nr == SYS_SIGPROCMASK {
            signals::mask_set(before, after, a0, a1, a2, r)
        } else {
            r == CallResult::Err("enosys") && after == before
        },
    }
}

impl Kernel {
    /// Serves a system call with six argument words.
    pub fn dispatch_syscall(
        &mut self,
        nr: u64,
        a0: u64,
        a1: u64,
        a2: u64,
        a3: u64,
        a4: u64,
        a5: u64,
        clock: &Clock,
    ) -> (r: CallResult)
        requires
            old(self).wf(),
            call_fits(*old(self), clock.tick, nr, a0, a1, a2, a3, a4, a5),
        ensures
            final(self).wf(),
            served(*old(self), *final(self), clock.tick, nr, a0, a1, a2, a3, a4, a5, r),
    {
        if nr == SYS_READ {
            self.sys_read(a0, a1, a2)
        } else if nr == SYS_WRITE {
            self.sys_write(a0, a1, a2)
        } else if nr == SYS_OPEN {
            self.sys_open(a0, a1)
        } else if nr == SYS_CLOSE {
            self.sys_close(a0)
        } else if nr == SYS_STAT || nr == SYS_FSTAT {
            self.sys_stat(nr == SYS_STAT, a0, a1)
        } else if nr == SYS_MMAP {
            self.sys_mmap(clock.tick, a0, a1, a3, a4, a5)
        } else if nr == SYS_MUNMAP {
            self.sys_munmap(a0)
        } else if nr == SYS_BRK {
            self.sys_brk(a0)
        } else if nr == SYS_IOCTL {
            self.sys_ioctl(a1, a2)
        } else if nr == SYS_PIPE {
            self.sys_pipe(a0)
        } else if nr == SYS_DUP {
            self.sys_dup(a0)
        } else if nr == SYS_DUP2 {
            self.sys_dup2(a0, a1)
        } else if nr == SYS_FORK {
            self.sys_fork()
        } else if nr == SYS_EXEC {
            self.sys_exec(a0, a1, a2)
        } else if nr == SYS_EXIT {
            self.sys_exit(a0)
        } else if nr == SYS_WAIT4 {
            self.sys_wait4(a0, a1, a2, a3)
        } else if nr == SYS_KILL {
            self.sys_kill(a0, a1)
        } else if nr == SYS_FCNTL {
            self.sys_fcntl(clock.tick, a0, a1, a2)
        } else if nr == SYS_GETPID {
            self.sys_getpid()
        } else if nr == SYS_GETPPID {
            self.sys_getppid()
        } else if nr == SYS_SETPGID {
            self.sys_setpgid(a0, a1)
        } else if nr == SYS_GETPGID {
            self.sys_getpgid(a0)
        } else if nr == SYS_SETSID {
            self.sys_setsid()
        } else if nr == SYS_EPOLL_CREATE {
            self.sys_epoll_create(a0)
        } else if nr == SYS_EPOLL_CTL {
            self.sys_epoll_ctl(a1, a3)
        } else if nr == SYS_EPOLL_WAIT {
            self.sys_epoll_wait(a1, a2)
        } else if nr == SYS_CLOCK_GETTIME {
            self.sys_clock_gettime(a0, a1)
        } else if nr == SYS_SIGACTION {
            self.sys_sigaction(a0, a1, a2)
        } else if nr == SYS_SIGPROCMASK {
            self.sys_sigprocmask(a0, a1, a2)
        } else if nr == SYS_FUTEX {
            self.sys_futex(a0, a1, a2, a3, a4, a5)
        } else {
            Err("enosys")
        }
    }
}

/// A call that is refused changes nothing. The two that may have changed something
/// before they fail are left out: `fork` uses up an id, and `dup2` closes its target.
pub proof fn lemma_refused_call_changes_nothing(
    before: Kernel,
    after: Kernel,
    tick: u64,
    nr: u64,
    a0: u64,
    a1: u64,
    a2: u64,
    a3: u64,
    a4: u64,
    a5: u64,
    r: CallResult,
)
    requires
        served(before, after, tick, nr, a0, a1, a2, a3, a4, a5, r),
        r is Err,
        nr != SYS_FORK,
        nr != SYS_DUP2,
    ensures
        after == before,
{
}

/// No call adds a task, removes one, or puts another one on a processor.
pub proof fn lemma_calls_keep_tasks(
    before: Kernel,
    after: Kernel,
    tick: u64,
    nr: u64,
    a0: u64,
    a1: u64,
    a2: u64,
    a3: u64,
    a4: u64,
    a5: u64,
    r: CallResult,
)
    requires
        served(before, after, tick, nr, a0, a1, a2, a3, a4, a5, r),
    ensures
        after.tasks.map@ == before.tasks.map@,
        after.tasks.store@.len() == before.tasks.store@.len(),
        after.cpus == before.cpus,
{
}

/// Which words of a call are which argument, for the calls that change something.
pub proof fn lemma_arguments_of_changes(
    before: Kernel,
    after: Kernel,
    tick: u64,
    a0: u64,
    a1: u64,
    a2: u64,
    a3: u64,
    a4: u64,
    a5: u64,
    r: CallResult,
)
    ensures
        served(before, after, tick, SYS_WRITE, a0, a1, a2, a3, a4, a5, r) ==> files::written(
            before,
            after,
            a0,
            a1,
            a2,
            r,
        ),
        served(before, after, tick, SYS_OPEN, a0, a1, a2, a3, a4, a5, r) ==> files::opened(
            before,
            after,
            a0,
            a1,
            r,
        ),
        served(before, after, tick, SYS_CLOSE, a0, a1, a2, a3, a4, a5, r) ==> files::closed(
            before,
            after,
            a0,
            r,
        ),
        served(before, after, tick, SYS_BRK, a0, a1, a2, a3, a4, a5, r) ==> memory::brk_moved(
            before,
            after,
            a0,
            r,
        ),
        served(before, after, tick, SYS_PIPE, a0, a1, a2, a3, a4, a5, r) ==> files::pipe_made(
            before,
            after,
            a0,
            r,
        ),
        served(before, after, tick, SYS_DUP2, a0, a1, a2, a3, a4, a5, r) ==> files::redirected(
            before,
            after,
            a0,
            a1,
            r,
        ),
        served(before, after, tick, SYS_EXIT, a0, a1, a2, a3, a4, a5, r) ==> tasks::exit_done(
            before,
            after,
            a0,
            r,
        ),
        served(before, after, tick, SYS_KILL, a0, a1, a2, a3, a4, a5, r) ==> signals::killed(
            before,
            after,
            a0,
            a1,
            r,
        ),
        served(before, after, tick, SYS_SETPGID, a0, a1, a2, a3, a4, a5, r) ==> tasks::group_set(
            before,
            after,
            a0,
            a1,
            r,
        ),
        served(before, after, tick, SYS_SIGPROCMASK, a0, a1, a2, a3, a4, a5, r)
            ==> signals::mask_set(before, after, a0, a1, a2, r),
{
}

/// A call that only asks changes nothing; which words it asks by.
pub proof fn lemma_arguments_of_queries(
    before: Kernel,
    after: Kernel,
    tick: u64,
    nr: u64,
    a0: u64,
    a1: u64,
    a2: u64,
    a3: u64,
    a4: u64,
    a5: u64,
    r: CallResult,
)
    requires
        served(before, after, tick, nr, a0, a1, a2, a3, a4, a5, r),
    ensures
        nr == SYS_READ ==> after == before && r == files::read_result(before, a0, a1, a2),
        nr == SYS_MMAP ==> after == before && r == memory::mmap_result(
            before,
            tick,
            a0,
            a1,
            a3,
            a4,
            a5,
        ),
        nr == SYS_MUNMAP ==> after == before && r == memory::munmap_result(a0),
        nr == SYS_WAIT4 ==> after == before && r == tasks::wait_result(before, a0, a1, a2, a3),
        nr == SYS_EXEC ==> after == before && r == tasks::exec_result(a0, a1, a2),
        nr == SYS_GETPID ==> after == before && r == tasks::getpid_result(before),
        nr == SYS_GETPPID ==> after == before && r == tasks::getppid_result(before),
        nr == SYS_GETPGID ==> after == before && r == tasks::getpgid_result(before, a0),
        nr == SYS_STAT || nr == SYS_FSTAT ==> after == before && r == files::stat_result(
            nr == SYS_STAT,
            a0,
            a1,
        ),
        nr == SYS_FUTEX ==> after == before && r == events::futex_result(
            before,
            a0,
            a1,
            a2,
            a3,
            a4,
            a5,
        ),
        nr == SYS_DUP ==> after == before && files::duplicated(before, a0, r),
        nr == SYS_FCNTL ==> after == before && r == files::fcntl_result(before, tick, a0, a1, a2),
{
}

/// Only a write, a close, a kill, an exit, a pipe, an open, a redirection, a move of the
/// heap, a fork, a new group or session and a new mask can change the kernel; the frames
/// only a move of the heap, and the pipes only what makes or closes ends.
pub proof fn lemma_what_calls_change(
    before: Kernel,
    after: Kernel,
    tick: u64,
    nr: u64,
    a0: u64,
    a1: u64,
    a2: u64,
    a3: u64,
    a4: u64,
    a5: u64,
    r: CallResult,
)
    requires
        served(before, after, tick, nr, a0, a1, a2, a3, a4, a5, r),
    ensures
        nr != SYS_BRK ==> after.pool == before.pool,
        nr != SYS_PIPE && nr != SYS_DUP2 && nr != SYS_EXIT ==> after.pipes == before.pipes,
        nr != SYS_WRITE && nr != SYS_CLOSE ==> after.cache == before.cache && after.disk
            == before.disk,
        nr != SYS_FORK ==> after.tasks.seq == before.tasks.seq,
        after.runqueue == before.runqueue,
        after.mnt == before.mnt,
        after.sem_store == before.sem_store,
        after.shm_store == before.shm_store,
{
}

} // verus!
