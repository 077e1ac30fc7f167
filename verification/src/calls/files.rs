//! System calls on files and descriptors.
use crate::bits;
use crate::calls::memory::CallResult;
use crate::consts::{
    FD_CLOEXEC, FIOCLEX, FIONBIO, FIONCLEX, F_DUPFD, F_DUPFD_CLOEXEC, F_GETFD, F_GETFL, F_GETLK,
    F_SETFD, F_SETFL, F_SETLK, F_SETLKW, N_PROC, O_APPEND, O_CLOEXEC, O_NONBLOCK,
    PAGE_SIZE, TCGETS, TCSETS, TERMIOS_SIZE, TIOCGPGRP, TIOCGWINSZ, TIOCSPGRP, WINSIZE_SIZE,
};
use crate::fs::block::Disk;
use crate::fs::cache;
use crate::fs::file;
use crate::fs::file::{FHandle, FLike, FdOpt};
use crate::fs::pipe::{PipeDir, PipeNode};
use crate::keys;
use crate::keys::first_free;
use crate::memory::addr;
use crate::memory::addr::check_access;
use crate::process::kernel;
use crate::process::kernel::Kernel;
use crate::process::table;
use crate::process::task;
use crate::process::task::{Task, TaskRef};
use crate::util::words;
use vstd::prelude::*;

verus! {

broadcast use vstd::std_specs::btree::group_btree_axioms;

/// The highest number of a descriptor, plus one.
pub const FD_LIMIT: u64 = N_PROC * 4;

/// Bytes of a file-status record.
pub const STAT_SIZE: u64 = 144;

/// Bytes of a path that are looked at.
pub const PATH_SIZE: u64 = 256;

/// Bytes of a lock record.
pub const FLOCK_SIZE: u64 = 32;

/// Bytes of a pair of descriptors.
pub const FD_PAIR_SIZE: u64 = 8;

/// The user can reach `len` bytes at `at`.
pub open spec fn reachable(at: u64, len: u64) -> bool {
    addr::user_range(at as int, len as int)
}

/// `Ok(0)` if the user can reach the record, else a fault.
pub open spec fn record_at(at: u64, len: u64) -> CallResult {
    if reachable(at, len) {
        Ok(0)
    } else {
        Err("efault")
    }
}

/// The block of this number is cached.
pub open spec fn is_cached(k: Kernel, id: u64) -> bool {
    cache::holds_id(k.cache@[k.cache.chain_of(id)], id)
}

/// The block of this number is cached and modified.
pub open spec fn is_dirty(k: Kernel, id: u64) -> bool {
    let items = k.cache@[k.cache.chain_of(id)];
    exists|i: int| 0 <= i < items.len() && (#[trigger] items[i]).id == id && items[i].modified
}

/// The answer of a transfer that moves nothing, if it is one.
pub open spec fn no_transfer(buf: u64, count: u64) -> Option<CallResult> {
    if count == 0 {
        Some(Ok(0))
    } else if buf == 0 || !reachable(buf, count) {
        Some(Err("efault"))
    } else {
        None
    }
}

/// A cached read leaves one page of a long transfer to the next read; another one
/// moves at most 16 pages.
pub open spec fn read_result(k: Kernel, fd: u64, buf: u64, count: u64) -> CallResult {
    match no_transfer(buf, count) {
        Some(r) => r,
        None => if is_cached(k, fd) {
            if count > PAGE_SIZE {
                Ok((count - PAGE_SIZE) as u64)
            } else {
                Ok(count)
            }
        } else if count > 16 * PAGE_SIZE {
            Ok(65536)
        } else {
            Ok(count)
        },
    }
}

/// What a write reports: the bytes, and those in front of the buffer in its first
/// page if it runs over the end of that page.
pub open spec fn write_len(buf: u64, count: u64) -> int {
    let off = buf as int % (PAGE_SIZE as int);
    if count <= PAGE_SIZE - off {
        count as int
    } else {
        count + off
    }
}

/// A write marks the block as modified; one to a standard descriptor goes to the disk.
pub open spec fn written(
    before: Kernel,
    after: Kernel,
    fd: u64,
    buf: u64,
    count: u64,
    r: CallResult,
) -> bool {
    match no_transfer(buf, count) {
        Some(answer) => r == answer && after == before,
        None => {
            let c = before.cache.chain_of(fd);
            &&& r == CallResult::Ok(write_len(buf, count) as u64)
            &&& after == (Kernel {
                cache: after.cache,
                disk: Disk {
                    ops: if fd <= 2 {
                        before.disk.ops.wrapping_add(1)
                    } else {
                        before.disk.ops
                    },
                    ..before.disk
                },
                ..before
            })
            &&& after.cache.width == before.cache.width
            &&& after.cache@ == before.cache@.update(c, cache::marked(before.cache@[c], fd))
        },
    }
}

/// How a file is opened.
pub open spec fn open_options(flags: u64) -> FdOpt {
    FdOpt {
        rd: flags & 0x3 == 0 || flags & 0x3 == 2,
        wr: flags & 0x3 == 1 || flags & 0x3 == 2,
        ap: flags & O_APPEND != 0,
        nb: flags & O_NONBLOCK != 0,
    }
}

/// The handle of a file that was opened with these flags.
pub open spec fn is_opened(f: FLike, flags: u64) -> bool {
    &&& f matches FLike::File(h) && {
        &&& h.path@ == "anon"@
        &&& h.opt == open_options(flags)
        &&& !h.pipe
        &&& h.cloexec == (flags & O_CLOEXEC != 0)
    }
}

/// Opening gives the task that runs the lowest free descriptor; without a task the
/// descriptor is made up from the path.
pub open spec fn opened(before: Kernel, after: Kernel, path: u64, flags: u64, r: CallResult) -> bool {
    if path == 0 || !reachable(path, PATH_SIZE) {
        r == CallResult::Err("efault") && after == before
    } else if flags & 0o100 != 0 && flags & 0o200 != 0 && is_cached(before, path) {
        r == CallResult::Err("eexist") && after == before
    } else {
        match kernel::running(before, 0) {
            Some(t) => {
                let p = before.tasks.store@[t as int];
                let q = after.tasks.store@[t as int];
                &&& after == (Kernel { tasks: after.tasks, ..before })
                &&& table::only_task(before.tasks, after.tasks, t)
                &&& q == (Task { files: q.files, ..p })
                &&& r matches Ok(fd) && {
                    &&& keys::lowest_free(p.files@, 0, fd)
                    &&& q.files@ == p.files@.insert(fd, q.files@[fd])
                    &&& is_opened(q.files@[fd], flags)
                }
            },
            None => r == CallResult::Ok((3 + path % 64) as u64) && after == before,
        }
    }
}

/// Closing drops the block of the descriptor from the cache.
pub open spec fn closed(before: Kernel, after: Kernel, fd: u64, r: CallResult) -> bool {
    if fd > FD_LIMIT {
        r == CallResult::Err("ebadf") && after == before
    } else {
        let c = before.cache.chain_of(fd);
        &&& r == CallResult::Ok(0)
        &&& after == (Kernel {
            cache: after.cache,
            disk: Disk {
                ops: if is_cached(before, fd) {
                    before.disk.ops.wrapping_add(1)
                } else {
                    before.disk.ops
                },
                ..before.disk
            },
            ..before
        })
        &&& after.cache.width == before.cache.width
        &&& after.cache@ == before.cache@.update(
            c,
            before.cache@[c].filter(|s: cache::CacheSlot| s.id != fd),
        )
    }
}

pub open spec fn stat_result(by_path: bool, target: u64, stat_buf: u64) -> CallResult {
    if stat_buf == 0 || !reachable(stat_buf, STAT_SIZE) {
        Err("efault")
    } else if by_path && !reachable(target, PATH_SIZE) {
        Err("efault")
    } else {
        Ok(0)
    }
}

pub open spec fn ioctl_result(cmd: u64, arg: u64) -> CallResult {
    if cmd == TCGETS || cmd == TCSETS {
        record_at(arg, TERMIOS_SIZE)
    } else if cmd == TIOCGPGRP || cmd == TIOCSPGRP || cmd == FIONBIO {
        record_at(arg, 4)
    } else if cmd == TIOCGWINSZ {
        record_at(arg, WINSIZE_SIZE)
    } else if cmd == FIONCLEX || cmd == FIOCLEX {
        Ok(0)
    } else {
        Err("enotty")
    }
}

/// Two descriptors in one word, the first in the low half.
pub open spec fn packed(rd: u64, wr: u64) -> u64 {
    rd | (wr << 32u64)
}

/// A pipe takes the two lowest free descriptors of the task that runs.
pub open spec fn pipe_made(before: Kernel, after: Kernel, fds: u64, r: CallResult) -> bool {
    if fds == 0 || !reachable(fds, FD_PAIR_SIZE) {
        r == CallResult::Err("efault") && after == before
    } else {
        match kernel::running(before, 0) {
            Some(t) => if before.tasks.store@[t as int].files@.len() + 2 > N_PROC {
                r == CallResult::Err("emfile") && after == before
            } else {
                exists|rd: u64, wr: u64| #[trigger]
                    kernel::piped(before, after, t, rd, wr) && r == CallResult::Ok(packed(rd, wr))
            },
            None => r == CallResult::Err("esrch") && after == before,
        }
    }
}

/// A copy of `old_fd` that is not refused finds a free number.
pub open spec fn dup_fits(k: Kernel, old_fd: u64) -> bool {
    old_fd < FD_LIMIT ==> (kernel::running(k, 0) matches Some(t) ==> keys::has_free(
        k.tasks.store@[t as int].files@,
        old_fd,
    ))
}

/// A redirection that reaches the table of the task that runs can close pipe ends.
pub open spec fn dup2_fits(k: Kernel, old_fd: u64, new_fd: u64) -> bool {
    old_fd < FD_LIMIT && new_fd < FD_LIMIT && old_fd != new_fd && kernel::running(k, 0) is Some
        ==> task::ends_left(k.pipes@, 2)
}

/// The descriptor that a copy of `old_fd` would get; the table stays as it is.
pub open spec fn duplicated(k: Kernel, old_fd: u64, r: CallResult) -> bool {
    if old_fd >= FD_LIMIT {
        r == CallResult::Err("ebadf")
    } else {
        match kernel::running(k, 0) {
            Some(t) => r matches Ok(fd) && keys::lowest_free(
                k.tasks.store@[t as int].files@,
                old_fd,
                fd,
            ),
            None => r == CallResult::Ok((old_fd + 1) as u64),
        }
    }
}

/// What was at `new_fd` is closed, and `new_fd` becomes a copy of `old_fd`.
pub open spec fn redirected(before: Kernel, after: Kernel, old_fd: u64, new_fd: u64, r: CallResult) -> bool {
    if old_fd >= FD_LIMIT || new_fd >= FD_LIMIT {
        r == CallResult::Err("ebadf") && after == before
    } else if old_fd == new_fd {
        r == CallResult::Ok(new_fd) && after == before
    } else {
        match kernel::running(before, 0) {
            Some(t) => {
                let p = before.tasks.store@[t as int];
                let q = after.tasks.store@[t as int];
                let files = p.files@;
                &&& after == (Kernel { tasks: after.tasks, pipes: after.pipes, ..before })
                &&& table::only_task(before.tasks, after.tasks, t)
                &&& q == (Task { files: q.files, ..p })
                &&& if files.contains_key(old_fd) {
                    &&& r == CallResult::Ok(new_fd)
                    &&& q.files@ == files.insert(new_fd, q.files@[new_fd])
                    &&& file::dup_of(files[old_fd], q.files@[new_fd], false)
                    &&& task::pipes_closed(
                        before.pipes@,
                        after.pipes@,
                        |i: int|
                            task::replaced_hit(files, new_fd, i) + task::hit(files[old_fd], i),
                    )
                } else {
                    &&& r == CallResult::Err("ebadf")
                    &&& q.files@ == files.remove(new_fd)
                    &&& task::pipes_closed(
                        before.pipes@,
                        after.pipes@,
                        |i: int| task::replaced_hit(files, new_fd, i),
                    )
                }
            },
            None => r == CallResult::Ok(new_fd) && after == before,
        }
    }
}

/// The larger of two numbers.
pub open spec fn larger(a: u64, b: u64) -> u64 {
    if a > b {
        a
    } else {
        b
    }
}

/// The descriptors that `fcntl` makes up stay within machine words.
pub open spec fn fcntl_fits(tick: u64, fd: u64, cmd: u64, arg: u64) -> bool {
    fd < FD_LIMIT ==> {
        &&& cmd == F_DUPFD ==> larger(fd, arg) + (tick & 0x3) <= u64::MAX
        &&& cmd == F_DUPFD_CLOEXEC ==> larger(fd, arg) < u64::MAX
    }
}

pub open spec fn fcntl_result(k: Kernel, tick: u64, fd: u64, cmd: u64, arg: u64) -> CallResult {
    if fd >= FD_LIMIT {
        Err("ebadf")
    } else if cmd == F_DUPFD {
        Ok((larger(fd, arg) + (tick & 0x3)) as u64)
    } else if cmd == F_DUPFD_CLOEXEC {
        Ok((larger(fd, arg) + 1) as u64)
    } else if cmd == F_GETFD {
        Ok(
            if is_dirty(k, fd) {
                FD_CLOEXEC
            } else {
                0
            },
        )
    } else if cmd == F_SETFD {
        Ok(0)
    } else if cmd == F_GETFL {
        Ok(
            if fd <= 2 {
                O_NONBLOCK | O_APPEND
            } else {
                O_NONBLOCK
            },
        )
    } else if cmd == F_SETFL {
        if arg & !(O_NONBLOCK | O_APPEND) != 0 {
            Err("einval")
        } else {
            Ok(0)
        }
    } else if cmd == F_GETLK || cmd == F_SETLK || cmd == F_SETLKW {
        record_at(arg, FLOCK_SIZE)
    } else {
        Err("einval")
    }
}

fn check_record(at: u64, len: u64) -> (r: CallResult)
    ensures
        r == record_at(at, len),
{
    if !check_access(at, len) {
        return Err("efault");
    }
    Ok(0)
}

proof fn lemma_file_change(before: Kernel, after: Kernel, t: usize)
    requires
        before.wf(),
        t < before.tasks.store@.len(),
        after == (Kernel { tasks: after.tasks, pipes: after.pipes, ..before }),
        after.pipes@.len() >= before.pipes@.len(),
        table::only_task(before.tasks, after.tasks, t),
        ({
            let p = before.tasks.store@[t as int];
            let q = after.tasks.store@[t as int];
            &&& q == (Task { files: q.files, ..p })
            &&& task::files_wf(q.files@, after.pipes@)
        }),
    ensures
        after.wf(),
{
    kernel::lemma_same_tables(before.tasks.store@, after.tasks.store@);
    let n = before.tasks.store@.len();
    assert forall|i: int| 0 <= i < n implies table::links_ok(#[trigger] after.tasks.store@[i], n)
        && kernel::task_ok(
        after.tasks.store@[i],
        after.pipes@,
        after.sem_store,
        after.shm_store,
    ) by {
        let a = before.tasks.store@[i];
        assert(table::links_ok(a, n));
        assert(kernel::task_ok(a, before.pipes@, before.sem_store, before.shm_store));
        if i != t {
            assert(after.tasks.store@[i] == a);
            assert forall|fd: u64| #[trigger] a.files@.contains_key(fd) implies (file::pipe_of(
                a.files@[fd],
            ) matches Some(x) ==> x.wf(after.pipes@)) by {
            }
        }
    }
}

impl Kernel {
    /// How many bytes a read would move.
    pub fn sys_read(&self, fd: u64, buf_addr: u64, count: u64) -> (r: CallResult)
        requires
            self.wf(),
        ensures
            r == read_result(*self, fd, buf_addr, count),
    {
        if buf_addr == 0 && count > 0 {
            return Err("efault");
        }
        if count == 0 {
            return Ok(0);
        }
        if !check_access(buf_addr, count) {
            return Err("efault");
        }
        proof {
            bits::lemma_page_mask(buf_addr);
            bits::lemma_page_mask((buf_addr + count) as u64);
        }
        let page_start: u64 = buf_addr & !(PAGE_SIZE - 1);
        let page_end: u64 = (buf_addr + count) & !(PAGE_SIZE - 1);
        let page_span: u64 = (page_end - page_start) / PAGE_SIZE;
        if self.cache.contains(fd) {
            let available: u64 = (page_span + 1) * PAGE_SIZE;
            let transfer: u64 = if count < available {
                count
            } else {
                available
            };
            let readahead: u64 = if transfer > PAGE_SIZE {
                PAGE_SIZE
            } else {
                0
            };
            return Ok(transfer - readahead);
        }
        let max_single_read: u64 = PAGE_SIZE * 16;
        if count > max_single_read {
            Ok(max_single_read)
        } else {
            Ok(count)
        }
    }

    /// Marks the block of a descriptor as modified.
    pub fn sys_write(&mut self, fd: u64, buf_addr: u64, count: u64) -> (r: CallResult)
        requires
            old(self).wf(),
        ensures
            final(self).wf(),
            written(*old(self), *final(self), fd, buf_addr, count, r),
    {
        if buf_addr == 0 && count > 0 {
            return Err("efault");
        }
        if count == 0 {
            return Ok(0);
        }
        if !check_access(buf_addr, count) {
            return Err("efault");
        }
        let page_off: u64 = buf_addr % PAGE_SIZE;
        let remaining_in_page: u64 = PAGE_SIZE - page_off;
        let actual_len: u64 = if count <= remaining_in_page {
            count
        } else {
            let full_pages: u64 = (count - remaining_in_page) / PAGE_SIZE;
            let tail: u64 = (count - remaining_in_page) % PAGE_SIZE;
            remaining_in_page + full_pages * PAGE_SIZE + tail + page_off
        };
        self.cache.mark_modified(fd);
        if fd <= 2 {
            self.disk.ops = self.disk.ops.wrapping_add(1);
        }
        Ok(actual_len)
    }

    /// Opens a file in the task that runs.
    pub fn sys_open(&mut self, path_addr: u64, flags: u64) -> (r: CallResult)
        requires
            old(self).wf(),
        ensures
            final(self).wf(),
            opened(*old(self), *final(self), path_addr, flags, r),
    {
        if path_addr == 0 {
            return Err("efault");
        }
        if !check_access(path_addr, PATH_SIZE) {
            return Err("efault");
        }
        let acc_mode: u64 = flags & 0x3;
        let create: bool = (flags & 0o100) != 0;
        let excl: bool = (flags & 0o200) != 0;
        if create && excl {
            if self.cache.contains(path_addr) {
                return Err("eexist");
            }
        }
        match self.cur_task(0) {
            Some(t) => {
                assert(self.cpus@[0] == Some(t));
                let ghost p = self.tasks.store@[t as int];
                assert(kernel::task_ok(p, self.pipes@, self.sem_store, self.shm_store));
                let opt = FdOpt {
                    rd: acc_mode == 0 || acc_mode == 2,
                    wr: acc_mode == 1 || acc_mode == 2,
                    ap: (flags & O_APPEND) != 0,
                    nb: (flags & O_NONBLOCK) != 0,
                };
                let handle = FHandle::new("anon", opt, false, (flags & O_CLOEXEC) != 0);
                let fd: u64 = self.tasks.store[t].add_file(FLike::File(handle));
                proof {
                    let q = self.tasks.store@[t as int];
                    assert forall|k: u64| #[trigger] q.files@.contains_key(k) implies (
                    file::pipe_of(q.files@[k]) matches Some(x) ==> x.wf(self.pipes@)) by {
                        if k != fd {
                            assert(p.files@.contains_key(k));
                        }
                    }
                    lemma_file_change(*old(self), *self, t);
                }
                Ok(fd)
            },
            None => Ok(3 + (path_addr % 64)),
        }
    }

    /// Drops the block of a descriptor from the cache.
    pub fn sys_close(&mut self, fd: u64) -> (r: CallResult)
        requires
            old(self).wf(),
        ensures
            final(self).wf(),
            closed(*old(self), *final(self), fd, r),
    {
        if fd > FD_LIMIT {
            return Err("ebadf");
        }
        if self.cache.drop_id(fd) {
            self.disk.ops = self.disk.ops.wrapping_add(1);
        }
        Ok(0)
    }

    /// Checks the arguments of a status query, by path or by descriptor.
    pub fn sys_stat(&self, by_path: bool, target: u64, stat_buf: u64) -> (r: CallResult)
        ensures
            r == stat_result(by_path, target, stat_buf),
    {
        if stat_buf == 0 {
            return Err("efault");
        }
        if !check_access(stat_buf, STAT_SIZE) {
            return Err("efault");
        }
        if by_path {
            if !check_access(target, PATH_SIZE) {
                return Err("efault");
            }
        }
        Ok(0)
    }

    /// Checks the argument of a device command.
    pub fn sys_ioctl(&self, cmd: u64, arg: u64) -> (r: CallResult)
        ensures
            r == ioctl_result(cmd, arg),
    {
        if cmd == TCGETS || cmd == TCSETS {
            check_record(arg, TERMIOS_SIZE)
        } else if cmd == TIOCGPGRP || cmd == TIOCSPGRP || cmd == FIONBIO {
            check_record(arg, 4)
        } else if cmd == TIOCGWINSZ {
            check_record(arg, WINSIZE_SIZE)
        } else if cmd == FIONCLEX || cmd == FIOCLEX {
            Ok(0)
        } else {
            Err("enotty")
        }
    }

    /// Makes a pipe in the task that runs; both descriptors come in one word.
    pub fn sys_pipe(&mut self, fds_addr: u64) -> (r: CallResult)
        requires
            old(self).wf(),
        ensures
            final(self).wf(),
            pipe_made(*old(self), *final(self), fds_addr, r),
    {
        if fds_addr == 0 {
            return Err("efault");
        }
        if !check_access(fds_addr, FD_PAIR_SIZE) {
            return Err("efault");
        }
        match self.cur_task(0) {
            Some(t) => {
                assert(self.cpus@[0] == Some(t));
                let fd_count: u64 = self.tasks.store[t].fd_count() as u64;
                if fd_count > N_PROC - 2 {
                    return Err("emfile");
                }
                let (rd, wr) = self.add_pipe(t);
                assert(kernel::piped(*old(self), *self, t, rd, wr));
                Ok(rd | (wr << 32u64))
            },
            None => Err("esrch"),
        }
    }

    /// The descriptor that a copy would get.
    pub fn sys_dup(&self, old_fd: u64) -> (r: CallResult)
        requires
            self.wf(),
            dup_fits(*self, old_fd),
        ensures
            duplicated(*self, old_fd, r),
    {
        if old_fd >= FD_LIMIT {
            return Err("ebadf");
        }
        match self.cur_task(0) {
            Some(t) => {
                assert(self.cpus@[0] == Some(t));
                Ok(first_free(&self.tasks.store[t].files, old_fd))
            },
            None => Ok(old_fd + 1),
        }
    }

    /// Makes `new_fd` a copy of `old_fd` in the task that runs.
    pub fn sys_dup2(&mut self, old_fd: u64, new_fd: u64) -> (r: CallResult)
        requires
            old(self).wf(),
            dup2_fits(*old(self), old_fd, new_fd),
        ensures
            final(self).wf(),
            redirected(*old(self), *final(self), old_fd, new_fd, r),
    {
        if old_fd >= FD_LIMIT {
            return Err("ebadf");
        }
        if new_fd >= FD_LIMIT {
            return Err("ebadf");
        }
        if old_fd == new_fd {
            return Ok(new_fd);
        }
        match self.cur_task(0) {
            Some(t) => {
                assert(self.cpus@[0] == Some(t));
                let ghost p = self.tasks.store@[t as int];
                assert(kernel::task_ok(p, self.pipes@, self.sem_store, self.shm_store));
                if self.tasks.store[t].files.contains_key(&old_fd) {
                    let r = self.tasks.store[t].dup2_fd(old_fd, new_fd, &mut self.pipes);
                    proof {
                        let q = self.tasks.store@[t as int];
                        assert forall|k: u64| #[trigger] q.files@.contains_key(k) implies (
                        file::pipe_of(q.files@[k]) matches Some(x) ==> x.wf(self.pipes@)) by {
                            if k != new_fd {
                                assert(p.files@.contains_key(k));
                            } else {
                                assert(p.files@.contains_key(old_fd));
                            }
                        }
                        lemma_file_change(*old(self), *self, t);
                    }
                    r
                } else {
                    let _gone = self.tasks.store[t].close_fd(new_fd, &mut self.pipes);
                    proof {
                        let q = self.tasks.store@[t as int];
                        assert forall|k: u64| #[trigger] q.files@.contains_key(k) implies (
                        file::pipe_of(q.files@[k]) matches Some(x) ==> x.wf(self.pipes@)) by {
                            assert(p.files@.contains_key(k));
                        }
                        lemma_file_change(*old(self), *self, t);
                    }
                    Err("ebadf")
                }
            },
            None => Ok(new_fd),
        }
    }

    /// Answers a descriptor command.
    pub fn sys_fcntl(&self, tick: u64, fd: u64, cmd: u64, arg: u64) -> (r: CallResult)
        requires
            self.wf(),
            fcntl_fits(tick, fd, cmd, arg),
        ensures
            r == fcntl_result(*self, tick, fd, cmd, arg),
    {
        if fd >= FD_LIMIT {
            return Err("ebadf");
        }
        let base: u64 = if fd > arg {
            fd
        } else {
            arg
        };
        if cmd == F_DUPFD {
            Ok(base + (tick & 0x3))
        } else if cmd == F_DUPFD_CLOEXEC {
            Ok(base + 1)
        } else if cmd == F_GETFD {
            Ok(
                if self.cache.contains_modified(fd) {
                    FD_CLOEXEC
                } else {
                    0
                },
            )
        } else if cmd == F_SETFD {
            Ok(0)
        } else if cmd == F_GETFL {
            Ok(
                if fd <= 2 {
                    O_NONBLOCK | O_APPEND
                } else {
                    O_NONBLOCK
                },
            )
        } else if cmd == F_SETFL {
            if arg & !(O_NONBLOCK | O_APPEND) != 0 {
                return Err("einval");
            }
            Ok(0)
        } else if cmd == F_GETLK || cmd == F_SETLK || cmd == F_SETLKW {
            check_record(arg, FLOCK_SIZE)
        } else {
            Err("einval")
        }
    }
}

/// Both descriptors of a pipe can be read back from the word.
pub proof fn lemma_packed_reads_back(rd: u64, wr: u64)
    requires
        rd <= 0xFFFF_FFFF,
        wr <= 0xFFFF_FFFF,
    ensures
        packed(rd, wr) & 0xFFFF_FFFF == rd,
        packed(rd, wr) >> 32u64 == wr,
{
    assert((rd | (wr << 32u64)) & 0xFFFF_FFFFu64 == rd && (rd | (wr << 32u64)) >> 32u64 == wr)
        by (bit_vector)
        requires
            rd <= 0xFFFF_FFFF,
            wr <= 0xFFFF_FFFF,
    ;
}

/// A read moves no more than was asked for, and something if anything was; an empty
/// one needs no buffer, and any other one needs a buffer that the user may use. A
/// short one is done in full. Of a cached block all but a page comes at once; of
/// another one at most 64 KiB.
pub proof fn lemma_read_moves(k: Kernel, fd: u64, buf: u64, count: u64)
    ensures
        ({
            let r = read_result(k, fd, buf, count);
            &&& count == 0 ==> r == CallResult::Ok(0)
            &&& count > 0 ==> (r is Err <==> buf == 0 || !reachable(buf, count))
            &&& r matches Ok(n) ==> {
                &&& n <= count
                &&& count > 0 ==> n > 0
                &&& count <= PAGE_SIZE ==> n == count
                &&& is_cached(k, fd) && count > PAGE_SIZE ==> n + PAGE_SIZE == count
                &&& !is_cached(k, fd) ==> n <= 65536 && (n < count ==> n == 65536)
            }
        }),
{
}

/// A write reports at least what was written, and exactly that if it stays in one page;
/// otherwise it counts from the start of the first page. The block, if it is cached,
/// is dirty then. Only the standard descriptors reach the disk.
pub proof fn lemma_write_moves(
    before: Kernel,
    after: Kernel,
    fd: u64,
    buf: u64,
    count: u64,
    r: CallResult,
)
    requires
        before.wf(),
        written(before, after, fd, buf, count, r),
    ensures
        count == 0 ==> r == CallResult::Ok(0) && after == before,
        count > 0 ==> (r is Err <==> buf == 0 || !reachable(buf, count)),
        r is Err ==> after == before,
        count > 0 ==> (r matches Ok(n) ==> {
            let off = buf % PAGE_SIZE;
            &&& off + count <= PAGE_SIZE ==> n == count
            &&& off + count > PAGE_SIZE ==> n == count + off
            &&& is_cached(before, fd) ==> is_dirty(after, fd)
            &&& after.disk.ops == if fd <= 2 {
                before.disk.ops.wrapping_add(1)
            } else {
                before.disk.ops
            }
            &&& after.tasks == before.tasks
            &&& after.pool == before.pool
        }),
{
    if count > 0 && r is Ok {
        let c = before.cache.chain_of(fd);
        let items = before.cache@[c];
        assert(0 <= c < before.cache@.len());
        assert(buf as int % (PAGE_SIZE as int) <= buf);
        if is_cached(before, fd) {
            cache::lemma_marked_is_modified(items, fd);
            let now = after.cache@[c];
            assert(now == cache::marked(items, fd));
            let i = choose|i: int|
                0 <= i < cache::marked(items, fd).len() && (#[trigger] cache::marked(
                    items,
                    fd,
                )[i]).id == fd && cache::marked(items, fd)[i].modified;
            assert(now[i].id == fd && now[i].modified);
            assert(after.cache@[after.cache.chain_of(fd)][i].id == fd);
            assert(is_dirty(after, fd));
        }
    }
}

/// How the low bits of the flags say what a file is opened for, and the others whether
/// it is appended to or waited for.
pub proof fn lemma_open_modes(flags: u64)
    ensures
        flags % 4 == 0 ==> open_options(flags).rd && !open_options(flags).wr,
        flags % 4 == 1 ==> !open_options(flags).rd && open_options(flags).wr,
        flags % 4 == 2 ==> open_options(flags).rd && open_options(flags).wr,
        flags % 4 == 3 ==> !open_options(flags).rd && !open_options(flags).wr,
        open_options(flags).ap <==> flags & O_APPEND != 0,
        open_options(flags).nb <==> flags & O_NONBLOCK != 0,
{
    words::lemma_bitwise(flags, 0, 0, 0);
}

/// A file that was opened is under the lowest descriptor that was free; no other
/// descriptor of the task, and no other task, has changed.
pub proof fn lemma_open_takes_lowest(
    before: Kernel,
    after: Kernel,
    path: u64,
    flags: u64,
    fd: u64,
    t: TaskRef,
    other: u64,
    j: int,
)
    requires
        opened(before, after, path, flags, Ok::<u64, &'static str>(fd)),
        kernel::running(before, 0) == Some(t),
        t < before.tasks.store@.len(),
        0 <= j < before.tasks.store@.len(),
    ensures
        ({
            let a = before.tasks.store@[t as int].files@;
            let b = after.tasks.store@[t as int].files@;
            &&& !a.contains_key(fd)
            &&& b.contains_key(fd)
            &&& other < fd ==> a.contains_key(other)
            &&& other != fd ==> (b.contains_key(other) <==> a.contains_key(other))
            &&& other != fd && a.contains_key(other) ==> b[other] == a[other]
            &&& b[fd] matches FLike::File(h) && h.cloexec == (flags & O_CLOEXEC != 0) && h.opt
                == open_options(flags)
        }),
        j != t ==> after.tasks.store@[j] == before.tasks.store@[j],
{
}

/// What is closed is not cached any more; every other block stays as it was.
pub proof fn lemma_close_drops_block(before: Kernel, after: Kernel, fd: u64, r: CallResult, other: u64)
    requires
        before.wf(),
        closed(before, after, fd, r),
    ensures
        fd <= FD_LIMIT ==> r == CallResult::Ok(0) && !is_cached(after, fd),
        fd > FD_LIMIT ==> r is Err && after == before,
        other != fd ==> (is_cached(after, other) <==> is_cached(before, other)),
        after.tasks == before.tasks,
{
    if fd <= FD_LIMIT {
        let c = before.cache.chain_of(fd);
        let items = before.cache@[c];
        cache::lemma_dropped_is_gone(items, fd);
        if other != fd {
            cache::lemma_drop_keeps_others(items, fd, other);
        }
    }
}

/// The two descriptors of a new pipe were free, differ, and name the reading and the
/// writing end of one pipe that is empty.
pub proof fn lemma_pipe_has_two_ends(before: Kernel, after: Kernel, t: TaskRef, rd: u64, wr: u64, other: u64)
    requires
        kernel::piped(before, after, t, rd, wr),
        before.pipes@.len() <= usize::MAX,
    ensures
        ({
            let a = before.tasks.store@[t as int].files@;
            let b = after.tasks.store@[t as int].files@;
            let n = before.pipes@.len();
            &&& rd != wr
            &&& !a.contains_key(rd) && !a.contains_key(wr)
            &&& other < rd ==> a.contains_key(other)
            &&& other < wr && other != rd ==> a.contains_key(other)
            &&& b.contains_key(rd) && b.contains_key(wr)
            &&& b[rd] matches FLike::Pipe(x) && x.data == n && x.dir == PipeDir::Rd
            &&& b[wr] matches FLike::Pipe(y) && y.data == n && y.dir == PipeDir::Wr
            &&& other != rd && other != wr && a.contains_key(other) ==> b.contains_key(other)
                && b[other] == a[other]
            &&& after.pipes@.len() == n + 1
            &&& after.pipes@[n as int].buf@.len() == 0
            &&& after.pipes@[n as int].ends == 2
        }),
{
    let mid = before.tasks.store@[t as int].files@.insert(
        rd,
        FLike::Pipe(PipeNode { data: before.pipes@.len() as usize, dir: PipeDir::Rd }),
    );
    assert(mid.contains_key(rd));
    if other < wr && other != rd {
        assert(mid.contains_key(other));
    }
}

/// The answer of a copy is a descriptor that is free, not below the original, and the
/// lowest of these.
pub proof fn lemma_dup_finds_free(k: Kernel, old_fd: u64, fd: u64, t: TaskRef, other: u64)
    requires
        duplicated(k, old_fd, Ok::<u64, &'static str>(fd)),
        kernel::running(k, 0) == Some(t),
    ensures
        old_fd <= fd,
        old_fd < FD_LIMIT,
        !k.tasks.store@[t as int].files@.contains_key(fd),
        old_fd <= other < fd ==> k.tasks.store@[t as int].files@.contains_key(other),
{
}

/// A redirection makes one descriptor a copy of another, if that is open, and touches
/// no third one; from one that is not open it fails, and the target is closed.
pub proof fn lemma_dup2_redirects(
    before: Kernel,
    after: Kernel,
    old_fd: u64,
    new_fd: u64,
    r: CallResult,
    t: TaskRef,
    other: u64,
)
    requires
        redirected(before, after, old_fd, new_fd, r),
        kernel::running(before, 0) == Some(t),
        t < before.tasks.store@.len(),
        old_fd < FD_LIMIT,
        new_fd < FD_LIMIT,
        old_fd != new_fd,
    ensures
        ({
            let a = before.tasks.store@[t as int].files@;
            let b = after.tasks.store@[t as int].files@;
            &&& r is Ok <==> a.contains_key(old_fd)
            &&& r is Ok ==> r == CallResult::Ok(new_fd) && b.contains_key(new_fd)
            &&& r is Err ==> !b.contains_key(new_fd)
            &&& other != new_fd ==> (b.contains_key(other) <==> a.contains_key(other))
            &&& other != new_fd && a.contains_key(other) ==> b[other] == a[other]
            &&& r is Ok ==> match a[old_fd] {
                FLike::File(h) => b[new_fd] matches FLike::File(g) && g.path@ == h.path@ && g.opt
                    == h.opt && !g.cloexec,
                FLike::Pipe(p) => b[new_fd] == FLike::Pipe(p),
                FLike::Ep(_) => b[new_fd] is Ep,
            }
        }),
{
}

/// The descriptors that `fcntl` makes up are not below either number that it is given;
/// only known commands are served, and only for descriptors in range.
pub proof fn lemma_fcntl_answers(k: Kernel, tick: u64, fd: u64, cmd: u64, arg: u64)
    requires
        fcntl_fits(tick, fd, cmd, arg),
    ensures
        ({
            let r = fcntl_result(k, tick, fd, cmd, arg);
            &&& fd >= FD_LIMIT ==> r is Err
            &&& fd < FD_LIMIT && cmd == F_DUPFD ==> (r matches Ok(n) && fd <= n && arg <= n && (n - fd
                < 4 || n - arg < 4))
            &&& fd < FD_LIMIT && cmd == F_DUPFD_CLOEXEC ==> (r matches Ok(n) && fd < n && arg < n && (n
                == fd + 1 || n == arg + 1))
            &&& fd < FD_LIMIT && cmd == F_GETFD ==> (r == CallResult::Ok(FD_CLOEXEC) <==> is_dirty(k, fd))
        }),
{
    words::lemma_bitwise(tick, 0, 0, 0);
}

/// A status is given exactly if there is room for it that the user may use, and, by
/// path, if the path can be read.
pub proof fn lemma_stat_wants_room(by_path: bool, target: u64, stat_buf: u64)
    ensures
        stat_result(by_path, target, stat_buf) is Ok <==> stat_buf != 0 && reachable(
            stat_buf,
            STAT_SIZE,
        ) && (by_path ==> reachable(target, PATH_SIZE)),
{
}

/// A command on a device is known or refused; one that has a record succeeds exactly if
/// the user may use the record, and the two without one always do.
pub proof fn lemma_device_commands(cmd: u64, arg: u64)
    ensures
        ({
            let r = ioctl_result(cmd, arg);
            let termios = cmd == TCGETS || cmd == TCSETS;
            let word = cmd == TIOCGPGRP || cmd == TIOCSPGRP || cmd == FIONBIO;
            &&& r matches Ok(n) ==> n == 0
            &&& termios ==> (r is Ok <==> reachable(arg, TERMIOS_SIZE))
            &&& word ==> (r is Ok <==> reachable(arg, 4))
            &&& cmd == TIOCGWINSZ ==> (r is Ok <==> reachable(arg, WINSIZE_SIZE))
            &&& cmd == FIONCLEX || cmd == FIOCLEX ==> r is Ok
            &&& !termios && !word && cmd != TIOCGWINSZ && cmd != FIONCLEX && cmd != FIOCLEX ==> r
                == CallResult::Err("enotty")
        }),
{
}

/// A pipe is refused without a place for its descriptors, without a task, and to a task
/// that has nearly as many descriptors as it may; nothing changes then.
pub proof fn lemma_pipe_refused(before: Kernel, after: Kernel, fds: u64, r: CallResult)
    requires
        pipe_made(before, after, fds, r),
    ensures
        r is Err ==> after == before,
        r is Err <==> fds == 0 || !reachable(fds, FD_PAIR_SIZE) || match kernel::running(before, 0) {
            Some(t) => before.tasks.store@[t as int].files@.len() + 2 > N_PROC,
            None => true,
        },
{
}

/// The other commands of `fcntl`: setting descriptor flags succeeds, setting file flags
/// only for the two that can be set, and locks need their record.
pub proof fn lemma_fcntl_sets(k: Kernel, tick: u64, fd: u64, arg: u64)
    requires
        fd < FD_LIMIT,
    ensures
        fcntl_result(k, tick, fd, F_SETFD, arg) == CallResult::Ok(0),
        fcntl_result(k, tick, fd, F_SETFL, 0) == CallResult::Ok(0),
        fcntl_result(k, tick, fd, F_SETFL, arg) is Ok <==> arg & !(O_NONBLOCK | O_APPEND) == 0,
        fcntl_result(k, tick, fd, F_GETLK, arg) == record_at(arg, FLOCK_SIZE),
        fcntl_result(k, tick, fd, F_SETLK, arg) == record_at(arg, FLOCK_SIZE),
        fcntl_result(k, tick, fd, F_SETLKW, arg) == record_at(arg, FLOCK_SIZE),
        record_at(arg, FLOCK_SIZE) is Ok <==> reachable(arg, FLOCK_SIZE),
        record_at(arg, FLOCK_SIZE) matches Ok(n) ==> n == 0,
        fcntl_result(k, tick, 0, F_GETFL, arg) == fcntl_result(k, tick, 2, F_GETFL, arg),
        !is_dirty(k, fd) ==> fcntl_result(k, tick, fd, F_GETFD, arg) == CallResult::Ok(0),
{
    assert(0u64 & !(0x800u64 | 0x400u64) == 0) by (bit_vector);
}

/// A redirection takes from each pipe the ends that the closed target and the copied
/// source name.
pub proof fn lemma_dup2_closes_ends(
    before: Kernel,
    after: Kernel,
    old_fd: u64,
    new_fd: u64,
    r: CallResult,
    t: TaskRef,
    i: int,
)
    requires
        redirected(before, after, old_fd, new_fd, r),
        kernel::running(before, 0) == Some(t),
        t < before.tasks.store@.len(),
        old_fd < FD_LIMIT,
        new_fd < FD_LIMIT,
        old_fd != new_fd,
        0 <= i < before.pipes@.len(),
    ensures
        ({
            let a = before.tasks.store@[t as int].files@;
            let target = if a.contains_key(new_fd) && (a[new_fd] matches FLike::Pipe(p) && p.data
                == i) {
                1int
            } else {
                0
            };
            let source = if a.contains_key(old_fd) && (a[old_fd] matches FLike::Pipe(p) && p.data
                == i) {
                1int
            } else {
                0
            };
            after.pipes@[i].ends == before.pipes@[i].ends - target - source
        }),
{
    let a = before.tasks.store@[t as int].files@;
    let n = if a.contains_key(old_fd) {
        task::replaced_hit(a, new_fd, i) + task::hit(a[old_fd], i)
    } else {
        task::replaced_hit(a, new_fd, i)
    };
    assert(task::closed_times(before.pipes@[i], after.pipes@[i], n));
}

} // verus!
