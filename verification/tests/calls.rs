use chaos_kernel::consts::{
    BRK_BASE, FIOCLEX, FIONBIO, F_DUPFD, F_DUPFD_CLOEXEC, F_GETFD, F_GETFL, F_GETLK, F_SETFD,
    F_SETFL, KERNEL_OFFSET, MMAP_BASE, NSIG, O_APPEND, O_CLOEXEC, O_NONBLOCK, PAGE_SIZE, SIGCHLD,
    SIGKILL, SIGSTOP, SYS_BRK, SYS_CLOCK_GETTIME, SYS_CLOSE, SYS_DUP, SYS_DUP2, SYS_EPOLL_CREATE,
    SYS_EPOLL_CTL, SYS_EPOLL_WAIT, SYS_EXEC, SYS_EXIT, SYS_FCNTL, SYS_FORK, SYS_FSTAT, SYS_FUTEX,
    SYS_GETPGID, SYS_GETPID, SYS_GETPPID, SYS_IOCTL, SYS_KILL, SYS_MMAP, SYS_MUNMAP, SYS_OPEN,
    SYS_PIPE, SYS_READ, SYS_SETPGID, SYS_SETSID, SYS_SIGACTION, SYS_SIGPROCMASK, SYS_STAT,
    SYS_WAIT4, SYS_WRITE, TCGETS, TIOCGWINSZ,
};
use chaos_kernel::fs::cache::CacheSlot;
use chaos_kernel::fs::file::FLike;
use chaos_kernel::process::kernel::Kernel;
use chaos_kernel::process::task::Task;
use chaos_kernel::trap::timer::Clock;

const STACK: u64 = 0x10_0000;
const USER: u64 = 0x1000;
const NOBODY: u64 = u64::MAX;

fn booted(frames: usize) -> Kernel {
    let mut k = Kernel::new(frames);
    k.proc_init(STACK);
    k.set_cur(0, Some(0));
    k
}

fn call(k: &mut Kernel, nr: u64, args: [u64; 6]) -> Result<u64, &'static str> {
    let clock = Clock { tick: 6, tick_all: 0 };
    k.dispatch_syscall(nr, args[0], args[1], args[2], args[3], args[4], args[5], &clock)
}

fn call1(k: &mut Kernel, nr: u64, a0: u64) -> Result<u64, &'static str> {
    call(k, nr, [a0, 0, 0, 0, 0, 0])
}

fn call2(k: &mut Kernel, nr: u64, a0: u64, a1: u64) -> Result<u64, &'static str> {
    call(k, nr, [a0, a1, 0, 0, 0, 0])
}

fn call3(k: &mut Kernel, nr: u64, a0: u64, a1: u64, a2: u64) -> Result<u64, &'static str> {
    call(k, nr, [a0, a1, a2, 0, 0, 0])
}

#[test]
fn unknown_calls_are_refused() {
    let mut k = booted(1);
    assert_eq!(call1(&mut k, 9999, 0), Err("enosys"));
}

#[test]
fn reads() {
    let mut k = booted(1);
    assert_eq!(call3(&mut k, SYS_READ, 5, 0, 8), Err("efault"));
    assert_eq!(call3(&mut k, SYS_READ, 5, 0, 0), Ok(0));
    assert_eq!(call3(&mut k, SYS_READ, 5, KERNEL_OFFSET, 8), Err("efault"));
    assert_eq!(call3(&mut k, SYS_READ, 5, USER, 100_000), Ok(65536));
    assert_eq!(call3(&mut k, SYS_READ, 5, USER, 100), Ok(100));
    k.cache.chains[5].items.push(CacheSlot { id: 5, modified: false });
    assert_eq!(call3(&mut k, SYS_READ, 5, USER, 100), Ok(100));
    assert_eq!(call3(&mut k, SYS_READ, 5, USER + 1, 100_000), Ok(95_904));
}

#[test]
fn writes() {
    let mut k = booted(1);
    k.cache.chains[5].items.push(CacheSlot { id: 5, modified: false });
    assert_eq!(call3(&mut k, SYS_WRITE, 5, 0, 8), Err("efault"));
    assert_eq!(call3(&mut k, SYS_WRITE, 5, 0, 0), Ok(0));
    assert_eq!(call3(&mut k, SYS_WRITE, 5, KERNEL_OFFSET, 8), Err("efault"));
    assert_eq!(k.cache_stats(), (1, 0));
    assert_eq!(call3(&mut k, SYS_WRITE, 5, USER, 8), Ok(8));
    assert_eq!(k.cache_stats(), (1, 1));
    assert_eq!(k.disk.total_ops(), 0);
    assert_eq!(call3(&mut k, SYS_WRITE, 1, USER + 4090, 10), Ok(4100));
    assert_eq!(k.disk.total_ops(), 1);
}

#[test]
fn opens() {
    let mut k = booted(1);
    assert_eq!(call2(&mut k, SYS_OPEN, 0, 0), Err("efault"));
    assert_eq!(call2(&mut k, SYS_OPEN, KERNEL_OFFSET, 0), Err("efault"));
    assert_eq!(call2(&mut k, SYS_OPEN, USER, 2 | O_APPEND | O_CLOEXEC), Ok(3));
    match k.tasks.store[0].get_file(3) {
        Some(FLike::File(h)) => {
            assert_eq!(h.path, "anon");
            assert!(h.opt.rd && h.opt.wr && h.opt.ap && !h.opt.nb && h.cloexec);
        }
        _ => panic!("no file"),
    }
    k.cache.chains[0].items.push(CacheSlot { id: USER, modified: false });
    assert_eq!(call2(&mut k, SYS_OPEN, USER, 0o300), Err("eexist"));
    assert_eq!(call2(&mut k, SYS_OPEN, USER, 0o100), Ok(4));
    k.set_cur(0, None);
    assert_eq!(call2(&mut k, SYS_OPEN, USER + 70, 0), Ok(3 + 6));
}

#[test]
fn closes() {
    let mut k = booted(1);
    k.cache.chains[5].items.push(CacheSlot { id: 5, modified: false });
    assert_eq!(call1(&mut k, SYS_CLOSE, 4097), Err("ebadf"));
    assert_eq!(call1(&mut k, SYS_CLOSE, 5), Ok(0));
    assert_eq!(k.disk.total_ops(), 1);
    assert_eq!(call1(&mut k, SYS_CLOSE, 5), Ok(0));
    assert_eq!(k.disk.total_ops(), 1);
}

#[test]
fn stats() {
    let mut k = booted(1);
    assert_eq!(call2(&mut k, SYS_STAT, USER, 0), Err("efault"));
    assert_eq!(call2(&mut k, SYS_STAT, USER, USER), Ok(0));
    assert_eq!(call2(&mut k, SYS_STAT, KERNEL_OFFSET, USER), Err("efault"));
    assert_eq!(call2(&mut k, SYS_FSTAT, KERNEL_OFFSET, USER), Ok(0));
    assert_eq!(call2(&mut k, SYS_FSTAT, 1, KERNEL_OFFSET - 100), Err("efault"));
}

#[test]
fn mappings() {
    let mut k = booted(4);
    assert_eq!(call(&mut k, SYS_MMAP, [0, 0, 0, 0, 0, 0]), Err("einval"));
    assert_eq!(call(&mut k, SYS_MMAP, [0x5000, 1, 0, 0x30, 0, 0]), Ok(0x5000));
    assert_eq!(
        call(&mut k, SYS_MMAP, [0x5000, 1, 0, 0x20, 2, 0]),
        Ok(MMAP_BASE + 8 * PAGE_SIZE)
    );
    assert_eq!(call(&mut k, SYS_MMAP, [0, 5 * PAGE_SIZE, 0, 0x20, 0, 0]), Err("enomem"));
    assert_eq!(call(&mut k, SYS_MMAP, [0, 1, 0, 0, 0, 2 * PAGE_SIZE]), Err("einval"));
    assert_eq!(call2(&mut k, SYS_MUNMAP, 1, 1), Err("einval"));
    assert_eq!(call2(&mut k, SYS_MUNMAP, PAGE_SIZE, 1), Ok(0));
}

#[test]
fn heap_end_moves() {
    let mut k = booted(4);
    assert_eq!(call1(&mut k, SYS_BRK, 0), Ok(BRK_BASE));
    assert_eq!(call1(&mut k, SYS_BRK, KERNEL_OFFSET), Err("enomem"));
    assert_eq!(call1(&mut k, SYS_BRK, PAGE_SIZE + 1), Ok(2 * PAGE_SIZE));
    assert_eq!(k.pool.free_frame_count(), 2);
    assert_eq!(call1(&mut k, SYS_BRK, 5 * PAGE_SIZE), Err("enomem"));
    assert_eq!(k.tasks.store[0].vm_token, 2 * PAGE_SIZE);
    assert_eq!(call1(&mut k, SYS_BRK, PAGE_SIZE), Ok(PAGE_SIZE));
    assert_eq!(k.pool.free_frame_count(), 2);
    assert_eq!(k.tasks.store[0].vm_token, PAGE_SIZE);
}

#[test]
fn device_commands() {
    let mut k = booted(1);
    assert_eq!(call3(&mut k, SYS_IOCTL, 0, TCGETS, USER), Ok(0));
    assert_eq!(call3(&mut k, SYS_IOCTL, 0, TCGETS, KERNEL_OFFSET), Err("efault"));
    assert_eq!(call3(&mut k, SYS_IOCTL, 0, TIOCGWINSZ, KERNEL_OFFSET - 8), Ok(0));
    assert_eq!(call3(&mut k, SYS_IOCTL, 0, TIOCGWINSZ, KERNEL_OFFSET - 7), Err("efault"));
    assert_eq!(call3(&mut k, SYS_IOCTL, 0, FIONBIO, KERNEL_OFFSET - 5), Ok(0));
    assert_eq!(call3(&mut k, SYS_IOCTL, 0, FIOCLEX, KERNEL_OFFSET), Ok(0));
    assert_eq!(call3(&mut k, SYS_IOCTL, 0, 1, USER), Err("enotty"));
}

#[test]
fn pipe_descriptors_are_packed() {
    let mut k = booted(1);
    assert_eq!(call1(&mut k, SYS_PIPE, 0), Err("efault"));
    assert_eq!(call1(&mut k, SYS_PIPE, KERNEL_OFFSET), Err("efault"));
    assert_eq!(call1(&mut k, SYS_PIPE, USER), Ok(3 | (4 << 32)));
    assert_eq!(call1(&mut k, SYS_PIPE, USER), Ok(5 | (6 << 32)));
    for _ in 0..508 {
        call1(&mut k, SYS_PIPE, USER).unwrap();
    }
    assert_eq!(call1(&mut k, SYS_PIPE, USER), Err("emfile"));
    k.set_cur(0, None);
    assert_eq!(call1(&mut k, SYS_PIPE, USER), Err("esrch"));
}

#[test]
fn copies_of_descriptors() {
    let mut k = booted(1);
    call1(&mut k, SYS_PIPE, USER).unwrap();
    assert_eq!(call1(&mut k, SYS_DUP, 0), Ok(5));
    assert_eq!(call1(&mut k, SYS_DUP, 7), Ok(7));
    assert_eq!(call1(&mut k, SYS_DUP, 4096), Err("ebadf"));
    assert_eq!(k.tasks.store[0].fd_count(), 5);
    assert_eq!(call2(&mut k, SYS_DUP2, 4096, 1), Err("ebadf"));
    assert_eq!(call2(&mut k, SYS_DUP2, 1, 4096), Err("ebadf"));
    assert_eq!(call2(&mut k, SYS_DUP2, 9, 9), Ok(9));
    assert_eq!(call2(&mut k, SYS_DUP2, 3, 8), Ok(8));
    assert_eq!(k.tasks.store[0].fd_count(), 6);
    assert_eq!(k.pipes.pipes[0].ends, 1);
    assert_eq!(call2(&mut k, SYS_DUP2, 9, 8), Err("ebadf"));
    assert_eq!(k.tasks.store[0].fd_count(), 5);
    assert_eq!(k.pipes.pipes[0].ends, 0);
    k.set_cur(0, None);
    assert_eq!(call1(&mut k, SYS_DUP, 7), Ok(8));
    assert_eq!(call2(&mut k, SYS_DUP2, 9, 5), Ok(5));
}

#[test]
fn fork_looks_at_memory() {
    let mut k = booted(4096);
    assert_eq!(call1(&mut k, SYS_FORK, 0), Ok(2));
    assert_eq!(call1(&mut k, SYS_FORK, 0), Ok(3));
    assert_eq!(k.tasks.count(), 1);
    let mut low = booted(300);
    assert_eq!(call1(&mut low, SYS_FORK, 0), Err("enomem"));
    assert_eq!(low.tasks.seq, 3);
}

#[test]
fn exec_checks_its_vectors() {
    let mut k = booted(1);
    assert_eq!(call3(&mut k, SYS_EXEC, 0, 0, 0), Err("efault"));
    assert_eq!(call3(&mut k, SYS_EXEC, USER, 0, 0), Ok(0));
    assert_eq!(call3(&mut k, SYS_EXEC, USER, KERNEL_OFFSET - 511, 0), Err("efault"));
    assert_eq!(call3(&mut k, SYS_EXEC, USER, 0, KERNEL_OFFSET - 512), Ok(0));
    assert_eq!(call3(&mut k, SYS_EXEC, USER, 0, KERNEL_OFFSET - 511), Err("efault"));
}

#[test]
fn exit_tells_the_parent_and_leaves_children_to_the_first_task() {
    let mut k = booted(1);
    let p = k.do_fork(1).unwrap();
    let c = k.do_fork(p).unwrap();
    let pt = k.tasks.find(p).unwrap();
    let ct = k.tasks.find(c).unwrap();
    k.set_cur(0, Some(pt));
    assert_eq!(call1(&mut k, SYS_EXIT, 9), Ok(0));
    assert!(k.tasks.store[pt].done());
    assert_eq!(k.tasks.store[pt].exit_code, 9);
    assert_eq!(k.tasks.store[0].sig_queue, vec![(SIGCHLD as i32, p as i64)]);
    assert_eq!(k.tasks.store[ct].parent, Some(0));
    assert_eq!(k.tasks.store[0].subtasks, vec![pt, ct]);
    k.set_cur(0, None);
    assert_eq!(call1(&mut k, SYS_EXIT, 9), Ok(0));
}

#[test]
fn waits() {
    let mut k = booted(1);
    let a = k.do_fork(1).unwrap();
    let b = k.do_fork(1).unwrap();
    assert_eq!(call3(&mut k, SYS_WAIT4, NOBODY, KERNEL_OFFSET, 0), Err("efault"));
    assert_eq!(call(&mut k, SYS_WAIT4, [NOBODY, 0, 0, KERNEL_OFFSET, 0, 0]), Err("efault"));
    assert_eq!(call3(&mut k, SYS_WAIT4, NOBODY, 0, 0), Err("echild"));
    assert_eq!(call3(&mut k, SYS_WAIT4, NOBODY, 0, 1), Ok(0));
    assert_eq!(call3(&mut k, SYS_WAIT4, 0, 0, 1), Ok(0));
    assert_eq!(call3(&mut k, SYS_WAIT4, a, 0, 0), Err("echild"));
    assert_eq!(call3(&mut k, SYS_WAIT4, 99, 0, 1), Err("echild"));
    for id in [a, b] {
        let t = k.tasks.find(id).unwrap();
        Task::exit_proc(&mut k.tasks.store, t, 0, &mut k.pipes);
    }
    assert_eq!(call3(&mut k, SYS_WAIT4, NOBODY, 0, 0), Ok(a));
    assert_eq!(call3(&mut k, SYS_WAIT4, 0, 0, 0), Ok(b));
    assert_eq!(call3(&mut k, SYS_WAIT4, b, 0, 0), Ok(b));
    let bt = k.tasks.find(b).unwrap();
    k.tasks.store[bt].pgid = 5;
    assert_eq!(call3(&mut k, SYS_WAIT4, 0u64.wrapping_sub(5), 0, 0), Ok(b));
    assert_eq!(call3(&mut k, SYS_WAIT4, 0u64.wrapping_sub(6), 0, 1), Err("echild"));
    k.set_cur(0, None);
    assert_eq!(call3(&mut k, SYS_WAIT4, 0, 0, 1), Err("echild"));
}

#[test]
fn kills() {
    let mut k = booted(1);
    let a = k.do_fork(1).unwrap();
    let at = k.tasks.find(a).unwrap();
    assert_eq!(call2(&mut k, SYS_KILL, a, NSIG as u64 + 1), Err("einval"));
    assert_eq!(call2(&mut k, SYS_KILL, 1, SIGKILL as u64), Err("eperm"));
    assert_eq!(call2(&mut k, SYS_KILL, NOBODY, SIGSTOP as u64), Err("eperm"));
    assert_eq!(call2(&mut k, SYS_KILL, a, SIGKILL as u64), Ok(0));
    assert_eq!(k.tasks.store[at].sig_queue, vec![(9, -1)]);
    assert_eq!(call2(&mut k, SYS_KILL, 0, 10), Ok(2));
    assert_eq!(k.tasks.store[0].sig_queue, vec![(10, -1)]);
    assert_eq!(call2(&mut k, SYS_KILL, NOBODY, 11), Ok(1));
    assert_eq!(call2(&mut k, SYS_KILL, 99, 11), Err("esrch"));
    k.tasks.store[at].pgid = 5;
    assert_eq!(call2(&mut k, SYS_KILL, 0u64.wrapping_sub(5), 12), Ok(1));
    assert_eq!(call2(&mut k, SYS_KILL, 0u64.wrapping_sub(6), 12), Err("esrch"));
    Task::exit_proc(&mut k.tasks.store, at, 0, &mut k.pipes);
    assert_eq!(call2(&mut k, SYS_KILL, a, 13), Err("esrch"));
    assert_eq!(call2(&mut k, SYS_KILL, a, 0), Ok(0));
    assert_eq!(call2(&mut k, SYS_KILL, NOBODY, 13), Err("esrch"));
    k.set_cur(0, None);
    assert_eq!(call2(&mut k, SYS_KILL, 0, 13), Ok(0));
}

#[test]
fn descriptor_commands() {
    let mut k = booted(1);
    assert_eq!(call3(&mut k, SYS_FCNTL, 4096, F_GETFD, 0), Err("ebadf"));
    assert_eq!(call3(&mut k, SYS_FCNTL, 3, F_DUPFD, 8), Ok(10));
    assert_eq!(call3(&mut k, SYS_FCNTL, 9, F_DUPFD_CLOEXEC, 8), Ok(10));
    assert_eq!(call3(&mut k, SYS_FCNTL, 5, F_GETFD, 0), Ok(0));
    k.cache.chains[5].items.push(CacheSlot { id: 5, modified: true });
    assert_eq!(call3(&mut k, SYS_FCNTL, 5, F_GETFD, 0), Ok(1));
    assert_eq!(call3(&mut k, SYS_FCNTL, 5, F_SETFD, 1), Ok(0));
    assert_eq!(call3(&mut k, SYS_FCNTL, 2, F_GETFL, 0), Ok(O_NONBLOCK | O_APPEND));
    assert_eq!(call3(&mut k, SYS_FCNTL, 3, F_GETFL, 0), Ok(O_NONBLOCK));
    assert_eq!(call3(&mut k, SYS_FCNTL, 3, F_SETFL, O_APPEND), Ok(0));
    assert_eq!(call3(&mut k, SYS_FCNTL, 3, F_SETFL, 1), Err("einval"));
    assert_eq!(call3(&mut k, SYS_FCNTL, 3, F_GETLK, KERNEL_OFFSET), Err("efault"));
    assert_eq!(call3(&mut k, SYS_FCNTL, 3, F_GETLK, USER), Ok(0));
    assert_eq!(call3(&mut k, SYS_FCNTL, 3, 99, 0), Err("einval"));
}

#[test]
fn ids_and_groups() {
    let mut k = booted(1);
    let a = k.do_fork(1).unwrap();
    let at = k.tasks.find(a).unwrap();
    assert_eq!(call1(&mut k, SYS_GETPID, 0), Ok(1));
    assert_eq!(call1(&mut k, SYS_GETPPID, 0), Ok(0));
    assert_eq!(call2(&mut k, SYS_SETPGID, a, 0), Ok(0));
    assert_eq!(call1(&mut k, SYS_GETPGID, a), Ok(a));
    k.set_cur(0, Some(at));
    assert_eq!(call1(&mut k, SYS_GETPPID, 0), Ok(1));
    assert_eq!(call2(&mut k, SYS_SETPGID, 1, 7), Err("esrch"));
    assert_eq!(call2(&mut k, SYS_SETPGID, 0, u64::MAX - 1), Ok(0));
    assert_eq!(call1(&mut k, SYS_GETPGID, 0), Ok(u64::MAX - 1));
    assert_eq!(call1(&mut k, SYS_SETSID, 0), Ok(a));
    assert_eq!(call1(&mut k, SYS_SETSID, 0), Err("eperm"));
    assert_eq!(call1(&mut k, SYS_GETPGID, 99), Err("esrch"));
    k.set_cur(0, None);
    assert_eq!(call1(&mut k, SYS_GETPID, 0), Ok(1));
    assert_eq!(call1(&mut k, SYS_GETPGID, 0), Err("esrch"));
    assert_eq!(call1(&mut k, SYS_SETSID, 0), Err("esrch"));
}

#[test]
fn epolls() {
    let mut k = booted(1);
    assert_eq!(call1(&mut k, SYS_EPOLL_CREATE, 0), Err("einval"));
    assert_eq!(call1(&mut k, SYS_EPOLL_CREATE, 62), Ok(4));
    assert_eq!(call1(&mut k, SYS_EPOLL_CREATE, u64::MAX), Err("enomem"));
    assert_eq!(call(&mut k, SYS_EPOLL_CTL, [3, 1, 0, USER, 0, 0]), Ok(0));
    assert_eq!(call(&mut k, SYS_EPOLL_CTL, [3, 3, 0, 0, 0, 0]), Err("efault"));
    assert_eq!(call(&mut k, SYS_EPOLL_CTL, [3, 2, 0, 0, 0, 0]), Ok(0));
    assert_eq!(call(&mut k, SYS_EPOLL_CTL, [3, 2, 0, KERNEL_OFFSET, 0, 0]), Err("efault"));
    assert_eq!(call(&mut k, SYS_EPOLL_CTL, [3, 9, 0, 0, 0, 0]), Err("einval"));
    assert_eq!(call3(&mut k, SYS_EPOLL_WAIT, 3, 0, 1), Err("einval"));
    assert_eq!(call3(&mut k, SYS_EPOLL_WAIT, 3, USER, 0), Err("einval"));
    assert_eq!(call3(&mut k, SYS_EPOLL_WAIT, 3, USER, u64::MAX), Err("einval"));
    assert_eq!(call3(&mut k, SYS_EPOLL_WAIT, 3, KERNEL_OFFSET - 15, 1), Err("efault"));
    assert_eq!(call3(&mut k, SYS_EPOLL_WAIT, 3, USER, 4), Ok(0));
}

#[test]
fn clocks() {
    let mut k = booted(1);
    assert_eq!(call2(&mut k, SYS_CLOCK_GETTIME, 0, 0), Err("efault"));
    assert_eq!(call2(&mut k, SYS_CLOCK_GETTIME, 0, KERNEL_OFFSET), Err("efault"));
    for id in [0, 1, 4] {
        assert_eq!(call2(&mut k, SYS_CLOCK_GETTIME, id, USER), Ok(0));
    }
    assert_eq!(call2(&mut k, SYS_CLOCK_GETTIME, 2, USER), Err("einval"));
}

#[test]
fn signal_masks() {
    let mut k = booted(1);
    assert_eq!(call3(&mut k, SYS_SIGPROCMASK, 0, KERNEL_OFFSET, 0), Err("efault"));
    assert_eq!(call3(&mut k, SYS_SIGPROCMASK, 0, 0, KERNEL_OFFSET), Err("efault"));
    assert_eq!(call3(&mut k, SYS_SIGPROCMASK, 0, 0x8_0203, 0), Ok(0));
    assert_eq!(k.tasks.store[0].sig_mask, 3);
    assert_eq!(call3(&mut k, SYS_SIGPROCMASK, 1, 1, 0), Ok(0));
    assert_eq!(k.tasks.store[0].sig_mask, 2);
    assert_eq!(call3(&mut k, SYS_SIGPROCMASK, 2, 0x8_0204, 0), Ok(0));
    assert_eq!(k.tasks.store[0].sig_mask, 4);
    assert_eq!(call3(&mut k, SYS_SIGPROCMASK, 3, 1, 0), Err("einval"));
    assert_eq!(call3(&mut k, SYS_SIGPROCMASK, 3, 0, 0), Ok(0));
    assert_eq!(call3(&mut k, SYS_SIGACTION, 5, 0, 0), Err("einval"));
    assert_eq!(call3(&mut k, SYS_SIGACTION, SIGKILL as u64, 0, 0), Ok(0));
    assert_eq!(call3(&mut k, SYS_SIGACTION, SIGKILL as u64, KERNEL_OFFSET, 0), Err("efault"));
    assert_eq!(call3(&mut k, SYS_SIGACTION, SIGSTOP as u64, 0, KERNEL_OFFSET), Err("efault"));
}

#[test]
fn futexes() {
    let mut k = booted(1);
    assert_eq!(call1(&mut k, SYS_FUTEX, KERNEL_OFFSET), Err("efault"));
    assert_eq!(call(&mut k, SYS_FUTEX, [USER, 0, 0, KERNEL_OFFSET, 0, 0]), Err("efault"));
    assert_eq!(call(&mut k, SYS_FUTEX, [USER, 0x80, 0, 0, 0, 0]), Ok(0));
    assert_eq!(call(&mut k, SYS_FUTEX, [USER, 1, 0, 0, 0, 0]), Ok(1));
    assert_eq!(call(&mut k, SYS_FUTEX, [USER, 1, 50, 0, 0, 0]), Ok(1));
    assert_eq!(call(&mut k, SYS_FUTEX, [USER, 3, 100, 0, USER, 20]), Ok(120));
    assert_eq!(call(&mut k, SYS_FUTEX, [USER, 3, 100, 0, USER, 200]), Ok(128));
    assert_eq!(call(&mut k, SYS_FUTEX, [USER, 3, 1, 0, KERNEL_OFFSET, 1]), Err("efault"));
    assert_eq!(call(&mut k, SYS_FUTEX, [USER, 5, 0, 0, 0, 0]), Err("efault"));
    assert_eq!(call(&mut k, SYS_FUTEX, [USER, 5, 0, USER, 0, 0]), Ok(0));
    assert_eq!(call(&mut k, SYS_FUTEX, [USER, 9, 40, 0, USER, 5]), Ok(37));
    assert_eq!(call(&mut k, SYS_FUTEX, [USER, 9, 40, 0, KERNEL_OFFSET, 5]), Err("efault"));
    assert_eq!(call(&mut k, SYS_FUTEX, [USER, 2, 0, 0, 0, 0]), Err("enosys"));
}

#[test]
fn refused_calls_take_any_pid() {
    let mut k = booted(8);
    let lowest = 1u64 << 63;
    assert_eq!(call2(&mut k, SYS_KILL, lowest, NSIG as u64 + 1), Err("einval"));
    assert_eq!(call3(&mut k, SYS_WAIT4, lowest, KERNEL_OFFSET, 0), Err("efault"));
    assert_eq!(call(&mut k, SYS_WAIT4, [lowest, 0, 0, KERNEL_OFFSET, 0, 0]), Err("efault"));
}
