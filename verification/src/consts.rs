//! Sizes, addresses and numbers of the modelled machine.
use vstd::prelude::*;

verus! {

pub const PAGE_SIZE: u64 = 4096;

pub const KERNEL_OFFSET: u64 = 0xFFFF_FFFF_C000_0000;

pub const PHYSICAL_MEMORY_OFFSET: u64 = 0xFFFF_FFFF_0000_0000;

pub const MEMORY_OFFSET: u64 = 0x8000_0000;

pub const PHYSICAL_FRAME_COUNT: u64 = 4096;

pub const KERNEL_HEAP_SIZE: u64 = 0x80_0000;

pub const KSTACK_SIZE: u64 = 0x4000;

pub const USER_STACK_SIZE: u64 = 0x10_0000;

pub const USER_STACK_OFFSET: u64 = 0x3FF0_0000;

pub const SLAB_ALIGN: usize = 8;

pub const MAX_CPU: usize = 8;

pub const N_REGS: usize = 16;

pub const N_PROC: u64 = 1024;

pub const N_CHAINS: usize = 16;

pub const IOQUEUE_DEPTH: usize = 64;

pub const TIMER_WHEEL_SIZE: u64 = 256;

pub const TIMER_TICK_HZ: u64 = 1000;

pub const USEC_PER_TICK: u64 = 1000;

pub const BRK_BASE: u64 = 0x0040_0000;

pub const MMAP_BASE: u64 = 0x7000_0000;

pub const VM_READ: u32 = 0x1;

pub const VM_WRITE: u32 = 0x2;

pub const VM_EXEC: u32 = 0x4;

pub const VM_SHARED: u32 = 0x8;

pub const VM_GROWSDOWN: u32 = 0x100;

pub const NSIG: u32 = 64;

pub const SIGKILL: u32 = 9;

pub const SIGCHLD: u32 = 17;

pub const SIGSTOP: u32 = 19;

/// The bits of `SIGKILL` and `SIGSTOP`, which no mask can block.
pub const UNMASKABLE: u64 = 0x8_0200;

pub const SIG_DFL: usize = 0;

pub const SIG_IGN: usize = 1;

pub const INHERITABLE_MASK: u64 = 0x20_1000;

pub const SCHED_NORMAL: u8 = 0;

pub const PRIO_DEFAULT: i32 = 0;

pub const O_APPEND: u64 = 0x400;

pub const O_NONBLOCK: u64 = 0x800;

pub const O_CLOEXEC: u64 = 0x8_0000;

pub const FD_CLOEXEC: u64 = 1;

pub const F_DUPFD: u64 = 0;

pub const F_GETFD: u64 = 1;

pub const F_SETFD: u64 = 2;

pub const F_GETFL: u64 = 3;

pub const F_SETFL: u64 = 4;

pub const F_GETLK: u64 = 5;

pub const F_SETLK: u64 = 6;

pub const F_SETLKW: u64 = 7;

pub const F_DUPFD_CLOEXEC: u64 = 1030;

pub const TCGETS: u64 = 0x5401;

pub const TCSETS: u64 = 0x5402;

pub const TIOCGPGRP: u64 = 0x540F;

pub const TIOCSPGRP: u64 = 0x5410;

pub const TIOCGWINSZ: u64 = 0x5413;

pub const FIONBIO: u64 = 0x5421;

pub const FIONCLEX: u64 = 0x5450;

pub const FIOCLEX: u64 = 0x5451;

/// Bytes of a terminal-settings record.
pub const TERMIOS_SIZE: u64 = 60;

/// Bytes of a window-size record.
pub const WINSIZE_SIZE: u64 = 8;

/// Bytes of one epoll event record.
pub const EPOLL_EVENT_SIZE: u64 = 16;

pub const SYS_READ: u64 = 0;

pub const SYS_WRITE: u64 = 1;

pub const SYS_OPEN: u64 = 2;

pub const SYS_CLOSE: u64 = 3;

pub const SYS_STAT: u64 = 4;

pub const SYS_FSTAT: u64 = 5;

pub const SYS_MMAP: u64 = 9;

pub const SYS_MUNMAP: u64 = 11;

pub const SYS_BRK: u64 = 12;

pub const SYS_SIGACTION: u64 = 13;

pub const SYS_SIGPROCMASK: u64 = 14;

pub const SYS_IOCTL: u64 = 16;

pub const SYS_PIPE: u64 = 22;

pub const SYS_DUP: u64 = 32;

pub const SYS_DUP2: u64 = 33;

pub const SYS_GETPID: u64 = 39;

pub const SYS_FORK: u64 = 57;

pub const SYS_EXEC: u64 = 59;

pub const SYS_EXIT: u64 = 60;

pub const SYS_WAIT4: u64 = 61;

pub const SYS_KILL: u64 = 62;

pub const SYS_FCNTL: u64 = 72;

pub const SYS_SETPGID: u64 = 109;

pub const SYS_GETPPID: u64 = 110;

pub const SYS_SETSID: u64 = 112;

pub const SYS_GETPGID: u64 = 121;

pub const SYS_FUTEX: u64 = 202;

pub const SYS_EPOLL_CREATE: u64 = 213;

pub const SYS_CLOCK_GETTIME: u64 = 228;

pub const SYS_EPOLL_WAIT: u64 = 232;

pub const SYS_EPOLL_CTL: u64 = 233;

} // verus!
