//! System calls on events, time and futexes.
use crate::calls::files;
use crate::calls::memory::CallResult;
use crate::consts::EPOLL_EVENT_SIZE;
use crate::memory::addr::check_access;
use crate::process::kernel::Kernel;
use crate::util::words;
use vstd::prelude::*;

verus! {

/// Bytes of an event record that a change points at.
pub const EPOLL_CTL_SIZE: u64 = 12;

/// Bytes of a time record.
pub const TIMESPEC_SIZE: u64 = 16;

/// The most waiters that one requeue reports.
pub const REQUEUE_LIMIT: u64 = 128;

/// The most waiters that one half of a compare-and-requeue counts.
pub const HALF_LIMIT: u64 = 32;

pub open spec fn lesser(a: int, b: int) -> int {
    if a <= b {
        a
    } else {
        b
    }
}

pub open spec fn epoll_create_result(size: u64) -> CallResult {
    if size == 0 {
        Err("einval")
    } else if size * EPOLL_EVENT_SIZE > u64::MAX {
        Err("enomem")
    } else {
        Ok((3 + size % 61) as u64)
    }
}

/// The operations are 1 and 3, which need an event, and 2. Only the low half of the
/// word counts.
pub open spec fn epoll_ctl_result(op: u64, ev: u64) -> CallResult {
    let low = op as int % 0x1_0000_0000;
    if ev != 0 && !files::reachable(ev, EPOLL_CTL_SIZE) {
        Err("efault")
    } else if low == 1 || low == 3 {
        if ev == 0 {
            Err("efault")
        } else {
            Ok(0)
        }
    } else if low == 2 {
        Ok(0)
    } else {
        Err("einval")
    }
}

pub open spec fn epoll_wait_result(events: u64, max_events: u64) -> CallResult {
    let bytes = max_events * EPOLL_EVENT_SIZE;
    if events == 0 || max_events == 0 || bytes > u64::MAX {
        Err("einval")
    } else if !files::reachable(events, bytes as u64) {
        Err("efault")
    } else {
        Ok(0)
    }
}

/// The clocks are the wall clock, the monotonic one and the raw one.
pub open spec fn clock_result(clk_id: u64, tp: u64) -> CallResult {
    if tp == 0 || !files::reachable(tp, TIMESPEC_SIZE) {
        Err("efault")
    } else if clk_id == 0 || clk_id == 1 || clk_id == 4 {
        Ok(0)
    } else {
        Err("einval")
    }
}

/// The count that a requeue reports is a machine number.
pub open spec fn futex_fits(uaddr: u64, op: u64, val: u64, uaddr2: u64, val3: u64) -> bool {
    files::reachable(uaddr, 4) && op & 0xF == 3 && files::reachable(uaddr2, 4) ==> val + val3
        <= u64::MAX
}

pub open spec fn futex_result(
    k: Kernel,
    uaddr: u64,
    op: u64,
    val: u64,
    timeout: u64,
    uaddr2: u64,
    val3: u64,
) -> CallResult {
    let what = op & 0xF;
    if !files::reachable(uaddr, 4) {
        Err("efault")
    } else if what == 0 {
        if timeout != 0 && !files::reachable(timeout, TIMESPEC_SIZE) {
            Err("efault")
        } else {
            Ok(0)
        }
    } else if what == 1 {
        let wanted = if val == 0 {
            1
        } else {
            val as int
        };
        Ok(lesser(wanted, k.tasks.map@.len() as int) as u64)
    } else if what == 3 {
        if files::reachable(uaddr2, 4) {
            Ok(lesser(val + val3, REQUEUE_LIMIT as int) as u64)
        } else {
            Err("efault")
        }
    } else if what == 5 {
        if timeout == 0 || !files::reachable(timeout, TIMESPEC_SIZE) {
            Err("efault")
        } else {
            Ok(0)
        }
    } else if what == 9 {
        if files::reachable(uaddr2, 4) {
            Ok(
                (lesser(val as int, HALF_LIMIT as int) + lesser(
                    val3 as int,
                    HALF_LIMIT as int,
                )) as u64,
            )
        } else {
            Err("efault")
        }
    } else {
        Err("enosys")
    }
}

fn min_word(a: u64, b: u64) -> (r: u64)
    ensures
        r == lesser(a as int, b as int),
{
    if a <= b {
        a
    } else {
        b
    }
}

impl Kernel {
    pub fn sys_epoll_create(&self, size: u64) -> (r: CallResult)
        ensures
            r == epoll_create_result(size),
    {
        if size == 0 {
            return Err("einval");
        }
        let epfd: u64 = 3 + (size % 61);
        match size.checked_mul(EPOLL_EVENT_SIZE) {
            Some(_) => Ok(epfd),
            None => Err("enomem"),
        }
    }

    pub fn sys_epoll_ctl(&self, op: u64, ev_addr: u64) -> (r: CallResult)
        ensures
            r == epoll_ctl_result(op, ev_addr),
    {
        let low: u64 = op % 0x1_0000_0000;
        if ev_addr != 0 && !check_access(ev_addr, EPOLL_CTL_SIZE) {
            return Err("efault");
        }
        if low == 1 || low == 3 {
            if ev_addr == 0 {
                return Err("efault");
            }
            Ok(0)
        } else if low == 2 {
            Ok(0)
        } else {
            Err("einval")
        }
    }

    pub fn sys_epoll_wait(&self, events_addr: u64, max_events: u64) -> (r: CallResult)
        ensures
            r == epoll_wait_result(events_addr, max_events),
    {
        if events_addr == 0 || max_events == 0 {
            return Err("einval");
        }
        match max_events.checked_mul(EPOLL_EVENT_SIZE) {
            Some(total_buf) => {
                if !check_access(events_addr, total_buf) {
                    return Err("efault");
                }
                Ok(0)
            },
            None => Err("einval"),
        }
    }

    pub fn sys_clock_gettime(&self, clk_id: u64, tp_addr: u64) -> (r: CallResult)
        ensures
            r == clock_result(clk_id, tp_addr),
    {
        if tp_addr == 0 {
            return Err("efault");
        }
        if !check_access(tp_addr, TIMESPEC_SIZE) {
            return Err("efault");
        }
        if clk_id == 0 || clk_id == 1 || clk_id == 4 {
            Ok(0)
        } else {
            Err("einval")
        }
    }

    pub fn sys_futex(
        &self,
        uaddr: u64,
        op: u64,
        val: u64,
        timeout_addr: u64,
        uaddr2: u64,
        val3: u64,
    ) -> (r: CallResult)
        requires
            futex_fits(uaddr, op, val, uaddr2, val3),
        ensures
            r == futex_result(*self, uaddr, op, val, timeout_addr, uaddr2, val3),
    {
        if !check_access(uaddr, 4) {
            return Err("efault");
        }
        let futex_op: u64 = op & 0xF;
        if futex_op == 0 {
            if timeout_addr != 0 && !check_access(timeout_addr, TIMESPEC_SIZE) {
                return Err("efault");
            }
            Ok(0)
        } else if futex_op == 1 {
            let wake_count: u64 = if val == 0 {
                1
            } else {
                val
            };
            Ok(min_word(wake_count, self.tasks.count() as u64))
        } else if futex_op == 3 {
            if !check_access(uaddr2, 4) {
                return Err("efault");
            }
            Ok(min_word(val + val3, REQUEUE_LIMIT))
        } else if futex_op == 5 {
            if timeout_addr == 0 {
                return Err("efault");
            }
            if !check_access(timeout_addr, TIMESPEC_SIZE) {
                return Err("efault");
            }
            Ok(0)
        } else if futex_op == 9 {
            if !check_access(uaddr2, 4) {
                return Err("efault");
            }
            Ok(min_word(val, HALF_LIMIT) + min_word(val3, HALF_LIMIT))
        } else {
            Err("enosys")
        }
    }
}

/// A wake wakes no more than were asked for, at least one being asked for, and no more
/// than there are tasks; and as many as both allow.
pub proof fn lemma_wake_counts(
    k: Kernel,
    uaddr: u64,
    op: u64,
    val: u64,
    timeout: u64,
    uaddr2: u64,
    val3: u64,
    n: u64,
)
    requires
        op % 16 == 1,
        k.tasks.map@.len() <= u64::MAX,
        futex_result(k, uaddr, op, val, timeout, uaddr2, val3) == CallResult::Ok(n),
    ensures
        n <= k.tasks.map@.len(),
        val > 0 ==> n <= val,
        val == 0 ==> n <= 1,
        n == k.tasks.map@.len() || n == val || val == 0 && n == 1,
{
    words::lemma_bitwise(op, 0, 0, 0);
}

/// A requeue reports what it was told to wake and to move, up to its limit.
pub proof fn lemma_requeue_counts(
    k: Kernel,
    uaddr: u64,
    op: u64,
    val: u64,
    timeout: u64,
    uaddr2: u64,
    val3: u64,
    n: u64,
)
    requires
        op % 16 == 3,
        futex_result(k, uaddr, op, val, timeout, uaddr2, val3) == CallResult::Ok(n),
    ensures
        n <= REQUEUE_LIMIT,
        n == val + val3 || n == REQUEUE_LIMIT && val + val3 >= REQUEUE_LIMIT,
        files::reachable(uaddr, 4) && files::reachable(uaddr2, 4),
{
    words::lemma_bitwise(op, 0, 0, 0);
}

/// Every operation on a futex needs its word, and a wait with a time needs the time.
pub proof fn lemma_futex_needs_word(
    k: Kernel,
    uaddr: u64,
    op: u64,
    val: u64,
    timeout: u64,
    uaddr2: u64,
    val3: u64,
)
    ensures
        futex_result(k, uaddr, op, val, timeout, uaddr2, val3) is Ok ==> files::reachable(uaddr, 4),
        op % 16 == 0 ==> (futex_result(k, uaddr, op, val, timeout, uaddr2, val3) is Ok
            <==> files::reachable(uaddr, 4) && (timeout == 0 || files::reachable(
            timeout,
            TIMESPEC_SIZE,
        ))),
{
    words::lemma_bitwise(op, 0, 0, 0);
}

/// The descriptor of an event queue is not a standard one and below 64; only a queue
/// with room for something is made.
pub proof fn lemma_epoll_descriptor(size: u64)
    ensures
        epoll_create_result(size) matches Ok(fd) ==> size > 0 && 3 <= fd < 64,
        size == 0 ==> epoll_create_result(size) is Err,
{
}

/// An event can be added and changed with a record that can be used, and removed with
/// or without one; there is no fourth operation.
pub proof fn lemma_epoll_operations(op: u64, ev: u64)
    requires
        op < 0x1_0000_0000,
    ensures
        op == 1 || op == 3 ==> (epoll_ctl_result(op, ev) is Ok <==> ev != 0 && files::reachable(
            ev,
            EPOLL_CTL_SIZE,
        )),
        op == 2 ==> (epoll_ctl_result(op, ev) is Ok <==> ev == 0 || files::reachable(
            ev,
            EPOLL_CTL_SIZE,
        )),
        op != 1 && op != 2 && op != 3 ==> epoll_ctl_result(op, ev) is Err,
        epoll_ctl_result(op, ev) matches Ok(n) ==> n == 0,
{
}

/// A wait for events needs room for at least one, and all the room has to be the
/// user's; it finds none.
pub proof fn lemma_epoll_wait_needs_room(events: u64, max_events: u64)
    ensures
        epoll_wait_result(events, max_events) is Ok <==> events != 0 && max_events != 0 && max_events
            * EPOLL_EVENT_SIZE <= u64::MAX && files::reachable(
            events,
            (max_events * EPOLL_EVENT_SIZE) as u64,
        ),
        epoll_wait_result(events, max_events) matches Ok(n) ==> n == 0,
{
}

/// Three clocks can be read, into a record that can be used.
pub proof fn lemma_clocks(clk_id: u64, tp: u64)
    ensures
        clock_result(clk_id, tp) is Ok <==> tp != 0 && files::reachable(tp, TIMESPEC_SIZE) && (clk_id
            == 0 || clk_id == 1 || clk_id == 4),
        clock_result(clk_id, tp) matches Ok(n) ==> n == 0,
{
}

/// The other operations on a futex: a wait for a time needs one, a compare and requeue
/// counts both halves up to the limit of each, and any other operation does not exist.
pub proof fn lemma_futex_operations(
    k: Kernel,
    uaddr: u64,
    op: u64,
    val: u64,
    timeout: u64,
    uaddr2: u64,
    val3: u64,
)
    requires
        files::reachable(uaddr, 4),
    ensures
        ({
            let r = futex_result(k, uaddr, op, val, timeout, uaddr2, val3);
            let what = op % 16;
            &&& what == 0 || what == 5 ==> (r matches Ok(n) ==> n == 0)
            &&& what == 5 ==> (r is Ok <==> timeout != 0 && files::reachable(timeout, TIMESPEC_SIZE))
            &&& what == 9 ==> (r is Ok <==> files::reachable(uaddr2, 4))
            &&& what == 9 ==> (r matches Ok(n) ==> n <= 2 * HALF_LIMIT && (val <= HALF_LIMIT && val3
                <= HALF_LIMIT ==> n == val + val3) && (val >= HALF_LIMIT && val3 >= HALF_LIMIT ==> n
                == 2 * HALF_LIMIT))
            &&& what == 1 ==> r is Ok
            &&& what == 3 ==> (r is Ok <==> files::reachable(uaddr2, 4))
            &&& what != 0 && what != 1 && what != 3 && what != 5 && what != 9 ==> r is Err
        }),
{
    words::lemma_bitwise(op, 0, 0, 0);
}

} // verus!
