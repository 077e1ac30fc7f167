//! System calls on memory.
use crate::bits;
use crate::consts::{BRK_BASE, KERNEL_OFFSET, MMAP_BASE, PAGE_SIZE};
use crate::memory::frames;
use crate::process::kernel;
use crate::process::kernel::Kernel;
use crate::process::table;
use crate::process::task::{Task, TaskRef};
use vstd::prelude::*;

verus! {

/// What a system call answers.
pub type CallResult = Result<u64, &'static str>;

/// Where a mapping goes: to the address that was asked for, if it is a fixed one,
/// else to a page that the time and the descriptor choose.
pub open spec fn mmap_place(tick: u64, addr: u64, len: u64, flags: u64, fd: u64) -> int {
    if addr != 0 && flags & 0x10 != 0 {
        addr as int
    } else {
        let room = KERNEL_OFFSET - MMAP_BASE - bits::round_up(len as int, PAGE_SIZE as int);
        bits::round_down(
            MMAP_BASE + (tick * 4096 + fd * PAGE_SIZE) % room,
            PAGE_SIZE as int,
        )
    }
}

/// The arithmetic of a mapping stays within machine words.
pub open spec fn mmap_fits(tick: u64, addr: u64, len: u64, flags: u64, fd: u64) -> bool {
    len != 0 ==> {
        &&& len + PAGE_SIZE - 1 <= u64::MAX
        &&& addr != 0 && flags & 0x10 != 0 || {
            &&& tick * 4096 + fd * PAGE_SIZE <= u64::MAX
            &&& MMAP_BASE + bits::round_up(len as int, PAGE_SIZE as int) < KERNEL_OFFSET
        }
    }
}

pub open spec fn mmap_result(
    k: Kernel,
    tick: u64,
    addr: u64,
    len: u64,
    flags: u64,
    fd: u64,
    offset: u64,
) -> CallResult {
    let aligned = bits::round_up(len as int, PAGE_SIZE as int);
    if len == 0 {
        Err("einval")
    } else if frames::count_free(k.pool@) < aligned / (PAGE_SIZE as int) {
        Err("enomem")
    } else if flags & 0x20 == 0 && bits::round_down(offset as int, PAGE_SIZE as int) > aligned {
        Err("einval")
    } else {
        Ok(mmap_place(tick, addr, len, flags, fd) as u64)
    }
}

pub open spec fn munmap_result(addr: u64) -> CallResult {
    if addr as int % (PAGE_SIZE as int) != 0 {
        Err("einval")
    } else {
        Ok(0)
    }
}

/// The frames a heap needs to grow from `from` to `to`.
pub open spec fn heap_frames(from: u64, to: int) -> int {
    if to > from {
        (to - from) / (PAGE_SIZE as int)
    } else {
        0
    }
}

/// The kernel after the end of the heap was moved.
pub open spec fn brk_moved(before: Kernel, after: Kernel, new_brk: u64, r: CallResult) -> bool {
    let aligned = bits::round_up(new_brk as int, PAGE_SIZE as int);
    if new_brk == 0 {
        r == CallResult::Ok(BRK_BASE) && after == before
    } else if new_brk >= KERNEL_OFFSET {
        r == CallResult::Err("enomem") && after == before
    } else {
        match kernel::running(before, 0) {
            Some(t) => {
                let p = before.tasks.store@[t as int];
                let need = heap_frames(p.vm_token, aligned);
                if frames::count_free(before.pool@) < need {
                    r == CallResult::Err("enomem") && after == before
                } else {
                    &&& r == CallResult::Ok(aligned as u64)
                    &&& after == (Kernel { tasks: after.tasks, pool: after.pool, ..before })
                    &&& table::only_task(before.tasks, after.tasks, t)
                    &&& after.tasks.store@[t as int] == (Task { vm_token: aligned as u64, ..p })
                    &&& after.pool@ == frames::without(
                        before.pool@,
                        frames::lowest_frames(before.pool@, need as nat),
                    )
                }
            },
            None => r == CallResult::Ok(aligned as u64) && after == before,
        }
    }
}

/// Taking the lowest `n` of the free frames leaves that many fewer.
proof fn lemma_frames_taken(s: Seq<bool>, n: nat)
    requires
        n <= frames::count_free(s),
    ensures
        frames::count_free(frames::without(s, frames::lowest_frames(s, n))) == frames::count_free(s)
            - n,
    decreases n,
{
    let fl = frames::free_list(s);
    frames::lemma_free_list(s);
    if n == 0 {
        assert(fl.take(0) =~= Seq::<int>::empty());
        assert(frames::without(s, fl.take(0)) =~= s);
    } else {
        let m = (n - 1) as nat;
        lemma_frames_taken(s, m);
        let f = fl[n - 1];
        let less = frames::without(s, fl.take(n - 1));
        let now = frames::without(s, fl.take(n as int));
        assert(fl.take(n as int) =~= fl.take(n - 1).push(f));
        assert(fl.contains(f));
        assert(!fl.take(n - 1).contains(f)) by {
            let first = fl.take(n - 1);
            if first.contains(f) {
                let k = choose|k: int| 0 <= k < first.len() && first[k] == f;
                assert(fl[k] < fl[n - 1]);
            }
        }
        assert(less[f]);
        assert forall|i: int| 0 <= i < s.len() implies #[trigger] now[i] == less.update(f, false)[i] by {
            let a = fl.take(n - 1);
            let b = a.push(f);
            if a.contains(i) {
                let k = choose|k: int| 0 <= k < a.len() && a[k] == i;
                assert(b[k] == i);
            }
            assert(b[a.len() as int] == f);
            if b.contains(i) && i != f {
                let k = choose|k: int| 0 <= k < b.len() && b[k] == i;
                assert(a[k] == i);
            }
        }
        assert(now =~= less.update(f, false));
        frames::lemma_count_update(less, f, false);
    }
}

/// Moving the end of the heap from a page boundary up takes one frame for each page
/// between the old end and the new one, and gives none back on the way down. The new
/// end is the first page boundary that is not below the address asked for.
pub proof fn lemma_brk_takes_growth(
    before: Kernel,
    after: Kernel,
    new_brk: u64,
    end: u64,
    t: TaskRef,
)
    requires
        brk_moved(before, after, new_brk, Ok::<u64, &'static str>(end)),
        0 < new_brk,
        new_brk + PAGE_SIZE <= u64::MAX,
        kernel::running(before, 0) == Some(t),
        t < before.tasks.store@.len(),
    ensures
        end % PAGE_SIZE == 0,
        new_brk <= end < new_brk + PAGE_SIZE,
        after.tasks.store@[t as int].vm_token == end,
        ({
            let a = before.tasks.store@[t as int].vm_token;
            let taken = frames::count_free(before.pool@) - frames::count_free(after.pool@);
            a % PAGE_SIZE == 0 ==> taken * PAGE_SIZE == if end >= a {
                end - a
            } else {
                0
            }
        }),
        after.pool@.len() == before.pool@.len(),
        forall|f: int| 0 <= f < before.pool@.len() && #[trigger] after.pool@[f] ==> before.pool@[f],
        forall|f: int, g: int|
            0 <= f < before.pool@.len() && 0 <= g < before.pool@.len() && #[trigger] after.pool@[f]
                && #[trigger] before.pool@[g] && !after.pool@[g] ==> g < f,
{
    let p = before.tasks.store@[t as int];
    bits::lemma_round_up(new_brk as int, PAGE_SIZE as int);
    let need = heap_frames(p.vm_token, end as int);
    lemma_frames_taken(before.pool@, need as nat);
    let fl = frames::free_list(before.pool@);
    let low = frames::lowest_frames(before.pool@, need as nat);
    frames::lemma_free_list(before.pool@);
    assert forall|f: int, g: int|
        0 <= f < before.pool@.len() && 0 <= g < before.pool@.len() && #[trigger] after.pool@[f]
            && #[trigger] before.pool@[g] && !after.pool@[g] implies g < f by {
        assert(fl.contains(f) && fl.contains(g) && low.contains(g) && !low.contains(f));
        let x = choose|x: int| 0 <= x < low.len() && low[x] == g;
        let y = choose|y: int| 0 <= y < fl.len() && fl[y] == f;
        if y < low.len() {
            assert(low[y] == f);
        }
        assert(fl[x] == g);
    }
}

/// The heap grows in two steps at the cost of one: as many frames go, and the end is
/// the same.
pub proof fn lemma_brk_in_steps(
    start: Kernel,
    mid: Kernel,
    two: Kernel,
    one: Kernel,
    b: u64,
    c: u64,
    t: TaskRef,
    x: u64,
    y: u64,
    z: u64,
)
    requires
        0 < b <= c,
        c + PAGE_SIZE <= u64::MAX,
        kernel::running(start, 0) == Some(t),
        t < start.tasks.store@.len(),
        start.tasks.store@[t as int].vm_token % PAGE_SIZE == 0,
        start.tasks.store@[t as int].vm_token <= b,
        brk_moved(start, mid, b, Ok::<u64, &'static str>(x)),
        brk_moved(mid, two, c, Ok::<u64, &'static str>(y)),
        brk_moved(start, one, c, Ok::<u64, &'static str>(z)),
    ensures
        y == z,
        two.tasks.store@[t as int].vm_token == one.tasks.store@[t as int].vm_token,
        frames::count_free(two.pool@) == frames::count_free(one.pool@),
{
    lemma_brk_takes_growth(start, mid, b, x, t);
    lemma_brk_takes_growth(mid, two, c, y, t);
    lemma_brk_takes_growth(start, one, c, z, t);
    bits::lemma_round_up(b as int, PAGE_SIZE as int);
    bits::lemma_round_up(c as int, PAGE_SIZE as int);
}

/// The end of the heap stays where it is exactly if there is no page for each that
/// the heap would grow by, or the address is not the user's to ask for.
pub proof fn lemma_brk_refusal(before: Kernel, after: Kernel, new_brk: u64, r: CallResult, t: TaskRef)
    requires
        brk_moved(before, after, new_brk, r),
        0 < new_brk,
        kernel::running(before, 0) == Some(t),
        t < before.tasks.store@.len(),
        before.tasks.store@[t as int].vm_token % PAGE_SIZE == 0,
    ensures
        r is Err ==> after == before,
        new_brk < KERNEL_OFFSET ==> (r is Err <==> before.tasks.store@[t as int].vm_token
            + frames::count_free(before.pool@) * PAGE_SIZE < new_brk),
        new_brk >= KERNEL_OFFSET ==> r is Err,
{
    let a = before.tasks.store@[t as int].vm_token;
    bits::lemma_round_up(new_brk as int, PAGE_SIZE as int);
    let end = bits::round_up(new_brk as int, PAGE_SIZE as int);
    let free = frames::count_free(before.pool@);
    assert((a + free * PAGE_SIZE) % (PAGE_SIZE as int) == 0);
}

/// A mapping that is granted lies on a page boundary between the mapping base and the
/// kernel, unless a fixed address was asked for, which is then the answer.
pub proof fn lemma_mapping_lies_between(
    k: Kernel,
    tick: u64,
    addr: u64,
    len: u64,
    flags: u64,
    fd: u64,
    offset: u64,
    at: u64,
)
    requires
        mmap_fits(tick, addr, len, flags, fd),
        mmap_result(k, tick, addr, len, flags, fd, offset) == CallResult::Ok(at),
    ensures
        len > 0,
        frames::count_free(k.pool@) * PAGE_SIZE >= len,
        addr != 0 && flags & 0x10 != 0 ==> at == addr,
        addr == 0 || flags & 0x10 == 0 ==> at % PAGE_SIZE == 0 && MMAP_BASE <= at && at + len
            <= KERNEL_OFFSET,
{
    let up = bits::round_up(len as int, PAGE_SIZE as int);
    bits::lemma_round_up(len as int, PAGE_SIZE as int);
    if addr == 0 || flags & 0x10 == 0 {
        let room = KERNEL_OFFSET - MMAP_BASE - up;
        let slot = (tick * 4096 + fd * PAGE_SIZE) % room;
        assert(0 <= slot < room);
    }
}

/// A mapping is refused exactly if it is empty, if there are too few frames for it, or
/// if it starts behind the end of what it maps.
pub proof fn lemma_mapping_refused(
    k: Kernel,
    tick: u64,
    addr: u64,
    len: u64,
    flags: u64,
    fd: u64,
    offset: u64,
)
    ensures
        mmap_result(k, tick, addr, len, flags, fd, offset) is Err <==> len == 0 || frames::count_free(
            k.pool@,
        ) * PAGE_SIZE < len || flags & 0x20 == 0 && offset - offset % PAGE_SIZE >= len + PAGE_SIZE,
{
    let p = PAGE_SIZE as int;
    let up = bits::round_up(len as int, p);
    bits::lemma_round_up(len as int, p);
    let free = frames::count_free(k.pool@);
    let down = offset as int - offset as int % p;
    assert(down == bits::round_down(offset as int, p));
    assert((free * p) % p == 0);
    assert((down - p) % p == 0);
}

/// Only what starts on a page boundary can be unmapped.
pub proof fn lemma_unmap_wants_page(addr: u64, page: u64)
    requires
        page * PAGE_SIZE <= u64::MAX,
    ensures
        munmap_result((page * PAGE_SIZE) as u64) == CallResult::Ok(0),
        munmap_result(addr) is Ok ==> addr % PAGE_SIZE == 0,
{
}

impl Kernel {
    /// Checks a mapping and says where it would go.
    pub fn sys_mmap(&self, tick: u64, addr: u64, len: u64, flags: u64, fd: u64, offset: u64) -> (r:
        CallResult)
        requires
            mmap_fits(tick, addr, len, flags, fd),
        ensures
            r == mmap_result(*self, tick, addr, len, flags, fd, offset),
    {
        if len == 0 {
            return Err("einval");
        }
        proof {
            bits::lemma_page_is_pow2();
            bits::lemma_mask_up(len, PAGE_SIZE);
            bits::lemma_page_mask(offset);
        }
        let aligned_len: u64 = (len + (PAGE_SIZE - 1)) & !(PAGE_SIZE - 1);
        let aligned_off: u64 = offset & !(PAGE_SIZE - 1);
        let map_anon: bool = (flags & 0x20) != 0;
        let map_fixed: bool = (flags & 0x10) != 0;
        let result_addr: u64 = if addr != 0 && map_fixed {
            addr
        } else {
            let slot: u64 = (tick * 4096 + fd * PAGE_SIZE) % (KERNEL_OFFSET - MMAP_BASE
                - aligned_len);
            proof {
                bits::lemma_page_mask((MMAP_BASE + slot) as u64);
            }
            (MMAP_BASE + slot) & !(PAGE_SIZE - 1)
        };
        let pages_needed: u64 = aligned_len / PAGE_SIZE;
        let avail: u64 = self.pool.free_frame_count() as u64;
        if avail < pages_needed {
            return Err("enomem");
        }
        if !map_anon && aligned_off > aligned_len {
            return Err("einval");
        }
        Ok(result_addr)
    }

    pub fn sys_munmap(&self, addr: u64) -> (r: CallResult)
        ensures
            r == munmap_result(addr),
    {
        if addr % PAGE_SIZE != 0 {
            return Err("einval");
        }
        Ok(0)
    }

    /// Takes the `n` lowest free frames.
    fn take_frames(&mut self, n: u64)
        requires
            old(self).wf(),
            n <= frames::count_free(old(self).pool@),
        ensures
            final(self).wf(),
            *final(self) == (Kernel { pool: final(self).pool, ..*old(self) }),
            final(self).pool@ == frames::without(
                old(self).pool@,
                frames::lowest_frames(old(self).pool@, n as nat),
            ),
    {
        let ghost s = self.pool@;
        let ghost fl = frames::free_list(s);
        proof {
            frames::lemma_free_list(s);
            assert(fl.take(0) =~= Seq::<int>::empty());
            assert(frames::without(s, fl.take(0)) =~= s);
        }
        let mut i: u64 = 0;
        while i < n
            invariant
                i <= n <= fl.len(),
                fl == frames::free_list(s),
                *self == (Kernel { pool: self.pool, ..*old(self) }),
                old(self).wf(),
                self.pool.wf(),
                self.pool@ == frames::without(s, fl.take(i as int)),
            decreases n - i,
        {
            let taken = self.pool.alloc_frame_index();
            proof {
                frames::lemma_next_free(s, i as int, taken, self.pool@);
            }
            i = i + 1;
        }
    }

    /// Moves the end of the heap of the task that runs.
    pub fn sys_brk(&mut self, new_brk: u64) -> (r: CallResult)
        requires
            old(self).wf(),
        ensures
            final(self).wf(),
            brk_moved(*old(self), *final(self), new_brk, r),
            0 < new_brk ==> (r matches Ok(end) ==> end % PAGE_SIZE == 0 && new_brk <= end < new_brk
                + PAGE_SIZE),
            match kernel::running(*old(self), 0) {
                Some(t) => {
                    let a = old(self).tasks.store@[t as int].vm_token;
                    let b = final(self).tasks.store@[t as int].vm_token;
                    let taken = frames::count_free(old(self).pool@) - frames::count_free(
                        final(self).pool@,
                    );
                    a % PAGE_SIZE == 0 ==> taken * PAGE_SIZE == if b >= a {
                        b - a
                    } else {
                        0
                    }
                },
                None => final(self).pool@ == old(self).pool@,
            },
    {
        if new_brk == 0 {
            return Ok(BRK_BASE);
        }
        if new_brk >= KERNEL_OFFSET {
            return Err("enomem");
        }
        proof {
            bits::lemma_page_is_pow2();
            bits::lemma_mask_up(new_brk, PAGE_SIZE);
        }
        let aligned: u64 = (new_brk + (PAGE_SIZE - 1)) & !(PAGE_SIZE - 1);
        match self.cur_task(0) {
            Some(t) => {
                assert(self.cpus@[0] == Some(t));
                assert(table::links_ok(self.tasks.store@[t as int], self.tasks.store@.len()));
                let old_brk: u64 = self.tasks.store[t].vm_token;
                let mut need: u64 = 0;
                if aligned > old_brk {
                    need = (aligned - old_brk) / PAGE_SIZE;
                    let free: u64 = self.pool.free_frame_count() as u64;
                    if free < need {
                        return Err("enomem");
                    }
                }
                self.take_frames(need);
                let ghost mid = *self;
                self.tasks.store[t].vm_token = aligned;
                proof {
                    kernel::lemma_one_task(mid, *self, t);
                    lemma_brk_takes_growth(*old(self), *self, new_brk, aligned, t);
                }
            },
            None => {},
        }
        Ok(aligned)
    }
}

/// Asking for 0 tells the base of the heap and moves nothing; without a task there is no
/// heap to move.
pub proof fn lemma_brk_without_move(before: Kernel, after: Kernel, new_brk: u64, r: CallResult)
    requires
        brk_moved(before, after, new_brk, r),
        new_brk == 0 || kernel::running(before, 0) is None,
    ensures
        after == before,
        new_brk == 0 ==> r == CallResult::Ok(BRK_BASE),
        0 < new_brk < KERNEL_OFFSET ==> r is Ok,
        new_brk >= KERNEL_OFFSET ==> r is Err,
{
}

} // verus!
