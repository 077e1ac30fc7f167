//! Physical frames: the free bitmap, zones, reference counts and heap growth.
use crate::consts::{
    MEMORY_OFFSET, PAGE_SIZE, PHYSICAL_MEMORY_OFFSET, VM_EXEC, VM_SHARED, VM_WRITE,
};
use crate::memory::region::VmRegion;
use crate::sync::mutex;
use crate::sync::mutex::KernelLock;
use vstd::arithmetic::power2::*;
use vstd::prelude::*;

verus! {

/// How many entries of the bitmap are set.
pub open spec fn count_free(s: Seq<bool>) -> nat
    decreases s.len(),
{
    if s.len() == 0 {
        0
    } else {
        count_free(s.drop_last()) + if s.last() {
            1nat
        } else {
            0nat
        }
    }
}

/// Changing one entry changes the count by that entry alone.
pub proof fn lemma_count_update(s: Seq<bool>, i: int, v: bool)
    requires
        0 <= i < s.len(),
    ensures
        count_free(s.update(i, v)) == count_free(s) + (if v {
            1int
        } else {
            0int
        }) - (if s[i] {
            1int
        } else {
            0int
        }),
    decreases s.len(),
{
    let t = s.update(i, v);
    if i == s.len() - 1 {
        assert(t.drop_last() =~= s.drop_last());
    } else {
        assert(t.drop_last() =~= s.drop_last().update(i, v));
        lemma_count_update(s.drop_last(), i, v);
    }
}

/// The count is at most the length, and zero exactly if nothing is set.
pub proof fn lemma_count_bounds(s: Seq<bool>)
    ensures
        count_free(s) <= s.len(),
        count_free(s) == 0 <==> forall|i: int| 0 <= i < s.len() ==> !#[trigger] s[i],
    decreases s.len(),
{
    if s.len() > 0 {
        let f = s.drop_last();
        lemma_count_bounds(f);
        if count_free(s) == 0 {
            assert forall|i: int| 0 <= i < s.len() implies !#[trigger] s[i] by {
                if i < f.len() {
                    assert(!f[i]);
                }
            }
        } else {
            if count_free(f) != 0 {
                let i = choose|i: int| 0 <= i < f.len() && #[trigger] f[i];
                assert(s[i]);
            } else {
                assert(s[s.len() - 1]);
            }
        }
    }
}

/// `i` is the lowest set entry.
pub open spec fn is_first_free(s: Seq<bool>, i: int) -> bool {
    &&& 0 <= i < s.len()
    &&& s[i]
    &&& forall|j: int| 0 <= j < i ==> !#[trigger] s[j]
}

pub open spec fn none_free(s: Seq<bool>) -> bool {
    forall|j: int| 0 <= j < s.len() ==> !#[trigger] s[j]
}

/// The bitmap after the lowest free frame has been taken.
pub open spec fn took_first(before: Seq<bool>, after: Seq<bool>, r: Option<usize>) -> bool {
    match r {
        Some(i) => is_first_free(before, i as int) && after == before.update(i as int, false),
        None => none_free(before) && after == before,
    }
}

/// The physical address of a frame.
pub open spec fn frame_addr(index: int) -> int {
    index * PAGE_SIZE + MEMORY_OFFSET
}

/// The address of a frame as a word, if it fits in one.
pub open spec fn frame_word(index: int) -> Option<u64> {
    if frame_addr(index) <= u64::MAX {
        Some(frame_addr(index) as u64)
    } else {
        None
    }
}

/// A zone of physical frames with its watermarks.
pub struct ZoneInfo {
    pub zone_id: usize,
    /// First frame number of the zone.
    pub base_pfn: usize,
    pub page_count: usize,
    /// Frames of the zone that are free.
    pub free_count: usize,
    /// Ordinary allocations stop at this many free frames.
    pub low_watermark: usize,
    /// Reclaim aims for this many free frames.
    pub high_watermark: usize,
    pub managed: bool,
}

impl ZoneInfo {
    /// The zone ends inside the range of frame numbers.
    pub open spec fn fits(&self) -> bool {
        self.base_pfn + self.page_count <= usize::MAX
    }

    pub open spec fn holds(&self, pfn: int) -> bool {
        self.base_pfn <= pfn < self.base_pfn + self.page_count
    }

    pub fn new(id: usize, base: usize, count: usize, low: usize, high: usize) -> (r: Self)
        ensures
            r == (ZoneInfo {
                zone_id: id,
                base_pfn: base,
                page_count: count,
                free_count: count,
                low_watermark: low,
                high_watermark: high,
                managed: true,
            }),
    {
        Self {
            zone_id: id,
            base_pfn: base,
            page_count: count,
            free_count: count,
            low_watermark: low,
            high_watermark: high,
            managed: true,
        }
    }

    /// Whether ordinary allocations may still take frames.
    pub fn zone_can_alloc(&self) -> (r: bool)
        ensures
            r == (self.free_count > self.low_watermark),
    {
        self.free_count > self.low_watermark
    }

    /// How far the free count has fallen from the high to the low watermark, in
    /// percent.
    pub fn zone_pressure(&self) -> (r: usize)
        requires
            self.low_watermark < self.free_count < self.high_watermark ==> (self.high_watermark
                - self.free_count) * 100 <= usize::MAX,
        ensures
            r == (if self.free_count >= self.high_watermark {
                0int
            } else if self.free_count <= self.low_watermark {
                100int
            } else {
                (self.high_watermark - self.free_count) * 100 / (self.high_watermark
                    - self.low_watermark)
            }),
    {
        let free = self.free_count;
        if free >= self.high_watermark {
            return 0;
        }
        if free <= self.low_watermark {
            return 100;
        }
        let range: usize = self.high_watermark - self.low_watermark;
        let deficit: usize = self.high_watermark - free;
        (deficit * 100) / range
    }

    /// How many frames reclaim has to free.
    pub fn reclaim_target(&self) -> (r: usize)
        ensures
            r == (if self.free_count >= self.high_watermark {
                0
            } else {
                self.high_watermark - self.free_count
            }),
    {
        if self.free_count >= self.high_watermark {
            return 0;
        }
        self.high_watermark - self.free_count
    }

    pub fn contains_pfn(&self, pfn: usize) -> (r: bool)
        requires
            self.fits(),
        ensures
            r == self.holds(pfn as int),
    {
        pfn >= self.base_pfn && pfn < self.base_pfn + self.page_count
    }
}

/// The pressure of a zone is a percentage.
pub proof fn lemma_pressure_is_percentage(zone: ZoneInfo)
    requires
        zone.low_watermark < zone.free_count < zone.high_watermark,
    ensures
        0 <= (zone.high_watermark - zone.free_count) * 100 / (zone.high_watermark
            - zone.low_watermark) <= 100,
{
    let d = zone.high_watermark - zone.free_count;
    let r = zone.high_watermark - zone.low_watermark;
    assert(0 <= d * 100 / r <= 100) by (nonlinear_arith)
        requires
            0 < d < r,
    ;
}

/// Every frame of `[start, start + n)` is free.
pub open spec fn run_free(s: Seq<bool>, start: int, n: int) -> bool {
    &&& 0 <= start
    &&& start + n <= s.len()
    &&& forall|j: int| start <= j < start + n ==> #[trigger] s[j]
}

/// An aligned start of a free run.
pub open spec fn is_run(s: Seq<bool>, n: int, align_log2: nat, start: int) -> bool {
    &&& start % (pow2(align_log2) as int) == 0
    &&& run_free(s, start, n)
}

/// `s` with the frames of `[start, start + n)` taken.
pub open spec fn with_run_taken(s: Seq<bool>, start: int, n: int) -> Seq<bool> {
    Seq::new(s.len(), |j: int| s[j] && !(start <= j < start + n))
}

/// The lowest free frame of a zone in the pool.
pub open spec fn is_first_free_in(s: Seq<bool>, zone: ZoneInfo, i: int) -> bool {
    &&& 0 <= i < s.len()
    &&& s[i]
    &&& zone.holds(i)
    &&& forall|j: int| 0 <= j < i && zone.holds(j) ==> !#[trigger] s[j]
}

/// The pool of physical frames: one flag per frame, set while the frame is free.
pub struct FramePool {
    pub frame_is_free: Vec<bool>,
    pub frame_count: usize,
}

impl View for FramePool {
    type V = Seq<bool>;

    open spec fn view(&self) -> Seq<bool> {
        self.frame_is_free@
    }
}

impl FramePool {
    pub open spec fn wf(&self) -> bool {
        self.frame_count == self@.len()
    }

    /// A pool in which every frame is free.
    pub fn new(frame_count: usize) -> (r: Self)
        ensures
            r.wf(),
            r@ == Seq::new(frame_count as nat, |i: int| true),
    {
        let r = Self { frame_is_free: vec![true; frame_count], frame_count };
        assert(r@ =~= Seq::new(frame_count as nat, |i: int| true));
        r
    }

    /// As `alloc_frame_index`, inside a section of the kernel lock.
    pub fn alloc_frame_index_with_kernel_lock(
        &mut self,
        lock: &mut KernelLock,
        thread: u64,
        lock_owner_id: usize,
    ) -> (r: Option<usize>)
        requires
            old(self).wf(),
            old(lock).wf(),
            mutex::available_to(old(lock)@, thread),
            mutex::depth_fits(old(lock)@),
        ensures
            final(self).wf(),
            took_first(old(self)@, final(self)@, r),
            final(lock).wf(),
            final(lock)@ == old(lock)@,
    {
        lock.enter(thread, lock_owner_id);
        let frame_index = self.alloc_frame_index();
        lock.leave();
        proof {
            old(lock).lemma_held_depth();
            mutex::lemma_leave_undoes_enter(old(lock)@, thread, lock_owner_id);
        }
        frame_index
    }

    /// Takes the lowest free frame.
    pub fn alloc_frame_index(&mut self) -> (r: Option<usize>)
        requires
            old(self).wf(),
        ensures
            final(self).wf(),
            took_first(old(self)@, final(self)@, r),
    {
        let mut frame_index: usize = 0;
        while frame_index < self.frame_is_free.len()
            invariant
                frame_index <= self@.len(),
                *self == *old(self),
                self.wf(),
                forall|j: int| 0 <= j < frame_index ==> !#[trigger] self@[j],
            decreases self@.len() - frame_index,
        {
            if self.frame_is_free[frame_index] {
                self.frame_is_free.set(frame_index, false);
                return Some(frame_index);
            }
            frame_index = frame_index + 1;
        }
        None
    }

    /// Takes the lowest run of `frame_count` free frames whose first is a multiple
    /// of `2^align_log2`.
    pub fn alloc_contiguous_frames(&mut self, frame_count: usize, align_log2: usize) -> (r: Option<
        usize,
    >)
        requires
            old(self).wf(),
        ensures
            final(self).wf(),
            match r {
                Some(start) => {
                    &&& frame_count > 0
                    &&& align_log2 < usize::BITS
                    &&& is_run(old(self)@, frame_count as int, align_log2 as nat, start as int)
                    &&& forall|x: int|
                        #[trigger] is_run(old(self)@, frame_count as int, align_log2 as nat, x)
                            ==> start <= x
                    &&& final(self)@ == with_run_taken(
                        old(self)@,
                        start as int,
                        frame_count as int,
                    )
                },
                None => {
                    &&& final(self)@ == old(self)@
                    &&& frame_count > 0 && align_log2 < usize::BITS ==> forall|x: int|
                        !#[trigger] is_run(old(self)@, frame_count as int, align_log2 as nat, x)
                },
            },
    {
        if frame_count == 0 || align_log2 >= usize::BITS as usize {
            return None;
        }
        let ghost s = self@;
        let ghost n = frame_count as int;
        let ghost al = align_log2 as nat;
        proof {
            vstd::bits::lemma_usize_pow2_no_overflow(al);
            vstd::bits::lemma_usize_shl_is_mul(1, align_log2);
            lemma_pow2_pos(al);
        }
        let frame_alignment: usize = 1usize << align_log2;
        let len = self.frame_is_free.len();
        let mut start_index: usize = 0;
        while start_index < len
            invariant_except_break
                self@ == s,
                forall|x: int| #[trigger] is_run(s, n, al, x) ==> start_index <= x,
            invariant
                self.wf(),
                s == old(self)@,
                len == s.len(),
                n == frame_count,
                n > 0,
                al == align_log2,
                al < usize::BITS,
                frame_alignment == pow2(al),
                frame_alignment > 0,
                start_index as int % (pow2(al) as int) == 0,
            ensures
                self@ == s,
                forall|x: int| !#[trigger] is_run(s, n, al, x),
            decreases len - start_index,
        {
            if frame_count > len - start_index {
                break;
            }
            let mut free = true;
            let mut j: usize = start_index;
            while j < start_index + frame_count
                invariant
                    start_index <= j <= start_index + frame_count <= len,
                    self@ == s,
                    len == s.len(),
                    free ==> forall|k: int| start_index <= k < j ==> #[trigger] s[k],
                    !free ==> exists|k: int| start_index <= k < j && !#[trigger] s[k],
                decreases start_index + frame_count - j,
            {
                if !self.frame_is_free[j] {
                    free = false;
                }
                j = j + 1;
            }
            if free {
                let mut k: usize = start_index;
                while k < start_index + frame_count
                    invariant
                        start_index <= k <= start_index + frame_count <= len,
                        self.wf(),
                        len == s.len(),
                        self@ == with_run_taken(s, start_index as int, k - start_index),
                    decreases start_index + frame_count - k,
                {
                    self.frame_is_free.set(k, false);
                    k = k + 1;
                    assert(self@ =~= with_run_taken(s, start_index as int, k - start_index));
                }
                assert(is_run(s, n, al, start_index as int));
                return Some(start_index);
            }
            proof {
                assert forall|x: int| #[trigger] is_run(s, n, al, x) implies start_index
                    + frame_alignment <= x by {
                    if x == start_index {
                        let k = choose|k: int| start_index <= k < j && !#[trigger] s[k];
                        assert(s[k]);
                    }
                    lemma_next_multiple(start_index as int, x, frame_alignment as int);
                }
                lemma_step_multiple(start_index as int, frame_alignment as int);
            }
            if frame_alignment > len - start_index {
                assert forall|x: int| !#[trigger] is_run(s, n, al, x) by {
                    if is_run(s, n, al, x) {
                        assert(start_index + frame_alignment <= x);
                    }
                }
                break;
            }
            start_index = start_index + frame_alignment;
        }
        None
    }

    /// Marks a frame free; numbers outside the pool are ignored.
    pub fn free_frame_index(&mut self, frame_index: usize)
        requires
            old(self).wf(),
        ensures
            final(self).wf(),
            final(self)@ == if frame_index < old(self)@.len() {
                old(self)@.update(frame_index as int, true)
            } else {
                old(self)@
            },
    {
        if frame_index < self.frame_is_free.len() {
            self.frame_is_free.set(frame_index, true);
        }
    }

    pub fn is_frame_free(&self, frame_index: usize) -> (r: bool)
        ensures
            r == (frame_index < self@.len() && self@[frame_index as int]),
    {
        frame_index < self.frame_is_free.len() && self.frame_is_free[frame_index]
    }

    pub fn free_frame_count(&self) -> (r: usize)
        ensures
            r == count_free(self@),
    {
        count_set(&self.frame_is_free)
    }

    /// Takes the lowest free frame of a zone, while the zone is above its low
    /// watermark.
    pub fn alloc_frame_index_from_zone(&mut self, zone: &mut ZoneInfo) -> (r: Option<usize>)
        requires
            old(self).wf(),
            old(zone).fits(),
        ensures
            final(self).wf(),
            match r {
                Some(i) => {
                    &&& old(zone).free_count > old(zone).low_watermark
                    &&& is_first_free_in(old(self)@, *old(zone), i as int)
                    &&& final(self)@ == old(self)@.update(i as int, false)
                    &&& *final(zone) == (ZoneInfo {
                        free_count: (old(zone).free_count - 1) as usize,
                        ..*old(zone)
                    })
                },
                None => {
                    &&& final(self)@ == old(self)@
                    &&& *final(zone) == *old(zone)
                    &&& old(zone).free_count > old(zone).low_watermark ==> forall|j: int|
                        0 <= j < old(self)@.len() && old(zone).holds(j) ==> !#[trigger] old(self)@[j]
                },
            },
    {
        if !zone.zone_can_alloc() {
            return None;
        }
        let zone_start = zone.base_pfn;
        let zone_end: usize = zone_start + zone.page_count;
        let len = self.frame_is_free.len();
        let stop: usize = if zone_end < len {
            zone_end
        } else {
            len
        };
        let mut frame_index: usize = zone_start;
        while frame_index < stop
            invariant
                zone_start <= frame_index,
                stop <= len == self@.len(),
                stop <= zone_end,
                *self == *old(self),
                *zone == *old(zone),
                self.wf(),
                zone_start == zone.base_pfn,
                zone_end == zone.base_pfn + zone.page_count,
                zone.free_count > zone.low_watermark,
                forall|j: int| zone_start <= j < frame_index && j < stop ==> !#[trigger] self@[j],
            decreases stop - frame_index,
        {
            if self.frame_is_free[frame_index] {
                self.frame_is_free.set(frame_index, false);
                zone.free_count = zone.free_count - 1;
                return Some(frame_index);
            }
            frame_index = frame_index + 1;
        }
        None
    }

    /// Returns a frame to the pool and to its zone. A frame of another zone, or one
    /// that is free already, changes nothing.
    pub fn free_frame_index_to_zone(&mut self, frame_index: usize, zone: &mut ZoneInfo)
        requires
            old(self).wf(),
            old(zone).fits(),
        ensures
            final(self).wf(),
            ({
                let taken = old(zone).holds(frame_index as int) && frame_index < old(self)@.len()
                    && !old(self)@[frame_index as int];
                &&& taken ==> final(self)@ == old(self)@.update(frame_index as int, true)
                    && *final(zone) == (ZoneInfo {
                    free_count: old(zone).free_count.wrapping_add(1),
                    ..*old(zone)
                })
                &&& !taken ==> final(self)@ == old(self)@ && *final(zone) == *old(zone)
            }),
    {
        if !zone.contains_pfn(frame_index) {
            return;
        }
        if frame_index < self.frame_is_free.len() && !self.frame_is_free[frame_index] {
            self.frame_is_free.set(frame_index, true);
            zone.free_count = zone.free_count.wrapping_add(1);
        }
    }

    /// Takes the lowest free frames, up to `requested_count` of them. If there are
    /// fewer, all that there are.
    pub fn alloc_frame_indices_at_most(&mut self, requested_count: usize) -> (r: Vec<usize>)
        requires
            old(self).wf(),
        ensures
            final(self).wf(),
            r@.len() <= requested_count,
            forall|i: int, j: int| 0 <= i < j < r@.len() ==> r@[i] < r@[j],
            forall|i: int|
                0 <= i < r@.len() ==> (#[trigger] r@[i]) < old(self)@.len() && old(self)@[r@[i] as int],
            forall|k: usize|
                k < old(self)@.len() && #[trigger] old(self)@[k as int] && !r@.contains(k)
                    ==> r@.len() == requested_count && forall|i: int|
                    0 <= i < r@.len() ==> #[trigger] r@[i] < k,
            final(self)@.len() == old(self)@.len(),
            forall|k: usize|
                k < old(self)@.len() ==> #[trigger] final(self)@[k as int] == (old(self)@[k as int] && !r@.contains(k)),
    {
        let ghost s = self@;
        let mut allocated: Vec<usize> = Vec::new();
        let mut frame_index: usize = 0;
        while frame_index < self.frame_is_free.len() && allocated.len() < requested_count
            invariant
                self.wf(),
                s == old(self)@,
                self@.len() == s.len(),
                frame_index <= s.len(),
                allocated@.len() <= requested_count,
                forall|i: int, j: int|
                    0 <= i < j < allocated@.len() ==> allocated@[i] < allocated@[j],
                forall|i: int|
                    0 <= i < allocated@.len() ==> (#[trigger] allocated@[i]) < frame_index
                        && s[allocated@[i] as int],
                forall|k: usize|
                    k < frame_index && #[trigger] s[k as int] ==> allocated@.contains(k),
                forall|k: usize|
                    k < s.len() ==> #[trigger] self@[k as int] == (s[k as int]
                        && !allocated@.contains(k)),
            decreases s.len() - frame_index,
        {
            let ghost before = allocated@;
            let ghost bits = self@;
            if self.frame_is_free[frame_index] {
                self.frame_is_free.set(frame_index, false);
                allocated.push(frame_index);
            }
            proof {
                assert(s[frame_index as int] == bits[frame_index as int]) by {
                    if before.contains(frame_index) {
                        let i = choose|i: int| 0 <= i < before.len() && before[i] == frame_index;
                        assert(before[i] < frame_index);
                    }
                }
                assert forall|k: usize| allocated@.contains(k) <==> before.contains(k) || (
                bits[frame_index as int] && k == frame_index) by {
                    if before.contains(k) {
                        let i = choose|i: int| 0 <= i < before.len() && before[i] == k;
                        assert(allocated@[i] == k);
                    }
                    if bits[frame_index as int] {
                        assert(allocated@[before.len() as int] == frame_index);
                    }
                }
            }
            frame_index = frame_index + 1;
        }
        allocated
    }
}

proof fn lemma_next_multiple(start: int, x: int, a: int)
    requires
        a > 0,
        start % a == 0,
        x % a == 0,
        start < x,
    ensures
        start + a <= x,
{
    assert(start + a <= x) by (nonlinear_arith)
        requires
            a > 0,
            start % a == 0,
            x % a == 0,
            start < x,
    ;
}

proof fn lemma_step_multiple(start: int, a: int)
    requires
        a > 0,
        start % a == 0,
    ensures
        (start + a) % a == 0,
{
    vstd::arithmetic::div_mod::lemma_mod_add_multiples_vanish(start, a);
}

fn count_set(bits: &Vec<bool>) -> (r: usize)
    ensures
        r == count_free(bits@),
{
    let mut count: usize = 0;
    let mut i: usize = 0;
    while i < bits.len()
        invariant
            i <= bits@.len(),
            count <= i,
            count == count_free(bits@.take(i as int)),
        decreases bits@.len() - i,
    {
        assert(bits@.take(i + 1).drop_last() =~= bits@.take(i as int));
        if bits[i] {
            count = count + 1;
        }
        i = i + 1;
    }
    assert(bits@.take(i as int) =~= bits@);
    count
}

/// Counts the free frames of a bitmap. Nothing is moved.
pub fn defragment_frame_pool(frame_is_free: &mut Vec<bool>) -> (r: usize)
    ensures
        r == count_free(old(frame_is_free)@),
        *final(frame_is_free) == *old(frame_is_free),
{
    count_set(frame_is_free)
}

fn to_frame_addr(frame_index: usize) -> (r: Option<u64>)
    ensures
        r == frame_word(frame_index as int),
{
    match (frame_index as u64).checked_mul(PAGE_SIZE) {
        Some(frame_offset) => MEMORY_OFFSET.checked_add(frame_offset),
        None => None,
    }
}

/// Takes the lowest free frame and returns its physical address.
pub fn frame_alloc(pool: &mut FramePool) -> (r: Option<u64>)
    requires
        old(pool).wf(),
    ensures
        final(pool).wf(),
        exists|taken: Option<usize>|
            {
                &&& #[trigger] took_first(old(pool)@, final(pool)@, taken)
                &&& r == (match taken {
                    Some(i) => frame_word(i as int),
                    None => None,
                })
            },
{
    let taken = pool.alloc_frame_index();
    assert(took_first(old(pool)@, pool@, taken));
    match taken {
        Some(frame_index) => to_frame_addr(frame_index),
        None => None,
    }
}

/// The free frames, in rising order.
pub open spec fn free_list(s: Seq<bool>) -> Seq<int>
    decreases s.len(),
{
    if s.len() == 0 {
        Seq::empty()
    } else if s.last() {
        free_list(s.drop_last()).push(s.len() - 1)
    } else {
        free_list(s.drop_last())
    }
}

/// The lowest free frames, at most `n` of them, in rising order.
pub open spec fn lowest_frames(s: Seq<bool>, n: nat) -> Seq<int> {
    if n <= free_list(s).len() {
        free_list(s).take(n as int)
    } else {
        free_list(s)
    }
}

/// The pool once the listed frames are in use.
pub open spec fn without(s: Seq<bool>, list: Seq<int>) -> Seq<bool> {
    Seq::new(s.len(), |j: int| s[j] && !list.contains(j))
}

/// The free list holds each free frame once, in rising order.
pub proof fn lemma_free_list(s: Seq<bool>)
    ensures
        free_list(s).len() == count_free(s),
        forall|j: int| #[trigger] free_list(s).contains(j) <==> 0 <= j < s.len() && s[j],
        forall|a: int, b: int|
            0 <= a < b < free_list(s).len() ==> free_list(s)[a] < free_list(s)[b],
        forall|a: int| 0 <= a < free_list(s).len() ==> 0 <= #[trigger] free_list(s)[a] < s.len(),
    decreases s.len(),
{
    if s.len() > 0 {
        let t = s.drop_last();
        lemma_free_list(t);
        let ft = free_list(t);
        let fs = free_list(s);
        assert forall|j: int| #[trigger] fs.contains(j) <==> 0 <= j < s.len() && s[j] by {
            assert(ft.contains(j) <==> 0 <= j < t.len() && t[j]);
            if ft.contains(j) {
                let a = choose|a: int| 0 <= a < ft.len() && ft[a] == j;
                assert(fs[a] == j);
            }
            if s.last() {
                assert(fs[fs.len() - 1] == s.len() - 1);
            }
        }
    }
}

/// The first free frame once the `i` lowest are taken is the next of the list.
pub proof fn lemma_next_free(s: Seq<bool>, i: int, x: Option<usize>, after: Seq<bool>)
    requires
        0 <= i <= free_list(s).len(),
        took_first(without(s, free_list(s).take(i)), after, x),
    ensures
        match x {
            Some(f) => i < free_list(s).len() && free_list(s)[i] == f && after == without(
                s,
                free_list(s).take(i + 1),
            ),
            None => i == free_list(s).len() && after == without(s, free_list(s).take(i)),
        },
{
    lemma_free_list(s);
    let fl = free_list(s);
    let here = fl.take(i);
    let cur = without(s, here);
    if i < fl.len() {
        let next = fl.take(i + 1);
        let y = fl[i];
        assert(fl.contains(y));
        assert(!here.contains(y)) by {
            if here.contains(y) {
                let a = choose|a: int| 0 <= a < here.len() && here[a] == y;
                assert(fl[a] < fl[i]);
            }
        }
        assert(cur[y]);
        match x {
            Some(f) => {
                assert(cur[f as int]);
                assert(fl.contains(f as int));
                let b = choose|b: int| 0 <= b < fl.len() && fl[b] == f as int;
                if b < i {
                    assert(here[b] == f as int);
                }
                if b > i {
                    assert(fl[i] < fl[b]);
                }
                assert(b == i);
                assert forall|j: int| 0 <= j < s.len() implies after[j] == without(s, next)[j] by {
                    if next.contains(j) {
                        let a = choose|a: int| 0 <= a < next.len() && next[a] == j;
                        if a < i {
                            assert(here[a] == j);
                        }
                    }
                    if here.contains(j) {
                        let a = choose|a: int| 0 <= a < here.len() && here[a] == j;
                        assert(next[a] == j);
                    }
                    assert(next[i] == y);
                }
                assert(after =~= without(s, next));
            },
            None => {},
        }
    } else {
        match x {
            Some(f) => {
                assert(cur[f as int]);
                assert(fl.contains(f as int));
                let b = choose|b: int| 0 <= b < fl.len() && fl[b] == f as int;
                assert(here[b] == f as int);
            },
            None => {},
        }
    }
}

/// Freeing the frames that were taken gives the pool back.
pub proof fn lemma_freeing_undoes_taking(s: Seq<bool>, n: nat, after: Seq<bool>)
    requires
        after.len() == s.len(),
        forall|j: int|
            0 <= j < s.len() ==> #[trigger] after[j] == (without(s, lowest_frames(s, n))[j]
                || lowest_frames(s, n).contains(j)),
    ensures
        after == s,
{
    lemma_free_list(s);
    let low = lowest_frames(s, n);
    assert forall|j: int| 0 <= j < s.len() implies after[j] == s[j] by {
        if low.contains(j) {
            let a = choose|a: int| 0 <= a < low.len() && low[a] == j;
            assert(free_list(s)[a] == j);
            assert(free_list(s).contains(j));
        }
    }
    assert(after =~= s);
}

/// Frees the frame at a physical address. An address that is not the start of a
/// frame of the pool is ignored.
pub fn frame_dealloc(pool: &mut FramePool, phys_addr: u64)
    requires
        old(pool).wf(),
    ensures
        final(pool).wf(),
        final(pool)@.len() == old(pool)@.len(),
        forall|i: int|
            0 <= i < old(pool)@.len() ==> #[trigger] final(pool)@[i] == (old(pool)@[i]
                || frame_addr(i) == phys_addr),
{
    if phys_addr < MEMORY_OFFSET {
        return;
    }
    let frame_offset: u64 = phys_addr - MEMORY_OFFSET;
    if frame_offset % PAGE_SIZE != 0 {
        return;
    }
    let index: u64 = frame_offset / PAGE_SIZE;
    if index < pool.frame_is_free.len() as u64 {
        pool.free_frame_index(index as usize);
    }
}

/// Takes the lowest aligned run of free frames and returns the physical address of
/// its first.
pub fn frame_alloc_contig(pool: &mut FramePool, frame_count: usize, align_log2: usize) -> (r: Option<
    u64,
>)
    requires
        old(pool).wf(),
    ensures
        final(pool).wf(),
        (exists|start: int|
            {
                &&& frame_count > 0
                &&& align_log2 < usize::BITS
                &&& #[trigger] is_run(old(pool)@, frame_count as int, align_log2 as nat, start)
                &&& forall|x: int|
                    #[trigger] is_run(old(pool)@, frame_count as int, align_log2 as nat, x)
                        ==> start <= x
                &&& final(pool)@ == with_run_taken(old(pool)@, start, frame_count as int)
                &&& r == frame_word(start)
            }) || ({
            &&& r is None
            &&& final(pool)@ == old(pool)@
            &&& frame_count > 0 && align_log2 < usize::BITS ==> forall|x: int|
                !#[trigger] is_run(old(pool)@, frame_count as int, align_log2 as nat, x)
        }),
{
    match pool.alloc_contiguous_frames(frame_count, align_log2) {
        Some(start_index) => {
            assert(is_run(
                old(pool)@,
                frame_count as int,
                align_log2 as nat,
                start_index as int,
            ));
            to_frame_addr(start_index)
        },
        None => None,
    }
}

/// Allocating and freeing a frame leaves the pool as it was.
pub proof fn lemma_free_undoes_alloc(before: Seq<bool>, after: Seq<bool>, i: usize)
    requires
        took_first(before, after, Some(i)),
    ensures
        after.update(i as int, true) == before,
        count_free(after) == count_free(before) - 1,
        !after[i as int],
{
    assert(after.update(i as int, true) =~= before);
    lemma_count_update(before, i as int, false);
}

/// A frame that is in use is never handed out.
pub proof fn lemma_used_frame_not_handed_out(
    before: Seq<bool>,
    after: Seq<bool>,
    r: Option<usize>,
    used: int,
)
    requires
        took_first(before, after, r),
        0 <= used < before.len(),
        !before[used],
    ensures
        r != Some(used as usize) || used > usize::MAX,
        !after[used],
{
}

/// The reference count of one physical frame.
#[derive(Clone, Copy, Debug, PartialEq, Eq, Structural)]
pub struct PgFrame {
    pub rc: usize,
}

impl PgFrame {
    pub fn new() -> (r: Self)
        ensures
            r.rc == 0,
    {
        Self { rc: 0 }
    }

    pub fn with_rc(n: usize) -> (r: Self)
        ensures
            r.rc == n,
    {
        Self { rc: n }
    }

    /// Takes one more reference and returns the count before.
    pub fn up(&mut self) -> (r: usize)
        ensures
            r == old(self).rc,
            final(self).rc == old(self).rc.wrapping_add(1),
    {
        let prev = self.rc;
        self.rc = prev.wrapping_add(1);
        prev
    }

    /// Drops one reference and returns the count before.
    pub fn down(&mut self) -> (r: usize)
        ensures
            r == old(self).rc,
            final(self).rc == old(self).rc.wrapping_sub(1),
    {
        let prev = self.rc;
        self.rc = prev.wrapping_sub(1);
        prev
    }

    pub fn count(&self) -> (r: usize)
        ensures
            r == self.rc,
    {
        self.rc
    }

    pub fn set(&mut self, n: usize)
        ensures
            final(self).rc == n,
    {
        self.rc = n;
    }

    /// Changes the count if it is the expected one, and says whether it was.
    pub fn cas(&mut self, expected: usize, desired: usize) -> (r: bool)
        ensures
            r == (old(self).rc == expected),
            final(self).rc == if r {
                desired
            } else {
                old(self).rc
            },
    {
        if self.rc == expected {
            self.rc = desired;
            true
        } else {
            false
        }
    }

    /// Takes one more reference, unless the frame is already being released or the
    /// count is full.
    pub fn inc_if_nonzero(&mut self) -> (r: bool)
        ensures
            r == (0 < old(self).rc < usize::MAX),
            final(self).rc == if r {
                (old(self).rc + 1) as usize
            } else {
                old(self).rc
            },
    {
        if self.rc == 0 {
            return false;
        }
        match self.rc.checked_add(1) {
            Some(next) => {
                self.rc = next;
                true
            },
            None => false,
        }
    }
}

/// A reference taken and dropped leaves the count as it was.
pub proof fn lemma_down_undoes_up(rc: usize)
    ensures
        rc.wrapping_add(1).wrapping_sub(1) == rc,
        rc.wrapping_sub(1).wrapping_add(1) == rc,
{
}

/// The first free frame at or after `start`, going round the pool, from the
/// `skipped`-th step on.
pub open spec fn round_robin(s: Seq<bool>, start: int, skipped: nat) -> Option<int>
    decreases s.len() - skipped,
{
    if skipped >= s.len() {
        None
    } else if s[(start + skipped) % (s.len() as int)] {
        Some((start + skipped) % (s.len() as int))
    } else {
        round_robin(s, start, skipped + 1)
    }
}

/// The direct-map address of a frame.
pub open spec fn page_va(pg: int) -> int {
    PHYSICAL_MEMORY_OFFSET + pg * PAGE_SIZE
}

/// Where heap growth looks next: behind the range it got last.
pub open spec fn grow_hint(ranges: Seq<(u64, u64)>) -> int {
    if ranges.len() == 0 {
        0
    } else {
        (ranges.last().0 - PHYSICAL_MEMORY_OFFSET) / (PAGE_SIZE as int) + ranges.last().1 as int / (
        PAGE_SIZE as int)
    }
}

/// The ranges with one more page: joined to the last range if it touches it, a
/// range of its own otherwise.
pub open spec fn with_page(ranges: Seq<(u64, u64)>, va: u64) -> Seq<(u64, u64)> {
    if ranges.len() > 0 && ranges.last().0 + ranges.last().1 == va {
        ranges.drop_last().push((ranges.last().0, (ranges.last().1 + PAGE_SIZE) as u64))
    } else if ranges.len() > 0 && va + PAGE_SIZE == ranges.last().0 {
        ranges.drop_last().push((va, (ranges.last().1 + PAGE_SIZE) as u64))
    } else {
        ranges.push((va, PAGE_SIZE))
    }
}

/// What is left of the pool, and the ranges acquired, after growing by up to `n`
/// pages.
pub open spec fn grown(s: Seq<bool>, ranges: Seq<(u64, u64)>, n: nat) -> (
    Seq<bool>,
    Seq<(u64, u64)>,
)
    decreases n,
{
    if n == 0 {
        (s, ranges)
    } else {
        match round_robin(s, grow_hint(ranges), 0) {
            Some(pg) => grown(
                s.update(pg, false),
                with_page(ranges, page_va(pg) as u64),
                (n - 1) as nat,
            ),
            None => (s, ranges),
        }
    }
}

/// The frames that growing takes end inside the address space.
pub open spec fn grow_fits(s: Seq<bool>, ranges: Seq<(u64, u64)>, n: nat) -> bool {
    forall|i: int|
        0 <= i < s.len() && #[trigger] s[i] && !grown(s, ranges, n).0[i] ==> page_va(i + 1)
            <= u64::MAX
}

/// The ranges consist of whole pages of a pool of `len` frames and end inside the
/// address space.
pub open spec fn ranges_in(ranges: Seq<(u64, u64)>, len: int) -> bool {
    forall|i: int|
        0 <= i < ranges.len() ==> {
            &&& PHYSICAL_MEMORY_OFFSET <= (#[trigger] ranges[i]).0
            &&& ranges[i].0 + ranges[i].1 <= page_va(len)
            &&& ranges[i].0 + ranges[i].1 <= u64::MAX
            &&& (ranges[i].0 - PHYSICAL_MEMORY_OFFSET) % (PAGE_SIZE as int) == 0
            &&& ranges[i].1 as int % (PAGE_SIZE as int) == 0
        }
}

proof fn lemma_round_robin(s: Seq<bool>, start: int, skipped: nat)
    ensures
        round_robin(s, start, skipped) matches Some(pg) ==> 0 <= pg < s.len() && s[pg],
        round_robin(s, start, skipped) is None ==> forall|k: int|
            skipped <= k < s.len() ==> !s[#[trigger] ((start + k) % (s.len() as int))],
    decreases s.len() - skipped,
{
    if skipped < s.len() && !s[(start + skipped) % (s.len() as int)] {
        lemma_round_robin(s, start, skipped + 1);
    }
}

/// Going round the whole pool without success means that nothing is free.
proof fn lemma_round_robin_none(s: Seq<bool>, start: int)
    requires
        start >= 0,
        round_robin(s, start, 0) is None,
    ensures
        none_free(s),
{
    lemma_round_robin(s, start, 0);
    assert forall|j: int| 0 <= j < s.len() implies !#[trigger] s[j] by {
        let len = s.len() as int;
        let k = (j - start) % len;
        assert(0 <= k < len);
        assert((start + k) % len == j) by {
            vstd::arithmetic::div_mod::lemma_add_mod_noop_right(start, j - start, len);
            vstd::arithmetic::div_mod::lemma_small_mod(j as nat, len as nat);
        }
    }
}

proof fn lemma_with_page_in(ranges: Seq<(u64, u64)>, len: int, pg: int)
    requires
        ranges_in(ranges, len),
        0 <= pg < len,
        page_va(pg + 1) <= u64::MAX,
    ensures
        ranges_in(with_page(ranges, page_va(pg) as u64), len),
{
    let va = page_va(pg) as u64;
    let w = with_page(ranges, va);
    assert forall|i: int| 0 <= i < w.len() implies {
        &&& PHYSICAL_MEMORY_OFFSET <= (#[trigger] w[i]).0
        &&& w[i].0 + w[i].1 <= page_va(len)
        &&& w[i].0 + w[i].1 <= u64::MAX
        &&& (w[i].0 - PHYSICAL_MEMORY_OFFSET) % (PAGE_SIZE as int) == 0
        &&& w[i].1 as int % (PAGE_SIZE as int) == 0
    } by {
        if i < w.len() - 1 {
            assert(w[i] == ranges[i]);
        }
    }
}

/// Growing takes frames out of the pool and puts none in.
proof fn lemma_grown_takes(s: Seq<bool>, ranges: Seq<(u64, u64)>, n: nat)
    ensures
        grown(s, ranges, n).0.len() == s.len(),
        forall|i: int| 0 <= i < s.len() && #[trigger] grown(s, ranges, n).0[i] ==> s[i],
    decreases n,
{
    if n > 0 {
        lemma_round_robin(s, grow_hint(ranges), 0);
        match round_robin(s, grow_hint(ranges), 0) {
            Some(pg) => {
                let t = s.update(pg, false);
                let w = with_page(ranges, page_va(pg) as u64);
                lemma_grown_takes(t, w, (n - 1) as nat);
                assert forall|i: int| 0 <= i < s.len() && #[trigger] grown(
                    s,
                    ranges,
                    n,
                ).0[i] implies s[i] by {
                    assert(t[i]);
                }
            },
            None => {},
        }
    }
}

/// If growing fits, the frame that it takes next does, and so does what follows.
proof fn lemma_grow_step(s: Seq<bool>, ranges: Seq<(u64, u64)>, n: nat)
    requires
        grow_fits(s, ranges, n),
        n > 0,
    ensures
        round_robin(s, grow_hint(ranges), 0) matches Some(pg) ==> {
            &&& 0 <= pg < s.len() && s[pg]
            &&& page_va(pg + 1) <= u64::MAX
            &&& grow_fits(
                s.update(pg, false),
                with_page(ranges, page_va(pg) as u64),
                (n - 1) as nat,
            )
        },
{
    lemma_round_robin(s, grow_hint(ranges), 0);
    if let Some(pg) = round_robin(s, grow_hint(ranges), 0) {
        let t = s.update(pg, false);
        let w = with_page(ranges, page_va(pg) as u64);
        lemma_grown_takes(t, w, (n - 1) as nat);
        assert(!grown(s, ranges, n).0[pg]);
        assert forall|i: int| 0 <= i < t.len() && #[trigger] t[i] && !grown(
            t,
            w,
            (n - 1) as nat,
        ).0[i] implies page_va(i + 1) <= u64::MAX by {
            assert(s[i]);
        }
    }
}

/// Acquires up to `n` frames, as direct-map ranges `(start, bytes)`. Each frame is
/// the next free one behind the last range, going round the pool; a frame that
/// touches the last range extends it.
pub fn heap_grow(pool: &mut FramePool, n: usize) -> (r: Vec<(u64, u64)>)
    requires
        old(pool).wf(),
        grow_fits(old(pool)@, Seq::empty(), n as nat),
    ensures
        final(pool).wf(),
        (final(pool)@, r@) == grown(old(pool)@, Seq::empty(), n as nat),
{
    let ghost s0 = pool@;
    let len = pool.frame_is_free.len();
    let mut ranges: Vec<(u64, u64)> = Vec::new();
    let mut acquired: usize = 0;
    while acquired < n
        invariant
            acquired <= n,
            pool.wf(),
            len == pool@.len() == s0.len(),
            grow_fits(pool@, ranges@, (n - acquired) as nat),
            ranges_in(ranges@, len as int),
            grown(s0, Seq::empty(), n as nat) == grown(pool@, ranges@, (n - acquired) as nat),
        ensures
            pool.wf(),
            (pool@, ranges@) == grown(s0, Seq::empty(), n as nat),
        decreases n - acquired,
    {
        let preferred_start: u64 = if ranges.len() == 0 {
            0
        } else {
            let last = ranges[ranges.len() - 1];
            (last.0 - PHYSICAL_MEMORY_OFFSET) / PAGE_SIZE + last.1 / PAGE_SIZE
        };
        proof {
            assert(preferred_start == grow_hint(ranges@));
            if ranges@.len() > 0 {
                assert(ranges@[ranges@.len() - 1].0 >= PHYSICAL_MEMORY_OFFSET);
            }
            assert(preferred_start <= len);
        }
        let mut found: Option<usize> = None;
        let mut scan_offset: usize = 0;
        while scan_offset < len
            invariant_except_break
                round_robin(pool@, preferred_start as int, 0) == round_robin(
                    pool@,
                    preferred_start as int,
                    scan_offset as nat,
                ),
                found is None,
            invariant
                scan_offset <= len == pool@.len(),
                pool.wf(),
                preferred_start <= len,
            ensures
                round_robin(pool@, preferred_start as int, 0) == (match found {
                    Some(pg) => Some(pg as int),
                    None => None,
                }),
                found matches Some(pg) ==> pg < len,
            decreases len - scan_offset,
        {
            let gap: usize = len - preferred_start as usize;
            let frame_index: usize = if preferred_start as usize == len {
                scan_offset
            } else if scan_offset < gap {
                preferred_start as usize + scan_offset
            } else {
                scan_offset - gap
            };
            proof {
                vstd::arithmetic::div_mod::lemma_small_mod(frame_index as nat, len as nat);
                vstd::arithmetic::div_mod::lemma_mod_add_multiples_vanish(
                    frame_index as int,
                    len as int,
                );
                assert((preferred_start + scan_offset) % (len as int) == frame_index);
            }
            if pool.frame_is_free[frame_index] {
                found = Some(frame_index);
                break;
            }
            scan_offset = scan_offset + 1;
        }
        match found {
            Some(pg) => {
                proof {
                    lemma_grow_step(pool@, ranges@, (n - acquired) as nat);
                    lemma_with_page_in(ranges@, len as int, pg as int);
                }
                let ghost before = ranges@;
                pool.frame_is_free.set(pg, false);
                let va: u64 = PHYSICAL_MEMORY_OFFSET + pg as u64 * PAGE_SIZE;
                let mut merged = false;
                if ranges.len() > 0 {
                    let k: usize = ranges.len() - 1;
                    let last = ranges[k];
                    assert(before[k as int].0 >= PHYSICAL_MEMORY_OFFSET);
                    if last.0 + last.1 == va {
                        ranges.set(k, (last.0, last.1 + PAGE_SIZE));
                        merged = true;
                    } else if va + PAGE_SIZE == last.0 {
                        ranges.set(k, (va, last.1 + PAGE_SIZE));
                        merged = true;
                    }
                }
                if !merged {
                    ranges.push((va, PAGE_SIZE));
                }
                assert(ranges@ =~= with_page(before, va));
                acquired = acquired + 1;
            },
            None => {
                break;
            },
        }
    }
    ranges
}

pub open spec fn range_bytes(ranges: Seq<(u64, u64)>) -> int
    decreases ranges.len(),
{
    if ranges.len() == 0 {
        0
    } else {
        range_bytes(ranges.drop_last()) + ranges.last().1
    }
}

/// Growing acquires as many frames as asked for, or all that are free; the ranges
/// it returns hold exactly the bytes of the frames that left the pool.
pub proof fn lemma_grow_accounts(s: Seq<bool>, ranges: Seq<(u64, u64)>, n: nat)
    requires
        ranges_in(ranges, s.len() as int),
        grow_fits(s, ranges, n),
    ensures
        ({
            let (left, got) = grown(s, ranges, n);
            let taken = if n <= count_free(s) {
                n
            } else {
                count_free(s)
            };
            &&& left.len() == s.len()
            &&& count_free(left) == count_free(s) - taken
            &&& range_bytes(got) == range_bytes(ranges) + taken * PAGE_SIZE
        }),
    decreases n,
{
    lemma_count_bounds(s);
    if n > 0 {
        if ranges.len() > 0 {
            assert(ranges[ranges.len() - 1].0 >= PHYSICAL_MEMORY_OFFSET);
        }
        lemma_grow_step(s, ranges, n);
        match round_robin(s, grow_hint(ranges), 0) {
            Some(pg) => {
                lemma_with_page_in(ranges, s.len() as int, pg);
                lemma_count_update(s, pg, false);
                let next = with_page(ranges, page_va(pg) as u64);
                lemma_grow_accounts(s.update(pg, false), next, (n - 1) as nat);
                if next.len() == ranges.len() {
                    assert(next.drop_last() =~= ranges.drop_last());
                } else {
                    assert(next.drop_last() =~= ranges);
                }
            },
            None => {
                lemma_round_robin_none(s, grow_hint(ranges));
            },
        }
    }
}

/// The frame of index `pg` lies in the direct-map range `r`.
pub open spec fn holds_frame(r: (u64, u64), pg: int) -> bool {
    r.0 <= page_va(pg) && page_va(pg) + PAGE_SIZE <= r.0 + r.1
}

pub open spec fn some_holds(ranges: Seq<(u64, u64)>, pg: int) -> bool {
    exists|i: int| 0 <= i < ranges.len() && #[trigger] holds_frame(ranges[i], pg)
}

/// Each range ends before the other starts.
pub open spec fn ranges_apart(a: (u64, u64), b: (u64, u64)) -> bool {
    a.0 + a.1 <= b.0 || b.0 + b.1 <= a.0
}

/// The ranges are whole pages of the pool, none is empty and no two meet.
pub open spec fn tidy_ranges(ranges: Seq<(u64, u64)>, len: int) -> bool {
    &&& ranges_in(ranges, len)
    &&& forall|i: int| 0 <= i < ranges.len() ==> (#[trigger] ranges[i]).1 > 0
    &&& forall|i: int, j: int|
        0 <= i < j < ranges.len() ==> ranges_apart(#[trigger] ranges[i], #[trigger] ranges[j])
}

/// The ranges hold exactly the frames that were free before and are not after;
/// no frame became free.
pub open spec fn hold_taken(ranges: Seq<(u64, u64)>, before: Seq<bool>, after: Seq<bool>) -> bool {
    &&& after.len() == before.len()
    &&& forall|pg: int|
        0 <= pg < before.len() ==> (#[trigger] some_holds(ranges, pg) <==> before[pg] && !after[pg])
    &&& forall|pg: int| 0 <= pg < before.len() && #[trigger] after[pg] ==> before[pg]
}

proof fn lemma_page_meets_no_range(r: (u64, u64), pg: int)
    requires
        r.0 >= PHYSICAL_MEMORY_OFFSET,
        (r.0 - PHYSICAL_MEMORY_OFFSET) % (PAGE_SIZE as int) == 0,
        r.1 as int % (PAGE_SIZE as int) == 0,
        !holds_frame(r, pg),
    ensures
        page_va(pg) + PAGE_SIZE <= r.0 || r.0 + r.1 <= page_va(pg),
{
}

proof fn lemma_with_page_tidy(ranges: Seq<(u64, u64)>, before: Seq<bool>, s: Seq<bool>, pg: int)
    requires
        tidy_ranges(ranges, s.len() as int),
        hold_taken(ranges, before, s),
        0 <= pg < s.len(),
        s[pg],
        page_va(pg + 1) <= u64::MAX,
    ensures
        tidy_ranges(with_page(ranges, page_va(pg) as u64), s.len() as int),
        hold_taken(with_page(ranges, page_va(pg) as u64), before, s.update(pg, false)),
{
    let va = page_va(pg) as u64;
    let w = with_page(ranges, va);
    let after = s.update(pg, false);
    lemma_with_page_in(ranges, s.len() as int, pg);
    assert(!some_holds(ranges, pg));
    assert forall|i: int| 0 <= i < ranges.len() implies ranges_apart(
        #[trigger] ranges[i],
        (va, PAGE_SIZE),
    ) by {
        assert(!holds_frame(ranges[i], pg));
        lemma_page_meets_no_range(ranges[i], pg);
    }
    assert forall|i: int, j: int| 0 <= i < j < w.len() implies ranges_apart(
        #[trigger] w[i],
        #[trigger] w[j],
    ) by {
        assert(w[i] == ranges[i]);
        assert(ranges[i].1 > 0);
        if j < w.len() - 1 {
            assert(w[j] == ranges[j]);
        } else if w.len() == ranges.len() {
            assert(ranges_apart(ranges[i], ranges[j]));
        }
    }
    assert forall|x: int| 0 <= x < s.len() implies (#[trigger] some_holds(w, x) <==> before[x]
        && !after[x]) by {
        let last = w.len() - 1;
        if x == pg {
            assert(holds_frame(w[last], x));
        } else {
            assert(some_holds(ranges, x) <==> before[x] && !s[x]);
            if some_holds(ranges, x) {
                let i = choose|i: int| 0 <= i < ranges.len() && #[trigger] holds_frame(ranges[i], x);
                assert(holds_frame(w[i], x));
            }
            if some_holds(w, x) {
                let i = choose|i: int| 0 <= i < w.len() && #[trigger] holds_frame(w[i], x);
                if i < last {
                    assert(w[i] == ranges[i]);
                    assert(holds_frame(ranges[i], x));
                } else if w.len() == ranges.len() {
                    assert(holds_frame(ranges[i], x));
                }
            }
        }
    }
}

proof fn lemma_grown_tidy(before: Seq<bool>, s: Seq<bool>, ranges: Seq<(u64, u64)>, n: nat)
    requires
        tidy_ranges(ranges, s.len() as int),
        hold_taken(ranges, before, s),
        grow_fits(s, ranges, n),
    ensures
        ({
            let (left, got) = grown(s, ranges, n);
            tidy_ranges(got, s.len() as int) && hold_taken(got, before, left)
        }),
    decreases n,
{
    if n > 0 {
        if ranges.len() > 0 {
            assert(ranges[ranges.len() - 1].0 >= PHYSICAL_MEMORY_OFFSET);
        }
        lemma_grow_step(s, ranges, n);
        match round_robin(s, grow_hint(ranges), 0) {
            Some(pg) => {
                lemma_with_page_tidy(ranges, before, s, pg);
                lemma_grown_tidy(
                    before,
                    s.update(pg, false),
                    with_page(ranges, page_va(pg) as u64),
                    (n - 1) as nat,
                );
            },
            None => {},
        }
    }
}

/// The ranges that growing returns do not meet, and together they are exactly the
/// frames that it took out of the pool.
pub proof fn lemma_grow_ranges_are_the_frames_taken(s: Seq<bool>, n: nat)
    requires
        grow_fits(s, Seq::empty(), n),
    ensures
        ({
            let (left, got) = grown(s, Seq::empty(), n);
            tidy_ranges(got, s.len() as int) && hold_taken(got, s, left)
        }),
{
    let none = Seq::<(u64, u64)>::empty();
    assert forall|pg: int| 0 <= pg < s.len() implies !#[trigger] some_holds(none, pg) by {}
    lemma_grown_tidy(s, s, none, n);
}

/// Pages a region spans.
pub open spec fn region_pages(r: VmRegion) -> int {
    (r.byte_len + PAGE_SIZE - 1) / (PAGE_SIZE as int)
}

/// The weight of a region: its pages, thrice if it is executable, else twice if it
/// is writable, and twice again unless it is shared.
pub open spec fn region_weight(r: VmRegion) -> int {
    let kind = if r.vm_flags & VM_EXEC != 0 {
        3int
    } else if r.vm_flags & VM_WRITE != 0 {
        2int
    } else {
        1int
    };
    let sharing = if r.vm_flags & VM_SHARED != 0 {
        1int
    } else {
        2int
    };
    region_pages(r) * kind * sharing
}

pub open spec fn total_weight(s: Seq<VmRegion>) -> int
    decreases s.len(),
{
    if s.len() == 0 {
        0
    } else {
        total_weight(s.drop_last()) + region_weight(s.last())
    }
}

proof fn lemma_weight_prefix(s: Seq<VmRegion>, i: int)
    requires
        0 <= i <= s.len(),
    ensures
        0 <= total_weight(s.take(i)) <= total_weight(s),
    decreases s.len() - i,
{
    lemma_weight_nonnegative(s.take(i));
    if i < s.len() {
        assert(s.take(i + 1).drop_last() =~= s.take(i));
        lemma_region_weight(s[i]);
        lemma_weight_prefix(s, i + 1);
    } else {
        assert(s.take(i) =~= s);
    }
}

proof fn lemma_region_weight(r: VmRegion)
    ensures
        0 <= region_weight(r) <= 6 * region_pages(r),
{
}

proof fn lemma_weight_nonnegative(s: Seq<VmRegion>)
    ensures
        0 <= total_weight(s),
    decreases s.len(),
{
    if s.len() > 0 {
        lemma_weight_nonnegative(s.drop_last());
        lemma_region_weight(s.last());
    }
}

/// A pressure mark for a set of regions: their weight per frame of the pool, in
/// percent, but at most half the pool.
pub fn compute_rss_watermark(regions: &[VmRegion], pool_cap: usize) -> (r: usize)
    requires
        forall|i: int|
            0 <= i < regions@.len() ==> (#[trigger] regions@[i]).byte_len + PAGE_SIZE - 1
                <= u64::MAX,
        total_weight(regions@) * 100 <= u64::MAX,
    ensures
        r == (if regions@.len() == 0 || pool_cap == 0 {
            0
        } else if total_weight(regions@) * 100 / (pool_cap as int) < pool_cap as int / 2 {
            total_weight(regions@) * 100 / (pool_cap as int)
        } else {
            pool_cap as int / 2
        }),
{
    if regions.len() == 0 || pool_cap == 0 {
        return 0;
    }
    let ghost s = regions@;
    let mut total: u64 = 0;
    let mut i: usize = 0;
    while i < regions.len()
        invariant
            i <= regions@.len(),
            s == regions@,
            forall|j: int|
                0 <= j < s.len() ==> (#[trigger] s[j]).byte_len + PAGE_SIZE - 1 <= u64::MAX,
            total_weight(s) * 100 <= u64::MAX,
            total == total_weight(s.take(i as int)),
        decreases regions@.len() - i,
    {
        proof {
            lemma_weight_prefix(s, i + 1);
            lemma_weight_prefix(s, i as int);
            lemma_region_weight(s[i as int]);
            assert(s.take(i + 1).drop_last() =~= s.take(i as int));
        }
        let region = regions[i];
        let pages: u64 = (region.byte_len + (PAGE_SIZE - 1)) / PAGE_SIZE;
        let weight: u64 = if region.vm_flags & VM_EXEC != 0 {
            pages * 3
        } else if region.vm_flags & VM_WRITE != 0 {
            pages * 2
        } else {
            pages
        };
        let shared_factor: u64 = if region.vm_flags & VM_SHARED != 0 {
            1
        } else {
            2
        };
        assert(pages <= 0x10_0000_0000_0000);
        assert(weight * shared_factor == region_weight(region)) by {
            assert(weight * 1 == weight && weight * 2 == weight + weight) by (nonlinear_arith);
        }
        total = total + weight * shared_factor;
        i = i + 1;
    }
    assert(s.take(i as int) =~= s);
    let cap64: u64 = pool_cap as u64;
    let raw_mark: u64 = (total * 100) / cap64;
    let half: u64 = cap64 / 2;
    let clamped: u64 = if raw_mark < half {
        raw_mark
    } else {
        half
    };
    clamped as usize
}

/// Frames lie one page after the other, from the start of memory on.
pub proof fn lemma_frames_lie_in_a_row(i: int, j: int)
    ensures
        frame_addr(0) == MEMORY_OFFSET,
        frame_addr(j) - frame_addr(i) == (j - i) * PAGE_SIZE,
        i != j ==> frame_addr(i) != frame_addr(j),
        i < j ==> frame_addr(i) + PAGE_SIZE <= frame_addr(j),
        page_va(j) - page_va(i) == (j - i) * PAGE_SIZE,
        page_va(0) == PHYSICAL_MEMORY_OFFSET,
{
}

/// Taking a frame takes the lowest free one and no other; it fails only if none is
/// free.
pub proof fn lemma_lowest_frame_goes(before: Seq<bool>, after: Seq<bool>, r: Option<usize>, j: int)
    requires
        took_first(before, after, r),
        0 <= j < before.len(),
    ensures
        after.len() == before.len(),
        before[j] ==> r is Some,
        r matches Some(i) ==> {
            &&& before[i as int] && !after[i as int]
            &&& before[j] ==> i <= j
            &&& j != i ==> after[j] == before[j]
        },
        r is None ==> after[j] == before[j],
{
}

/// A run that is taken starts at a multiple of its alignment and was free throughout;
/// it is not any more, and every other frame is as before.
pub proof fn lemma_run_goes(s: Seq<bool>, start: int, n: int, align_log2: nat, j: int)
    requires
        is_run(s, n, align_log2, start),
        0 < n,
        0 <= j < s.len(),
    ensures
        start % (pow2(align_log2) as int) == 0,
        start <= j < start + n ==> s[j] && !with_run_taken(s, start, n)[j],
        j < start || j >= start + n ==> with_run_taken(s, start, n)[j] == s[j],
        with_run_taken(s, start, n).len() == s.len(),
        start + n <= s.len(),
{
}

/// The first free frame of a zone lies in the zone, and no lower one of the zone is
/// free.
pub proof fn lemma_zone_frame_goes(s: Seq<bool>, zone: ZoneInfo, i: int, j: int)
    requires
        is_first_free_in(s, zone, i),
        zone.base_pfn <= j < zone.base_pfn + zone.page_count,
        j < s.len(),
        s[j],
    ensures
        zone.base_pfn <= i < zone.base_pfn + zone.page_count,
        s[i],
        i <= j,
{
}

/// One frame more that is free counts one more.
pub proof fn lemma_free_frames_count(s: Seq<bool>, free: bool)
    ensures
        count_free(s.push(free)) == count_free(s) + if free {
            1nat
        } else {
            0nat
        },
        count_free(Seq::<bool>::empty()) == 0,
{
    assert(s.push(free).drop_last() =~= s);
}

/// What a region weighs: its pages, counted once where they are shared and twice where
/// they are not; thrice that if they hold code, else twice that if they can be written.
pub proof fn lemma_region_weighs(r: VmRegion, shared: VmRegion)
    requires
        r.vm_flags & VM_SHARED == 0,
        shared.byte_len == r.byte_len,
        shared.vm_flags & VM_SHARED != 0,
        shared.vm_flags & VM_EXEC == r.vm_flags & VM_EXEC,
        shared.vm_flags & VM_WRITE == r.vm_flags & VM_WRITE,
    ensures
        region_weight(r) == 2 * region_weight(shared),
        region_pages(r) * PAGE_SIZE >= r.byte_len,
        r.byte_len + PAGE_SIZE > region_pages(r) * PAGE_SIZE,
        r.vm_flags & VM_EXEC != 0 ==> region_weight(shared) == 3 * region_pages(r),
        r.vm_flags & VM_EXEC == 0 && r.vm_flags & VM_WRITE != 0 ==> region_weight(shared) == 2
            * region_pages(r),
        r.vm_flags & VM_EXEC == 0 && r.vm_flags & VM_WRITE == 0 ==> region_weight(shared)
            == region_pages(r),
{
}

/// Regions weigh together what each weighs.
pub proof fn lemma_weights_add(s: Seq<VmRegion>, r: VmRegion)
    ensures
        total_weight(s.push(r)) == total_weight(s) + region_weight(r),
        total_weight(Seq::<VmRegion>::empty()) == 0,
{
    assert(s.push(r).drop_last() =~= s);
}

} // verus!
