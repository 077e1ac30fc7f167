//! Virtual memory areas and the map that keeps them sorted and apart.
use crate::bits;
use crate::consts::{BRK_BASE, KERNEL_OFFSET, MMAP_BASE, PAGE_SIZE, VM_GROWSDOWN};
use crate::seqs;
use vstd::prelude::*;

verus! {

/// A half-open range of virtual addresses with its attributes.
#[derive(Clone, Copy, Debug, PartialEq, Eq, Structural)]
pub struct VmRegion {
    pub start_addr: u64,
    pub byte_len: u64,
    pub vm_flags: u32,
    /// Offset in the backing object that corresponds to `start_addr`.
    pub backing_offset: u64,
    /// Regions with different tags are never merged.
    pub merge_tag: u16,
    pub ref_count: usize,
}

/// The part of `r` below `at`. Only the upper part of a stack keeps growing down.
pub open spec fn left_part(r: VmRegion, at: u64) -> VmRegion {
    VmRegion {
        byte_len: (at - r.start_addr) as u64,
        vm_flags: r.vm_flags & !VM_GROWSDOWN,
        ..r
    }
}

/// The part of `r` at and above `at`.
pub open spec fn right_part(r: VmRegion, at: u64) -> VmRegion {
    VmRegion {
        start_addr: at,
        byte_len: (r.spec_end() - at) as u64,
        backing_offset: bits::low_word(r.backing_offset + (at - r.start_addr)),
        ..r
    }
}

/// `b` continues `a`: in addresses, in backing, in flags and in tag.
pub open spec fn mergeable(a: VmRegion, b: VmRegion) -> bool {
    &&& a.spec_end() == b.start_addr
    &&& a.vm_flags == b.vm_flags
    &&& a.merge_tag == b.merge_tag
    &&& bits::low_word(a.backing_offset + a.byte_len) == b.backing_offset
}

/// `a` and its continuation `b` as one region.
pub open spec fn merged(a: VmRegion, b: VmRegion) -> VmRegion {
    VmRegion {
        byte_len: (a.byte_len + b.byte_len) as u64,
        ref_count: if a.ref_count >= b.ref_count {
            a.ref_count
        } else {
            b.ref_count
        },
        ..a
    }
}

impl VmRegion {
    pub open spec fn spec_end(self) -> int {
        self.start_addr + self.byte_len
    }

    /// The region ends inside the address space.
    pub open spec fn fits(self) -> bool {
        self.spec_end() <= u64::MAX
    }

    pub open spec fn covers(self, addr: int) -> bool {
        self.start_addr <= addr < self.spec_end()
    }

    /// The region and `[start, end)` overlap.
    pub open spec fn meets(self, start: int, end: int) -> bool {
        self.start_addr < end && start < self.spec_end()
    }

    pub fn new(start_addr: u64, byte_len: u64, vm_flags: u32) -> (r: Self)
        ensures
            r == (VmRegion {
                start_addr,
                byte_len,
                vm_flags,
                backing_offset: 0,
                merge_tag: 0,
                ref_count: 1,
            }),
    {
        Self { start_addr, byte_len, vm_flags, backing_offset: 0, merge_tag: 0, ref_count: 1 }
    }

    pub fn with_backing_offset(
        start_addr: u64,
        byte_len: u64,
        vm_flags: u32,
        backing_offset: u64,
    ) -> (r: Self)
        ensures
            r == (VmRegion {
                start_addr,
                byte_len,
                vm_flags,
                backing_offset,
                merge_tag: 0,
                ref_count: 1,
            }),
    {
        Self { start_addr, byte_len, vm_flags, backing_offset, merge_tag: 0, ref_count: 1 }
    }

    pub fn end(&self) -> (r: u64)
        requires
            self.fits(),
        ensures
            r == self.spec_end(),
    {
        self.start_addr + self.byte_len
    }

    pub fn contains(&self, virt_addr: u64) -> (r: bool)
        requires
            self.fits(),
        ensures
            r == self.covers(virt_addr as int),
    {
        virt_addr >= self.start_addr && virt_addr < self.start_addr + self.byte_len
    }

    /// Whether the half-open ranges overlap; adjacent ones do not. Ends wrap
    /// around the address space.
    pub fn overlaps(&self, other: &VmRegion) -> (r: bool)
        ensures
            r == (other.start_addr < bits::low_word(self.spec_end()) && self.start_addr
                < bits::low_word(other.spec_end())),
            self.fits() && other.fits() ==> r == self.meets(
                other.start_addr as int,
                other.spec_end(),
            ),
    {
        let self_end: u64 = self.start_addr.wrapping_add(self.byte_len);
        let other_end: u64 = other.start_addr.wrapping_add(other.byte_len);
        let no_overlap = self_end <= other.start_addr || other_end <= self.start_addr;
        !no_overlap
    }

    /// Splits the region at an address strictly inside it.
    pub fn split_at(&self, split_addr: u64) -> (r: Option<(VmRegion, VmRegion)>)
        requires
            self.fits(),
        ensures
            r == (if self.start_addr < split_addr < self.spec_end() {
                Some((left_part(*self, split_addr), right_part(*self, split_addr)))
            } else {
                None
            }),
    {
        let region_end: u64 = self.start_addr + self.byte_len;
        if split_addr <= self.start_addr || split_addr >= region_end {
            return None;
        }
        let left_byte_len: u64 = split_addr - self.start_addr;
        let right_byte_len: u64 = self.byte_len - left_byte_len;
        let right_backing_offset: u64 = self.backing_offset.wrapping_add(left_byte_len);
        let mut left_vm_flags: u32 = self.vm_flags;
        if self.vm_flags & VM_GROWSDOWN != 0 {
            left_vm_flags = left_vm_flags & !VM_GROWSDOWN;
        }
        proof {
            lemma_growsdown(self.vm_flags);
        }
        let left_region = VmRegion {
            start_addr: self.start_addr,
            byte_len: left_byte_len,
            vm_flags: left_vm_flags,
            backing_offset: self.backing_offset,
            merge_tag: self.merge_tag,
            ref_count: self.ref_count,
        };
        let right_region = VmRegion {
            start_addr: split_addr,
            byte_len: right_byte_len,
            vm_flags: self.vm_flags,
            backing_offset: right_backing_offset,
            merge_tag: self.merge_tag,
            ref_count: self.ref_count,
        };
        Some((left_region, right_region))
    }

    /// The region and its continuation as one, if `other` is one.
    pub fn merge_with(&self, other: &VmRegion) -> (r: Option<VmRegion>)
        requires
            self.fits(),
            other.fits(),
        ensures
            r == (if mergeable(*self, *other) {
                Some(merged(*self, *other))
            } else {
                None
            }),
    {
        let self_end: u64 = self.start_addr + self.byte_len;
        if self_end != other.start_addr {
            return None;
        }
        if self.vm_flags != other.vm_flags {
            return None;
        }
        if self.merge_tag != other.merge_tag {
            return None;
        }
        if self.backing_offset.wrapping_add(self.byte_len) != other.backing_offset {
            return None;
        }
        let ref_count: usize = if self.ref_count >= other.ref_count {
            self.ref_count
        } else {
            other.ref_count
        };
        Some(
            VmRegion {
                start_addr: self.start_addr,
                byte_len: self.byte_len + other.byte_len,
                vm_flags: self.vm_flags,
                backing_offset: self.backing_offset,
                merge_tag: self.merge_tag,
                ref_count,
            },
        )
    }

    /// Counts one more reference and returns the count before.
    pub fn increment_ref_count(&mut self) -> (r: usize)
        ensures
            r == old(self).ref_count,
            *final(self) == (VmRegion {
                ref_count: old(self).ref_count.wrapping_add(1),
                ..*old(self)
            }),
    {
        let prev = self.ref_count;
        self.ref_count = prev.wrapping_add(1);
        prev
    }

    /// Counts one reference less and returns the count before.
    pub fn decrement_ref_count(&mut self) -> (r: usize)
        ensures
            r == old(self).ref_count,
            *final(self) == (VmRegion {
                ref_count: old(self).ref_count.wrapping_sub(1),
                ..*old(self)
            }),
    {
        let prev = self.ref_count;
        self.ref_count = prev.wrapping_sub(1);
        prev
    }

    pub fn current_ref_count(&self) -> (r: usize)
        ensures
            r == self.ref_count,
    {
        self.ref_count
    }
}

proof fn lemma_growsdown(f: u32)
    ensures
        f & VM_GROWSDOWN == 0 ==> f & !VM_GROWSDOWN == f,
{
    assert(f & 0x100u32 == 0 ==> f & !0x100u32 == f) by (bit_vector);
}

/// A split loses nothing: the two parts cover exactly the region, side by side.
pub proof fn lemma_split_covers(r: VmRegion, at: u64, addr: int)
    requires
        r.fits(),
        r.start_addr < at < r.spec_end(),
    ensures
        r.covers(addr) <==> left_part(r, at).covers(addr) || right_part(r, at).covers(addr),
        !(left_part(r, at).covers(addr) && right_part(r, at).covers(addr)),
        left_part(r, at).spec_end() == right_part(r, at).start_addr,
{
}

/// Merging undoes splitting, for a region that does not grow down. (A split
/// stack region comes apart into parts with different flags.)
pub proof fn lemma_merge_undoes_split(r: VmRegion, at: u64)
    requires
        r.fits(),
        r.start_addr < at < r.spec_end(),
        r.vm_flags & VM_GROWSDOWN == 0,
    ensures
        mergeable(left_part(r, at), right_part(r, at)),
        merged(left_part(r, at), right_part(r, at)) == r,
{
    lemma_growsdown(r.vm_flags);
}

/// The areas of an address space.
pub struct VmMap {
    pub regions: Vec<VmRegion>,
    /// The current program break.
    pub brk: u64,
    /// Where the search for a free range starts.
    pub mmap_base: u64,
}

/// The regions end inside the address space, are sorted by address, and each ends
/// where the next one starts or before.
pub open spec fn sorted_apart(s: Seq<VmRegion>) -> bool {
    &&& forall|i: int| 0 <= i < s.len() ==> (#[trigger] s[i]).fits()
    &&& forall|i: int, j: int|
        0 <= i < j < s.len() ==> (#[trigger] s[i]).spec_end() <= (#[trigger] s[j]).start_addr
}

/// No region of `s` overlaps `[start, end)`.
pub open spec fn range_free(s: Seq<VmRegion>, start: int, end: int) -> bool {
    forall|i: int| 0 <= i < s.len() ==> !(#[trigger] s[i]).meets(start, end)
}

/// The region lies inside `[start, end)` or overlaps it.
pub open spec fn hit_by(r: VmRegion, start: int, end: int) -> bool {
    ||| start <= r.start_addr && r.spec_end() <= end
    ||| r.meets(start, end)
}

pub open spec fn total_bytes(s: Seq<VmRegion>) -> nat
    decreases s.len(),
{
    if s.len() == 0 {
        0
    } else {
        total_bytes(s.drop_last()) + s.last().byte_len as nat
    }
}

proof fn lemma_total_bounded(s: Seq<VmRegion>)
    requires
        sorted_apart(s),
    ensures
        total_bytes(s) <= if s.len() == 0 {
            0
        } else {
            s.last().spec_end()
        },
    decreases s.len(),
{
    if s.len() > 0 {
        let front = s.drop_last();
        assert(sorted_apart(front));
        lemma_total_bounded(front);
        if front.len() > 0 {
            assert(front.last() == s[s.len() - 2]);
            assert(s[s.len() - 2].spec_end() <= s[s.len() - 1].start_addr);
        }
    }
}

/// The alignment `find_free` works with; less than two asks for a page.
pub open spec fn effective_align(align: u64) -> u64 {
    if align > 1 {
        align
    } else {
        PAGE_SIZE
    }
}

/// `start` is a place for `len` bytes: aligned, not below `base`, below the kernel
/// and free.
pub open spec fn is_place(s: Seq<VmRegion>, base: int, len: int, align: int, start: int) -> bool {
    &&& base <= start
    &&& start % align == 0
    &&& start + len <= KERNEL_OFFSET
    &&& range_free(s, start, start + len)
}

/// An address brought up by the mask of an alignment; to the next multiple, if the
/// alignment is a power of two.
pub open spec fn snapped(x: int, align: u64) -> u64 {
    ((x + align - 1) as u64) & !((align - 1) as u64)
}

/// The first region that meets a range.
pub open spec fn first_met(s: Seq<VmRegion>, start: u64, len: u64, i: int) -> bool {
    &&& 0 <= i < s.len()
    &&& s[i].meets(start as int, start + len)
    &&& forall|j: int| 0 <= j < i ==> !(#[trigger] s[j]).meets(start as int, start + len)
}

/// The search for a place, with at most `n` candidates: from `from` on, and after
/// each region that is in the way.
pub open spec fn search(s: Seq<VmRegion>, from: u64, len: u64, align: u64, n: nat) -> Option<u64>
    decreases n,
{
    if n == 0 || from + len > KERNEL_OFFSET {
        None
    } else if exists|i: int| first_met(s, from, len, i) {
        let i = choose|i: int| first_met(s, from, len, i);
        search(s, snapped(s[i].spec_end(), align), len, align, (n - 1) as nat)
    } else {
        Some(from)
    }
}

impl VmMap {
    pub open spec fn wf(&self) -> bool {
        sorted_apart(self.regions@)
    }

    /// An empty layout with the fixed heap and mapping bases.
    pub fn new() -> (r: Self)
        ensures
            r.wf(),
            r.regions@.len() == 0,
            r.brk == BRK_BASE,
            r.mmap_base == MMAP_BASE,
    {
        Self { regions: Vec::new(), brk: BRK_BASE, mmap_base: MMAP_BASE }
    }

    /// Puts a region at its place in the order, unless it overlaps another one.
    /// Neighbours that could be merged stay apart. An empty region comes behind those
    /// that start where it does; behind one that is not empty it is out of order.
    pub fn insert(&mut self, region: VmRegion) -> (r: Result<(), &'static str>)
        requires
            old(self).wf(),
            region.fits(),
        ensures
            final(self).brk == old(self).brk,
            final(self).mmap_base == old(self).mmap_base,
            region.byte_len > 0 || (forall|i: int|
                0 <= i < old(self).regions@.len() && (#[trigger] old(self).regions@[i]).start_addr
                    == region.start_addr ==> old(self).regions@[i].byte_len == 0) || r is Err
                ==> final(self).wf(),
            r == (if range_free(
                old(self).regions@,
                region.start_addr as int,
                region.spec_end(),
            ) {
                Ok::<(), &'static str>(())
            } else {
                Err("overlap")
            }),
            r is Err ==> final(self).regions@ == old(self).regions@,
            r is Ok ==> exists|at: int|
                {
                    &&& 0 <= at <= old(self).regions@.len()
                    &&& final(self).regions@ == #[trigger] old(self).regions@.insert(at, region)
                    &&& forall|i: int|
                        0 <= i < at ==> (#[trigger] old(self).regions@[i]).start_addr
                            <= region.start_addr
                    &&& forall|i: int|
                        at <= i < old(self).regions@.len() ==> region.start_addr < (
                        #[trigger] old(self).regions@[i]).start_addr
                },
    {
        let ghost s = self.regions@;
        let new_start = region.start_addr;
        let new_end: u64 = new_start.wrapping_add(region.byte_len);
        let mut insert_index: usize = 0;
        while insert_index < self.regions.len()
            invariant
                insert_index <= s.len(),
                self.regions@ == s,
                s == old(self).regions@,
                self.brk == old(self).brk,
                self.mmap_base == old(self).mmap_base,
                sorted_apart(s),
                region.fits(),
                new_start == region.start_addr,
                new_end == region.spec_end(),
                forall|i: int|
                    0 <= i < insert_index ==> {
                        &&& (#[trigger] s[i]).start_addr <= new_start
                        &&& !s[i].meets(new_start as int, new_end as int)
                    },
            ensures
                insert_index <= s.len(),
                self.regions@ == s,
                self.brk == old(self).brk,
                self.mmap_base == old(self).mmap_base,
                forall|i: int|
                    0 <= i < insert_index ==> {
                        &&& (#[trigger] s[i]).start_addr <= new_start
                        &&& !s[i].meets(new_start as int, new_end as int)
                    },
                insert_index < s.len() ==> {
                    &&& s[insert_index as int].start_addr > new_start
                    &&& !s[insert_index as int].meets(new_start as int, new_end as int)
                },
            decreases s.len() - insert_index,
        {
            let existing_start = self.regions[insert_index].start_addr;
            let existing_end: u64 = existing_start + self.regions[insert_index].byte_len;
            if new_start < existing_end && existing_start < new_end {
                assert(s[insert_index as int].meets(new_start as int, new_end as int));
                return Err("overlap");
            }
            if existing_start > new_start {
                break;
            }
            insert_index = insert_index + 1;
        }
        assert forall|i: int| insert_index <= i < s.len() implies new_start < (
        #[trigger] s[i]).start_addr && !s[i].meets(new_start as int, new_end as int) by {
            if i > insert_index {
                assert(s[insert_index as int].spec_end() <= s[i].start_addr);
            }
        }
        self.regions.insert(insert_index, region);
        assert(range_free(s, new_start as int, region.spec_end()));
        proof {
            if region.byte_len > 0 || (forall|i: int|
                0 <= i < s.len() && (#[trigger] s[i]).start_addr == new_start ==> s[i].byte_len
                    == 0) {
                let t = self.regions@;
                assert forall|i: int, j: int| 0 <= i < j < t.len() implies (
                #[trigger] t[i]).spec_end() <= (#[trigger] t[j]).start_addr by {
                    let at = insert_index as int;
                    let p = if i < at {
                        s[i]
                    } else {
                        s[i - 1]
                    };
                    let q = if j < at {
                        s[j]
                    } else {
                        s[j - 1]
                    };
                    if i == at {
                        assert(t[j] == s[j - 1]);
                    } else if j == at {
                        assert(t[i] == s[i]);
                    }
                }
                assert forall|i: int| 0 <= i < t.len() implies (#[trigger] t[i]).fits() by {
                    let at = insert_index as int;
                    if i < at {
                        assert(t[i] == s[i]);
                    } else if i > at {
                        assert(t[i] == s[i - 1]);
                    }
                }
            }
        }
        Ok(())
    }

    /// The region that contains an address.
    pub fn find(&self, virt_addr: u64) -> (r: Option<&VmRegion>)
        requires
            self.wf(),
        ensures
            match r {
                Some(region) => self.regions@.contains(*region) && region.covers(virt_addr as int),
                None => forall|i: int|
                    0 <= i < self.regions@.len() ==> !(#[trigger] self.regions@[i]).covers(
                        virt_addr as int,
                    ),
            },
    {
        match self.find_index(virt_addr) {
            Some(region_index) => Some(&self.regions[region_index]),
            None => None,
        }
    }

    /// The index of the region that contains an address.
    pub fn find_index(&self, virt_addr: u64) -> (r: Option<usize>)
        requires
            self.wf(),
        ensures
            match r {
                Some(i) => i < self.regions@.len() && self.regions@[i as int].covers(
                    virt_addr as int,
                ),
                None => forall|i: int|
                    0 <= i < self.regions@.len() ==> !(#[trigger] self.regions@[i]).covers(
                        virt_addr as int,
                    ),
            },
    {
        let region_count = self.regions.len();
        let mut low: usize = 0;
        let mut high: usize = region_count;
        while low < high
            invariant
                low <= high <= region_count == self.regions@.len(),
                self.wf(),
                forall|i: int|
                    0 <= i < low ==> (#[trigger] self.regions@[i]).spec_end() <= virt_addr,
                forall|i: int|
                    high <= i < region_count ==> virt_addr < (
                    #[trigger] self.regions@[i]).start_addr,
            decreases high - low,
        {
            let mid: usize = low + (high - low) / 2;
            let region = self.regions[mid];
            if virt_addr < region.start_addr {
                assert forall|i: int| mid <= i < region_count implies virt_addr < (
                #[trigger] self.regions@[i]).start_addr by {
                    if i > mid {
                        assert(self.regions@[mid as int].spec_end() <= self.regions@[i].start_addr);
                    }
                }
                high = mid;
            } else if virt_addr >= region.start_addr + region.byte_len {
                assert forall|i: int| 0 <= i < mid + 1 implies (
                #[trigger] self.regions@[i]).spec_end() <= virt_addr by {
                    if i < mid {
                        assert(self.regions@[i].spec_end() <= self.regions@[mid as int].start_addr);
                    }
                }
                low = mid + 1;
            } else {
                return Some(mid);
            }
        }
        None
    }

    /// Removes every region that lies in or overlaps the range, whole, and returns
    /// how many went. The end of the range wraps around the address space.
    pub fn remove_range(&mut self, start_addr: u64, byte_len: u64) -> (r: usize)
        requires
            old(self).wf(),
        ensures
            final(self).wf(),
            final(self).brk == old(self).brk,
            final(self).mmap_base == old(self).mmap_base,
            final(self).regions@ == old(self).regions@.filter(
                |x: VmRegion|
                    !hit_by(x, start_addr as int, bits::low_word(start_addr + byte_len) as int),
            ),
            r == old(self).regions@.len() - final(self).regions@.len(),
    {
        let ghost s = self.regions@;
        let end_addr: u64 = start_addr.wrapping_add(byte_len);
        let ghost keep = |x: VmRegion| !hit_by(x, start_addr as int, end_addr as int);
        let before = self.regions.len();
        let mut index: usize = 0;
        let ghost mut seen: int = 0;
        proof {
            reveal(Seq::filter);
            assert(s.take(0).filter(keep) =~= Seq::empty());
            assert(self.regions@ =~= s.take(0).filter(keep) + s.skip(0));
        }
        while index < self.regions.len()
            invariant
                self.wf(),
                self.brk == old(self).brk,
                self.mmap_base == old(self).mmap_base,
                0 <= seen <= s.len(),
                index <= seen,
                index == s.take(seen).filter(keep).len(),
                self.regions@ == s.take(seen).filter(keep) + s.skip(seen),
                keep == (|x: VmRegion| !hit_by(x, start_addr as int, end_addr as int)),
            decreases self.regions@.len() - index,
        {
            proof {
                seqs::lemma_filter_step(s, seen, keep);
                assert(self.regions@[index as int] == s[seen]);
            }
            let ghost cur = self.regions@;
            let region_start = self.regions[index].start_addr;
            let region_end: u64 = region_start + self.regions[index].byte_len;
            if (region_start >= start_addr && region_end <= end_addr) || (region_start < end_addr
                && region_end > start_addr) {
                let _gone = self.regions.remove(index);
                proof {
                    let t = self.regions@;
                    assert forall|i: int, j: int| 0 <= i < j < t.len() implies (
                    #[trigger] t[i]).spec_end() <= (#[trigger] t[j]).start_addr by {
                        let p = if i < index {
                            i
                        } else {
                            i + 1
                        };
                        let q = if j < index {
                            j
                        } else {
                            j + 1
                        };
                        assert(cur[p].spec_end() <= cur[q].start_addr);
                    }
                    assert forall|i: int| 0 <= i < t.len() implies (#[trigger] t[i]).fits() by {
                        let p = if i < index {
                            i
                        } else {
                            i + 1
                        };
                        assert(cur[p].fits());
                    }
                    assert(t =~= s.take(seen + 1).filter(keep) + s.skip(seen + 1));
                }
            } else {
                index = index + 1;
                assert(self.regions@ =~= s.take(seen + 1).filter(keep) + s.skip(seen + 1));
            }
            proof {
                seen = seen + 1;
            }
        }
        proof {
            assert(s.take(seen) =~= s);
            assert(self.regions@ =~= s.filter(keep));
            s.lemma_filter_len(keep);
        }
        before - self.regions.len()
    }

    /// The lowest place at or above `mmap_base` where `byte_len` bytes fit below the
    /// kernel without touching a region. Zero bytes fit at `mmap_base` itself. For an
    /// alignment that is no power of two only the freedom of the place is promised.
    pub fn find_free(&self, byte_len: u64, align: u64) -> (r: Option<u64>)
        requires
            self.wf(),
            self.mmap_base + effective_align(align) - 1 <= u64::MAX,
            forall|i: int|
                0 <= i < self.regions@.len() ==> (#[trigger] self.regions@[i]).spec_end()
                    + effective_align(align) - 1 <= u64::MAX,
        ensures
            byte_len == 0 ==> r == Some(self.mmap_base),
            byte_len > 0 ==> r == search(
                self.regions@,
                snapped(self.mmap_base as int, effective_align(align)),
                byte_len,
                effective_align(align),
                self.regions@.len() + 2,
            ),
            byte_len > 0 && r is Some ==> {
                &&& self.mmap_base <= r->0
                &&& r->0 + byte_len <= KERNEL_OFFSET
                &&& range_free(self.regions@, r->0 as int, r->0 + byte_len)
            },
            byte_len > 0 && bits::is_pow2(effective_align(align) as int) ==> match r {
                Some(start) => {
                    &&& is_place(
                        self.regions@,
                        self.mmap_base as int,
                        byte_len as int,
                        effective_align(align) as int,
                        start as int,
                    )
                    &&& forall|x: int|
                        #[trigger] is_place(
                            self.regions@,
                            self.mmap_base as int,
                            byte_len as int,
                            effective_align(align) as int,
                            x,
                        ) ==> start <= x
                },
                None => forall|x: int|
                    !#[trigger] is_place(
                        self.regions@,
                        self.mmap_base as int,
                        byte_len as int,
                        effective_align(align) as int,
                        x,
                    ),
            },
    {
        if byte_len == 0 {
            return Some(self.mmap_base);
        }
        let alignment: u64 = if align > 1 {
            align
        } else {
            PAGE_SIZE
        };
        let align_mask: u64 = alignment - 1;
        let ghost s = self.regions@;
        let ghost base = self.mmap_base as int;
        let ghost len = byte_len as int;
        let ghost a = alignment as int;
        let mut candidate_start: u64 = round_to(self.mmap_base, align_mask);
        let mut passed: usize = 0;
        let mut iterations: usize = 0;
        let region_count = self.regions.len();
        let ghost sought = search(s, candidate_start, byte_len, alignment, s.len() + 2);
        while iterations <= region_count
            invariant
                iterations <= passed <= region_count,
                self.wf(),
                s == self.regions@,
                region_count == s.len(),
                sought == search(
                    s,
                    snapped(self.mmap_base as int, alignment),
                    byte_len,
                    alignment,
                    s.len() + 2,
                ),
                sought == search(
                    s,
                    candidate_start,
                    byte_len,
                    alignment,
                    (s.len() + 2 - iterations) as nat,
                ),
                base == self.mmap_base,
                len == byte_len,
                byte_len > 0,
                a == alignment,
                alignment == effective_align(align),
                align_mask == alignment - 1,
                alignment > 0,
                base <= candidate_start,
                forall|i: int|
                    0 <= i < s.len() ==> (#[trigger] s[i]).spec_end() + alignment - 1 <= u64::MAX,
                forall|i: int| 0 <= i < passed ==> (#[trigger] s[i]).spec_end() <= candidate_start,
                bits::is_pow2(a) ==> candidate_start as int % a == 0,
                bits::is_pow2(a) ==> forall|x: int|
                    #[trigger] is_place(s, base, len, a, x) ==> candidate_start <= x,
            decreases region_count + 1 - iterations,
        {
            if candidate_start.wrapping_add(byte_len) > KERNEL_OFFSET
                || candidate_start.wrapping_add(byte_len) < candidate_start {
                assert(candidate_start + byte_len > KERNEL_OFFSET);
                return None;
            }
            let candidate_end: u64 = candidate_start + byte_len;
            let mut i: usize = 0;
            while i < region_count
                invariant
                    i <= region_count == s.len(),
                    s == self.regions@,
                    self.wf(),
                    candidate_end == candidate_start + byte_len,
                    forall|j: int|
                        0 <= j < i ==> !(#[trigger] s[j]).meets(
                            candidate_start as int,
                            candidate_end as int,
                        ),
                ensures
                    i <= region_count,
                    forall|j: int|
                        0 <= j < i ==> !(#[trigger] s[j]).meets(
                            candidate_start as int,
                            candidate_end as int,
                        ),
                    i < region_count ==> s[i as int].meets(
                        candidate_start as int,
                        candidate_end as int,
                    ),
                decreases region_count - i,
            {
                let region_start = self.regions[i].start_addr;
                let region_end: u64 = region_start + self.regions[i].byte_len;
                if region_start < candidate_end && candidate_start < region_end {
                    break;
                }
                i = i + 1;
            }
            if i == region_count {
                assert(range_free(s, candidate_start as int, candidate_start + byte_len));
                assert(forall|k: int|
                    !#[trigger] first_met(s, candidate_start, byte_len, k));
                return Some(candidate_start);
            }
            let conflict_end: u64 = self.regions[i].start_addr + self.regions[i].byte_len;
            proof {
                assert(s[i as int].spec_end() == conflict_end);
                assert(i >= passed);
                let end = candidate_start + byte_len;
                assert(first_met(s, candidate_start, byte_len, i as int));
                let k = choose|k: int| first_met(s, candidate_start, byte_len, k);
                assert(k == i) by {
                    if k < i {
                        assert(!s[k].meets(candidate_start as int, end));
                    }
                    if k > i {
                        assert(!s[i as int].meets(candidate_start as int, end));
                    }
                }
            }
            let next: u64 = round_to(conflict_end, align_mask);
            proof {
                if bits::is_pow2(a) {
                    bits::lemma_mask_up(conflict_end, alignment);
                    bits::lemma_round_up(conflict_end as int, a);
                    assert forall|x: int| #[trigger]
                        is_place(s, base, len, a, x) implies next <= x by {
                        assert(candidate_start <= x);
                        if x < conflict_end {
                            assert(s[i as int].meets(x, x + len));
                        }
                        assert(x % a == 0);
                    }
                }
                assert forall|j: int| 0 <= j < i + 1 implies (#[trigger] s[j]).spec_end()
                    <= next by {
                    if j < i {
                        assert(s[j].spec_end() <= s[i as int].start_addr);
                    }
                }
            }
            candidate_start = next;
            passed = i + 1;
            iterations = iterations + 1;
        }
        None
    }

    /// The bytes that all regions cover together.
    pub fn total_mapped(&self) -> (r: u64)
        requires
            self.wf(),
        ensures
            r == total_bytes(self.regions@),
    {
        let ghost s = self.regions@;
        let mut total: u64 = 0;
        let mut i: usize = 0;
        while i < self.regions.len()
            invariant
                i <= s.len(),
                s == self.regions@,
                self.wf(),
                total == total_bytes(s.take(i as int)),
            decreases s.len() - i,
        {
            proof {
                let t = s.take(i + 1);
                assert(t.drop_last() =~= s.take(i as int));
                assert(sorted_apart(t));
                lemma_total_bounded(t);
                assert(t.last().fits());
            }
            total = total.wrapping_add(self.regions[i].byte_len);
            i = i + 1;
        }
        assert(s.take(i as int) =~= s);
        total
    }

    /// The regions, with the reference counts they have now.
    pub fn clone_regions(&self) -> (r: Vec<VmRegion>)
        ensures
            r@ == self.regions@,
    {
        let mut out: Vec<VmRegion> = Vec::new();
        let mut i: usize = 0;
        while i < self.regions.len()
            invariant
                i <= self.regions@.len(),
                out@ == self.regions@.take(i as int),
            decreases self.regions@.len() - i,
        {
            out.push(self.regions[i]);
            i = i + 1;
            assert(out@ =~= self.regions@.take(i as int));
        }
        assert(out@ =~= self.regions@);
        out
    }

    /// The free bytes between a region and the next one, or the kernel.
    pub fn gap_after(&self, region_index: usize) -> (r: u64)
        requires
            self.wf(),
        ensures
            region_index >= self.regions@.len() ==> r == 0,
            region_index + 1 < self.regions@.len() ==> r == self.regions@[region_index
                + 1].start_addr - self.regions@[region_index as int].spec_end(),
            region_index + 1 == self.regions@.len() ==> r == (if self.regions@[
            region_index as int].spec_end() <= KERNEL_OFFSET {
                KERNEL_OFFSET - self.regions@[region_index as int].spec_end()
            } else {
                0
            }),
    {
        if region_index >= self.regions.len() {
            return 0;
        }
        let region_end: u64 = self.regions[region_index].start_addr
            + self.regions[region_index].byte_len;
        if region_index + 1 < self.regions.len() {
            self.regions[region_index + 1].start_addr.saturating_sub(region_end)
        } else {
            KERNEL_OFFSET.saturating_sub(region_end)
        }
    }
}

/// `addr` moved up to where the bits of `align_mask` are clear.
fn round_to(addr: u64, align_mask: u64) -> (r: u64)
    requires
        addr + align_mask <= u64::MAX,
        align_mask < u64::MAX,
    ensures
        addr <= r,
        r == snapped(addr as int, (align_mask + 1) as u64),
        bits::is_pow2(align_mask + 1) ==> r == bits::round_up(addr as int, align_mask + 1)
            && r as int % (align_mask + 1) == 0 && forall|y: int|
            addr <= y && #[trigger] (y % (align_mask + 1)) == 0 ==> r <= y,
{
    let sum: u64 = addr + align_mask;
    let r: u64 = sum & !align_mask;
    proof {
        assert(sum & !align_mask == sum - (sum & align_mask) && sum & align_mask <= align_mask)
            by (bit_vector);
        if bits::is_pow2(align_mask + 1) {
            bits::lemma_mask_up(addr, (align_mask + 1) as u64);
            bits::lemma_round_up(addr as int, align_mask + 1);
        }
    }
    r
}

/// Sorted regions that do not overlap cannot hold an address twice, so a lookup
/// has one answer.
pub proof fn lemma_one_region_per_address(s: Seq<VmRegion>, addr: int, i: int, j: int)
    requires
        sorted_apart(s),
        0 <= i < s.len(),
        0 <= j < s.len(),
        s[i].covers(addr),
        s[j].covers(addr),
    ensures
        i == j,
{
    if i < j {
        assert(s[i].spec_end() <= s[j].start_addr);
    } else if j < i {
        assert(s[j].spec_end() <= s[i].start_addr);
    }
}

/// A place that is found lies between the base and the kernel, on the alignment, and
/// no address of it belongs to a region.
pub proof fn lemma_place_is_free(s: Seq<VmRegion>, base: int, len: int, align: int, start: int, x: int, i: int)
    requires
        is_place(s, base, len, align, start),
        0 <= i < s.len(),
        start <= x < start + len,
    ensures
        base <= start,
        start + len <= KERNEL_OFFSET,
        start % align == 0,
        x < s[i].start_addr || x >= s[i].start_addr + s[i].byte_len,
{
    assert(!s[i].meets(start, start + len));
}

/// An alignment that says nothing is that of a page; any other one counts.
pub proof fn lemma_alignment_counts(align: u64)
    ensures
        align <= 1 ==> effective_align(align) == PAGE_SIZE,
        align > 1 ==> effective_align(align) == align,
{
}

/// Two regions are merged exactly into one that has the addresses of both; what it is
/// mapped from, its rights and its tag are theirs.
pub proof fn lemma_merge_covers(a: VmRegion, b: VmRegion, x: int)
    requires
        a.fits(),
        b.fits(),
        mergeable(a, b),
    ensures
        merged(a, b).covers(x) <==> a.covers(x) || b.covers(x),
        !(a.covers(x) && b.covers(x)),
        merged(a, b).vm_flags == a.vm_flags && a.vm_flags == b.vm_flags,
        merged(a, b).merge_tag == b.merge_tag && a.merge_tag == b.merge_tag,
        merged(a, b).backing_offset == a.backing_offset,
        merged(a, b).ref_count >= a.ref_count && merged(a, b).ref_count >= b.ref_count,
        a.backing_offset + a.byte_len <= u64::MAX ==> a.backing_offset + a.byte_len
            == b.backing_offset,
{
}

/// A split keeps the rights on both sides but for growing down, which only the upper
/// part goes on doing; what the upper part is mapped from starts as far in as it does.
pub proof fn lemma_split_keeps_rights(r: VmRegion, at: u64)
    requires
        r.fits(),
        r.start_addr < at < r.spec_end(),
        r.backing_offset + r.byte_len <= u64::MAX,
    ensures
        right_part(r, at).vm_flags == r.vm_flags,
        left_part(r, at).vm_flags == r.vm_flags & !VM_GROWSDOWN,
        right_part(r, at).backing_offset == r.backing_offset + (at - r.start_addr),
        left_part(r, at).backing_offset == r.backing_offset,
        left_part(r, at).byte_len + right_part(r, at).byte_len == r.byte_len,
        left_part(r, at).start_addr == r.start_addr,
        right_part(r, at).start_addr == at,
{
}

/// One region more maps its bytes more.
pub proof fn lemma_mapped_bytes_add(s: Seq<VmRegion>, r: VmRegion)
    ensures
        total_bytes(s.push(r)) == total_bytes(s) + r.byte_len,
        total_bytes(Seq::<VmRegion>::empty()) == 0,
{
    assert(s.push(r).drop_last() =~= s);
}

/// What an address belongs to: the half-open range of a region, and ranges meet where
/// they have an address in common.
pub proof fn lemma_meeting_is_sharing(r: VmRegion, start: int, end: int)
    requires
        r.byte_len > 0,
        start < end,
    ensures
        r.meets(start, end) <==> exists|x: int| start <= x < end && #[trigger] r.covers(x),
        r.covers(r.start_addr as int),
        !r.covers(r.start_addr + r.byte_len),
        !r.covers(r.start_addr - 1),
{
    if r.meets(start, end) {
        let x = if start >= r.start_addr {
            start
        } else {
            r.start_addr as int
        };
        assert(r.covers(x));
    }
}

/// The region that is in the way first shares an address with the place, and none
/// before it does.
pub proof fn lemma_first_in_the_way(s: Seq<VmRegion>, start: u64, len: u64, i: int, j: int)
    requires
        first_met(s, start, len, i),
        0 <= j < i,
    ensures
        s[i].start_addr < start + len && start < s[i].start_addr + s[i].byte_len,
        !(s[j].start_addr < start + len && start < s[j].start_addr + s[j].byte_len),
{
}

/// What the search finds is free and lies below the kernel; it starts where it was told
/// to, if that is free.
pub proof fn lemma_search_finds_free(s: Seq<VmRegion>, from: u64, len: u64, align: u64, n: nat)
    requires
        len > 0,
    ensures
        search(s, from, len, align, n) matches Some(x) ==> x + len <= KERNEL_OFFSET && range_free(
            s,
            x as int,
            x + len,
        ),
        n > 0 && from + len <= KERNEL_OFFSET && range_free(s, from as int, from + len) ==> search(
            s,
            from,
            len,
            align,
            n,
        ) == Some(from),
        from + len > KERNEL_OFFSET ==> search(s, from, len, align, n) is None,
    decreases n,
{
    if n > 0 && from + len <= KERNEL_OFFSET {
        if exists|i: int| first_met(s, from, len, i) {
            let i = choose|i: int| first_met(s, from, len, i);
            lemma_search_finds_free(
                s,
                snapped(s[i].spec_end(), align),
                len,
                align,
                (n - 1) as nat,
            );
        } else {
            assert forall|i: int| 0 <= i < s.len() implies !(#[trigger] s[i]).meets(
                from as int,
                from + len,
            ) by {
                lemma_none_met(s, from, len, i + 1);
            }
        }
    }
}

proof fn lemma_none_met(s: Seq<VmRegion>, from: u64, len: u64, n: int)
    requires
        forall|i: int| !#[trigger] first_met(s, from, len, i),
        0 <= n <= s.len(),
    ensures
        forall|j: int| 0 <= j < n ==> !(#[trigger] s[j]).meets(from as int, from + len),
    decreases n,
{
    if n > 0 {
        lemma_none_met(s, from, len, n - 1);
        assert(!first_met(s, from, len, n - 1));
    }
}

} // verus!
