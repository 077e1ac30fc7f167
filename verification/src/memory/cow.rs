//! Copy-on-write mappings and address spaces.
use crate::bits;
use crate::consts::{MEMORY_OFFSET, PAGE_SIZE, VM_WRITE};
use crate::keys;
use crate::keys::sorted_keys;
use crate::memory::frames;
use crate::memory::frames::{FramePool, PgFrame};
use crate::memory::region;
use crate::memory::region::{VmMap, VmRegion};
use std::collections::BTreeMap;
use vstd::prelude::*;

verus! {

broadcast use vstd::std_specs::btree::group_btree_axioms;

/// The reference counts of the frames that mappings share. A mapping names its
/// frame's entry by index; entries are never removed.
pub struct FrameTable {
    pub frames: Vec<PgFrame>,
}

impl View for FrameTable {
    type V = Seq<PgFrame>;

    open spec fn view(&self) -> Seq<PgFrame> {
        self.frames@
    }
}

impl FrameTable {
    pub fn new() -> (r: Self)
        ensures
            r@ == Seq::<PgFrame>::empty(),
    {
        Self { frames: Vec::new() }
    }

    /// Adds an entry and returns its index.
    pub fn insert(&mut self, frame: PgFrame) -> (r: usize)
        ensures
            r == old(self)@.len(),
            final(self)@ == old(self)@.push(frame),
    {
        self.frames.push(frame);
        self.frames.len() - 1
    }

    pub fn up(&mut self, index: usize) -> (r: usize)
        requires
            index < old(self)@.len(),
        ensures
            r == old(self)@[index as int].rc,
            final(self)@ == upped(old(self)@, index),
    {
        let mut frame: PgFrame = self.frames[index];
        let prev = frame.up();
        self.frames.set(index, frame);
        prev
    }

    pub fn down(&mut self, index: usize) -> (r: usize)
        requires
            index < old(self)@.len(),
        ensures
            r == old(self)@[index as int].rc,
            final(self)@ == downed(old(self)@, index),
    {
        let mut frame: PgFrame = self.frames[index];
        let prev = frame.down();
        self.frames.set(index, frame);
        prev
    }
}

pub open spec fn upped(meta: Seq<PgFrame>, index: usize) -> Seq<PgFrame> {
    meta.update(index as int, PgFrame { rc: meta[index as int].rc.wrapping_add(1) })
}

pub open spec fn downed(meta: Seq<PgFrame>, index: usize) -> Seq<PgFrame> {
    meta.update(index as int, PgFrame { rc: meta[index as int].rc.wrapping_sub(1) })
}

/// What one virtual page maps to.
#[derive(Clone, Copy, Debug, PartialEq, Eq, Structural)]
pub struct CowPageMapping {
    pub frame_index: usize,
    /// The entry of the frame in the table of reference counts.
    pub frame_meta: usize,
    pub is_writable: bool,
    /// The next write has to be given a private frame.
    pub cow_pending: bool,
}

pub type SharedPage = CowPageMapping;

/// A mapping that waits for a write fault.
pub open spec fn pending(frame_index: usize, frame_meta: usize) -> CowPageMapping {
    CowPageMapping { frame_index, frame_meta, is_writable: false, cow_pending: true }
}

/// A mapping that may be written.
pub open spec fn private(frame_index: usize, frame_meta: usize) -> CowPageMapping {
    CowPageMapping { frame_index, frame_meta, is_writable: true, cow_pending: false }
}

/// What a write fault does: nothing if the mapping is not pending; if it is the
/// only one left on its frame it becomes private; else it moves to a frame of its
/// own, or runs out of memory.
pub open spec fn resolves(
    before: (CowPageMapping, Seq<PgFrame>, Seq<bool>),
    after: (CowPageMapping, Seq<PgFrame>, Seq<bool>),
    r: Result<usize, &'static str>,
) -> bool {
    let (m, meta, pool) = before;
    if !m.cow_pending {
        after == before && r == Ok::<usize, &'static str>(m.frame_index)
    } else if meta[m.frame_meta as int].rc <= 1 {
        &&& after == (private(m.frame_index, m.frame_meta), meta, pool)
        &&& r == Ok::<usize, &'static str>(m.frame_index)
    } else if frames::none_free(pool) {
        after == before && r == Err::<usize, &'static str>("oom")
    } else {
        &&& r is Ok
        &&& frames::is_first_free(pool, r->Ok_0 as int)
        &&& after.0 == private(r->Ok_0, meta.len() as usize)
        &&& after.1 == downed(meta, m.frame_meta).push(PgFrame { rc: 1 })
        &&& after.2 == pool.update(r->Ok_0 as int, false)
    }
}

impl CowPageMapping {
    pub open spec fn wf(&self, meta: Seq<PgFrame>) -> bool {
        self.frame_meta < meta.len()
    }

    /// A pending mapping with a reference count of its own.
    pub fn new(initial_frame_index: usize, meta: &mut FrameTable) -> (r: Self)
        ensures
            r == pending(initial_frame_index, old(meta)@.len() as usize),
            final(meta)@ == old(meta)@.push(PgFrame { rc: 1 }),
            r.wf(final(meta)@),
    {
        let frame_meta = meta.insert(PgFrame::with_rc(1));
        Self::new_cow(initial_frame_index, frame_meta)
    }

    /// A pending mapping on a shared reference count.
    pub fn new_cow(initial_frame_index: usize, frame_meta: usize) -> (r: Self)
        ensures
            r == pending(initial_frame_index, frame_meta),
    {
        Self { frame_index: initial_frame_index, frame_meta, is_writable: false, cow_pending: true }
    }

    /// A writable mapping with a reference count of its own.
    pub fn new_private(initial_frame_index: usize, meta: &mut FrameTable) -> (r: Self)
        ensures
            r == private(initial_frame_index, old(meta)@.len() as usize),
            final(meta)@ == old(meta)@.push(PgFrame { rc: 1 }),
            r.wf(final(meta)@),
    {
        let frame_meta = meta.insert(PgFrame::with_rc(1));
        Self { frame_index: initial_frame_index, frame_meta, is_writable: true, cow_pending: false }
    }

    /// The mapping of a forked child. The parent becomes pending too, and the frame
    /// gains one reference.
    pub fn clone_for_fork(&mut self, meta: &mut FrameTable) -> (r: Self)
        requires
            old(self).wf(old(meta)@),
        ensures
            *final(self) == pending(old(self).frame_index, old(self).frame_meta),
            r == *final(self),
            final(meta)@ == upped(old(meta)@, old(self).frame_meta),
    {
        self.is_writable = false;
        self.cow_pending = true;
        meta.up(self.frame_meta);
        Self::new_cow(self.current_frame_index(), self.frame_meta)
    }

    /// Resolves a write fault and returns the frame now mapped.
    pub fn resolve_cow_fault(&mut self, meta: &mut FrameTable, pool: &mut FramePool) -> (r: Result<
        usize,
        &'static str,
    >)
        requires
            old(self).wf(old(meta)@),
            old(pool).wf(),
        ensures
            final(pool).wf(),
            final(self).wf(final(meta)@),
            resolves(
                (*old(self), old(meta)@, old(pool)@),
                (*final(self), final(meta)@, final(pool)@),
                r,
            ),
    {
        let current_frame_index = self.frame_index;
        if !self.cow_pending {
            return Ok(current_frame_index);
        }
        if meta.frames[self.frame_meta].count() <= 1 {
            self.is_writable = true;
            self.cow_pending = false;
            return Ok(current_frame_index);
        }
        match pool.alloc_frame_index() {
            None => Err("oom"),
            Some(private_frame_index) => {
                self.frame_index = private_frame_index;
                meta.down(self.frame_meta);
                self.frame_meta = meta.insert(PgFrame::with_rc(1));
                self.is_writable = true;
                self.cow_pending = false;
                Ok(private_frame_index)
            },
        }
    }

    /// As `resolve_cow_fault`.
    pub fn fault(&mut self, meta: &mut FrameTable, pool: &mut FramePool) -> (r: Result<
        usize,
        &'static str,
    >)
        requires
            old(self).wf(old(meta)@),
            old(pool).wf(),
        ensures
            final(pool).wf(),
            final(self).wf(final(meta)@),
            resolves(
                (*old(self), old(meta)@, old(pool)@),
                (*final(self), final(meta)@, final(pool)@),
                r,
            ),
    {
        self.resolve_cow_fault(meta, pool)
    }

    pub fn is_cow_resolved(&self) -> (r: bool)
        ensures
            r == (!self.cow_pending && self.is_writable),
    {
        !self.cow_pending && self.is_writable
    }

    pub fn current_frame_index(&self) -> (r: usize)
        ensures
            r == self.frame_index,
    {
        self.frame_index
    }

    pub fn frame_ref_count(&self, meta: &FrameTable) -> (r: usize)
        requires
            self.wf(meta@),
        ensures
            r == meta@[self.frame_meta as int].rc,
    {
        meta.frames[self.frame_meta].count()
    }

    /// Gives up the mapping's reference to its frame.
    pub fn release_frame_reference(&self, meta: &mut FrameTable)
        requires
            self.wf(old(meta)@),
        ensures
            final(meta)@ == downed(old(meta)@, self.frame_meta),
    {
        meta.down(self.frame_meta);
    }

    pub fn frame_id(&self) -> (r: usize)
        ensures
            r == self.frame_index,
    {
        self.current_frame_index()
    }
}

/// A fault that succeeds leaves a private mapping; a second fault changes nothing
/// and returns the same frame.
pub proof fn lemma_fault_resolves_once(
    before: (CowPageMapping, Seq<PgFrame>, Seq<bool>),
    after: (CowPageMapping, Seq<PgFrame>, Seq<bool>),
    r: Result<usize, &'static str>,
    again: (CowPageMapping, Seq<PgFrame>, Seq<bool>),
    r2: Result<usize, &'static str>,
)
    requires
        before.0.wf(before.1),
        before.0.cow_pending,
        resolves(before, after, r),
        r is Ok,
        resolves(after, again, r2),
    ensures
        after.0.is_writable && !after.0.cow_pending,
        r == Ok::<usize, &'static str>(after.0.frame_index),
        again == after,
        r2 == r,
{
}

/// After a fork, a write fault of one side moves it to a frame that was free, and
/// the other side keeps the old frame with one reference less.
pub proof fn lemma_fault_after_fork_separates(
    shared: CowPageMapping,
    meta: Seq<PgFrame>,
    pool: Seq<bool>,
    after: (CowPageMapping, Seq<PgFrame>, Seq<bool>),
    r: Result<usize, &'static str>,
)
    requires
        shared.wf(meta),
        shared.cow_pending,
        meta[shared.frame_meta as int].rc > 1,
        meta.len() < usize::MAX,
        shared.frame_index < pool.len() ==> !pool[shared.frame_index as int],
        resolves((shared, meta, pool), after, r),
        r is Ok,
    ensures
        after.0.frame_index != shared.frame_index,
        after.0.frame_meta != shared.frame_meta,
        after.1[shared.frame_meta as int].rc == meta[shared.frame_meta as int].rc - 1,
        after.1[after.0.frame_meta as int].rc == 1,
{
}

/// The counts after each of the named pages has gained a reference.
pub open spec fn all_upped(
    meta: Seq<PgFrame>,
    pages: Seq<u64>,
    m: Map<u64, CowPageMapping>,
) -> Seq<PgFrame>
    decreases pages.len(),
{
    if pages.len() == 0 {
        meta
    } else {
        upped(all_upped(meta, pages.drop_last(), m), m[pages.last()].frame_meta)
    }
}

/// The counts after each of the named pages has lost a reference.
pub open spec fn all_downed(
    meta: Seq<PgFrame>,
    pages: Seq<u64>,
    m: Map<u64, CowPageMapping>,
) -> Seq<PgFrame>
    decreases pages.len(),
{
    if pages.len() == 0 {
        meta
    } else {
        downed(all_downed(meta, pages.drop_last(), m), m[pages.last()].frame_meta)
    }
}

/// The same mappings, all pending.
pub open spec fn all_pending(m: Map<u64, CowPageMapping>) -> Map<u64, CowPageMapping> {
    m.map_values(|x: CowPageMapping| pending(x.frame_index, x.frame_meta))
}

/// The child's copy of a region: same range and flags, one reference.
pub open spec fn forked_region(r: VmRegion) -> VmRegion {
    VmRegion {
        start_addr: r.start_addr,
        byte_len: r.byte_len,
        vm_flags: r.vm_flags,
        backing_offset: 0,
        merge_tag: 0,
        ref_count: 1,
    }
}

/// The parent's region after a fork: a writable one is shared once more.
pub open spec fn forked_parent(r: VmRegion) -> VmRegion {
    if r.vm_flags & VM_WRITE != 0 {
        VmRegion { ref_count: r.ref_count.wrapping_add(1), ..r }
    } else {
        r
    }
}

/// The pages that an unmapped range touches.
pub open spec fn touched(start: int, len: int, page: int) -> bool {
    &&& len > 0
    &&& start + len + PAGE_SIZE - 1 <= u64::MAX
    &&& bits::round_down(start, PAGE_SIZE as int) <= page < bits::round_up(
        start + len,
        PAGE_SIZE as int,
    )
}

/// The state of a simplified address space.
pub struct AddrSpace {
    pub vm_map: VmMap,
    pub page_table_root: u64,
    pub asid: u16,
    pub ref_count: usize,
    /// Copy-on-write mappings by the address of their page.
    pub cow_pages: BTreeMap<u64, CowPageMapping>,
}

/// Every mapping names an entry of the table.
pub open spec fn pages_wf(m: Map<u64, CowPageMapping>, meta: Seq<PgFrame>) -> bool {
    forall|a: u64| #[trigger] m.contains_key(a) ==> m[a].wf(meta)
}

/// The physical address in place of the frame.
pub open spec fn at_frame(r: Result<usize, &'static str>) -> Result<u64, &'static str> {
    match r {
        Ok(frame) => Ok(frames::frame_addr(frame as int) as u64),
        Err(e) => Err(e),
    }
}

/// Some writable region holds the address.
pub open spec fn may_write(regions: Seq<VmRegion>, x: u64) -> bool {
    exists|i: int|
        0 <= i < regions.len() && (#[trigger] regions[i]).covers(x as int) && regions[i].vm_flags
            & VM_WRITE != 0
}

/// The frame that answers the fault, if one does, has an address.
pub open spec fn fault_fits(
    regions: Seq<VmRegion>,
    fault_addr: u64,
    before: (Map<u64, CowPageMapping>, Seq<PgFrame>, Seq<bool>),
) -> bool {
    let page = bits::round_down(fault_addr as int, PAGE_SIZE as int) as u64;
    let (pages, meta, pool) = before;
    may_write(regions, fault_addr) ==> if pages.contains_key(page) && (!pages[page].cow_pending
        || meta[pages[page].frame_meta as int].rc <= 1) {
        frames::frame_addr(pages[page].frame_index as int) <= u64::MAX
    } else {
        forall|f: int| #[trigger] frames::is_first_free(pool, f) ==> frames::frame_addr(f) <= u64::MAX
    }
}

/// What a write fault in an address space does to its pages, the reference counts
/// and the pool.
pub open spec fn faults(
    regions: Seq<VmRegion>,
    fault_addr: u64,
    before: (Map<u64, CowPageMapping>, Seq<PgFrame>, Seq<bool>),
    after: (Map<u64, CowPageMapping>, Seq<PgFrame>, Seq<bool>),
    r: Result<u64, &'static str>,
) -> bool {
    let page = bits::round_down(fault_addr as int, PAGE_SIZE as int) as u64;
    let (pages, meta, pool) = before;
    if !may_write(regions, fault_addr) {
        after == before && r == Err::<u64, &'static str>("segfault")
    } else if pages.contains_key(page) {
        exists|m: CowPageMapping, inner: Result<usize, &'static str>|
            {
                &&& resolves((pages[page], meta, pool), (m, after.1, after.2), inner)
                &&& after.0 == #[trigger] pages.insert(page, m)
                &&& r == #[trigger] at_frame(inner)
            }
    } else if frames::none_free(pool) {
        after == before && r == Err::<u64, &'static str>("oom")
    } else {
        exists|frame: usize|
            {
                &&& #[trigger] frames::is_first_free(pool, frame as int)
                &&& after.0 == pages.insert(page, private(frame, meta.len() as usize))
                &&& after.1 == meta.push(PgFrame { rc: 1 })
                &&& after.2 == pool.update(frame as int, false)
                &&& r == Ok::<u64, &'static str>(frames::frame_addr(frame as int) as u64)
            }
    }
}

/// The address space `child` is a fork of the one that was `before` and is now
/// `parent`.
pub open spec fn space_forked(
    before: AddrSpace,
    parent: AddrSpace,
    child: AddrSpace,
    asid: u16,
    meta0: Seq<PgFrame>,
    meta1: Seq<PgFrame>,
) -> bool {
    &&& parent.same_identity(&before)
    &&& parent.vm_map.regions@ == before.vm_map.regions@.map_values(|r: VmRegion| forked_parent(r))
    &&& parent.cow_pages@ == all_pending(before.cow_pages@)
    &&& child.asid == asid
    &&& child.page_table_root == 0
    &&& child.ref_count == 1
    &&& child.vm_map.brk == before.vm_map.brk
    &&& child.vm_map.mmap_base == before.vm_map.mmap_base
    &&& child.vm_map.regions@ == before.vm_map.regions@.map_values(|r: VmRegion| forked_region(r))
    &&& child.cow_pages@ == all_pending(before.cow_pages@)
    &&& meta1 == all_upped(meta0, keys::listing(before.cow_pages@), before.cow_pages@)
}

/// The tracked pages that a range touches.
pub open spec fn pages_in(m: Map<u64, CowPageMapping>, start: u64, len: u64) -> Set<u64> {
    m.dom().filter(|a: u64| touched(start as int, len as int, a as int))
}

/// The address space after a range has been unmapped; `n` things went.
pub open spec fn range_unmapped(
    before: AddrSpace,
    after: AddrSpace,
    start: u64,
    len: u64,
    meta0: Seq<PgFrame>,
    meta1: Seq<PgFrame>,
    n: int,
) -> bool {
    let gone = pages_in(before.cow_pages@, start, len);
    &&& after.same_identity(&before)
    &&& after.vm_map.regions@ == before.vm_map.regions@.filter(
        |x: VmRegion|
            !region::hit_by(x, start as int, bits::low_word(start + len) as int),
    )
    &&& after.cow_pages@ == before.cow_pages@.remove_keys(gone)
    &&& n == (before.vm_map.regions@.len() - after.vm_map.regions@.len()) + gone.len()
    &&& meta1 == all_downed(
        meta0,
        keys::listing(before.cow_pages@.restrict(gone)),
        before.cow_pages@,
    )
}

/// A region after the range `[start, start + len)` was given new flags.
pub open spec fn protected(x: VmRegion, start: u64, len: u64, flags: u32) -> VmRegion {
    if x.start_addr < start + len && x.spec_end() > start {
        VmRegion { vm_flags: flags, ..x }
    } else {
        x
    }
}

impl AddrSpace {
    pub open spec fn wf(&self, meta: Seq<PgFrame>) -> bool {
        &&& self.vm_map.wf()
        &&& pages_wf(self.cow_pages@, meta)
    }

    /// Everything but the regions and the pages.
    pub open spec fn same_identity(&self, other: &AddrSpace) -> bool {
        &&& self.page_table_root == other.page_table_root
        &&& self.asid == other.asid
        &&& self.ref_count == other.ref_count
        &&& self.vm_map.brk == other.vm_map.brk
        &&& self.vm_map.mmap_base == other.vm_map.mmap_base
    }

    pub fn new(asid: u16) -> (r: Self)
        ensures
            r.vm_map.wf(),
            r.vm_map.regions@.len() == 0,
            r.vm_map.brk == crate::consts::BRK_BASE,
            r.vm_map.mmap_base == crate::consts::MMAP_BASE,
            r.page_table_root == 0,
            r.asid == asid,
            r.ref_count == 1,
            r.cow_pages@ == Map::<u64, CowPageMapping>::empty(),
    {
        Self {
            vm_map: VmMap::new(),
            page_table_root: 0,
            asid,
            ref_count: 1,
            cow_pages: BTreeMap::new(),
        }
    }

    /// The address space of a forked child. Both sides share every tracked frame
    /// until one of them writes.
    pub fn fork_from(parent: &mut AddrSpace, meta: &mut FrameTable, new_asid: u16) -> (child: Self)
        requires
            old(parent).wf(old(meta)@),
        ensures
            final(parent).wf(final(meta)@),
            child.wf(final(meta)@),
            space_forked(*old(parent), *final(parent), child, new_asid, old(meta)@, final(meta)@),
            forall|a: u64| #[trigger]
                old(parent).cow_pages@.contains_key(a) ==> {
                    let m = old(parent).cow_pages@[a];
                    &&& child.cow_pages@.contains_key(a)
                    &&& final(parent).cow_pages@.contains_key(a)
                    &&& child.cow_pages@[a].frame_index == m.frame_index
                    &&& child.cow_pages@[a].frame_meta == m.frame_meta
                    &&& child.cow_pages@[a].cow_pending && !child.cow_pages@[a].is_writable
                    &&& final(parent).cow_pages@[a] == child.cow_pages@[a]
                },
    {
        let ghost s = parent.vm_map.regions@;
        let mut child = Self::new(new_asid);
        child.vm_map.brk = parent.vm_map.brk;
        child.vm_map.mmap_base = parent.vm_map.mmap_base;
        let mut i: usize = 0;
        while i < parent.vm_map.regions.len()
            invariant
                i <= s.len(),
                s == old(parent).vm_map.regions@,
                region::sorted_apart(s),
                parent.vm_map.regions@.len() == s.len(),
                forall|j: int|
                    0 <= j < i ==> #[trigger] parent.vm_map.regions@[j] == forked_parent(s[j]),
                forall|j: int| i <= j < s.len() ==> #[trigger] parent.vm_map.regions@[j] == s[j],
                parent.same_identity(old(parent)),
                parent.cow_pages == old(parent).cow_pages,
                child.vm_map.wf(),
                child.vm_map.regions@ == s.take(i as int).map_values(
                    |r: VmRegion| forked_region(r),
                ),
                child.vm_map.brk == parent.vm_map.brk,
                child.vm_map.mmap_base == parent.vm_map.mmap_base,
                child.asid == new_asid,
                child.page_table_root == 0,
                child.ref_count == 1,
                child.cow_pages@ == Map::<u64, CowPageMapping>::empty(),
            decreases s.len() - i,
        {
            let ghost before = child.vm_map.regions@;
            let mut region: VmRegion = parent.vm_map.regions[i];
            assert(region == s[i as int]);
            let new_region = VmRegion::new(region.start_addr, region.byte_len, region.vm_flags);
            if region.vm_flags & VM_WRITE != 0 {
                region.increment_ref_count();
                parent.vm_map.regions.set(i, region);
            }
            proof {
                assert forall|j: int| 0 <= j < before.len() implies !(#[trigger] before[j]).meets(
                    new_region.start_addr as int,
                    new_region.spec_end(),
                ) && before[j].start_addr <= new_region.start_addr by {
                    assert(before[j] == forked_region(s[j]));
                    assert(s[j].spec_end() <= s[i as int].start_addr);
                }
                assert(region::range_free(
                    before,
                    new_region.start_addr as int,
                    new_region.spec_end(),
                ));
            }
            let _ = child.vm_map.insert(new_region);
            proof {
                let at = choose|at: int|
                    {
                        &&& 0 <= at <= before.len()
                        &&& child.vm_map.regions@ == #[trigger] before.insert(at, new_region)
                        &&& forall|k: int|
                            0 <= k < at ==> (#[trigger] before[k]).start_addr
                                <= new_region.start_addr
                        &&& forall|k: int|
                            at <= k < before.len() ==> new_region.start_addr < (
                            #[trigger] before[k]).start_addr
                    };
                if at < before.len() {
                    assert(before[at].start_addr <= new_region.start_addr);
                }
                assert(child.vm_map.regions@ =~= before.push(new_region));
                assert(child.vm_map.regions@ =~= s.take(i + 1).map_values(
                    |r: VmRegion| forked_region(r),
                ));
            }
            i = i + 1;
        }
        proof {
            assert(s.take(i as int) =~= s);
            assert(parent.vm_map.regions@ =~= s.map_values(|r: VmRegion| forked_parent(r)));
            assert(region::sorted_apart(parent.vm_map.regions@)) by {
                let t = parent.vm_map.regions@;
                assert forall|j: int, k: int| 0 <= j < k < t.len() implies (
                #[trigger] t[j]).spec_end() <= (#[trigger] t[k]).start_addr by {
                    assert(s[j].spec_end() <= s[k].start_addr);
                }
                assert forall|j: int| 0 <= j < t.len() implies (#[trigger] t[j]).fits() by {
                    assert(s[j].fits());
                }
            }
        }
        let pages = sorted_keys(&parent.cow_pages);
        let ghost m0 = parent.cow_pages@;
        proof {
            keys::lemma_listing(pages@, m0);
        }
        let mut k: usize = 0;
        while k < pages.len()
            invariant
                k <= pages@.len(),
                keys::lists_keys(pages@, m0),
                pages_wf(m0, old(meta)@),
                meta@.len() == old(meta)@.len(),
                meta@ == all_upped(old(meta)@, pages@.take(k as int), m0),
                parent.cow_pages@.dom() == m0.dom(),
                forall|j: int|
                    0 <= j < k ==> parent.cow_pages@[#[trigger] pages@[j]] == pending(
                        m0[pages@[j]].frame_index,
                        m0[pages@[j]].frame_meta,
                    ),
                forall|j: int|
                    k <= j < pages@.len() ==> parent.cow_pages@[#[trigger] pages@[j]]
                        == m0[pages@[j]],
                forall|a: u64|
                    #[trigger] child.cow_pages@.contains_key(a) <==> pages@.take(
                        k as int,
                    ).contains(a),
                forall|j: int|
                    0 <= j < k ==> child.cow_pages@[#[trigger] pages@[j]] == pending(
                        m0[pages@[j]].frame_index,
                        m0[pages@[j]].frame_meta,
                    ),
                parent.same_identity(old(parent)),
                parent.vm_map.regions@ == s.map_values(|r: VmRegion| forked_parent(r)),
                child.vm_map.regions@ == s.map_values(|r: VmRegion| forked_region(r)),
                child.vm_map.brk == parent.vm_map.brk,
                child.vm_map.mmap_base == parent.vm_map.mmap_base,
                child.asid == new_asid,
                child.page_table_root == 0,
                child.ref_count == 1,
            decreases pages@.len() - k,
        {
            let addr: u64 = pages[k];
            assert(pages@.contains(addr));
            let mut mapping: CowPageMapping = *parent.cow_pages.get(&addr).unwrap();
            assert(m0.contains_key(addr));
            let copy = mapping.clone_for_fork(meta);
            parent.cow_pages.insert(addr, mapping);
            child.cow_pages.insert(addr, copy);
            proof {
                let t = pages@.take(k as int);
                let u = pages@.take(k + 1);
                assert(u.drop_last() =~= t);
                assert(u =~= t.push(addr));
                assert forall|a: u64| #[trigger]
                    child.cow_pages@.contains_key(a) <==> u.contains(a) by {
                    if t.contains(a) {
                        let j = choose|j: int| 0 <= j < t.len() && t[j] == a;
                        assert(u[j] == a);
                    }
                    assert(u[k as int] == addr);
                }
                assert(parent.cow_pages@.dom() =~= m0.dom());
            }
            k = k + 1;
        }
        proof {
            assert(pages@.take(k as int) =~= pages@);
            assert forall|a: u64| #[trigger] m0.contains_key(a) implies parent.cow_pages@[a]
                == pending(m0[a].frame_index, m0[a].frame_meta) && child.cow_pages@[a] == pending(
                m0[a].frame_index,
                m0[a].frame_meta,
            ) by {
                assert(pages@.contains(a));
                let j = choose|j: int| 0 <= j < pages@.len() && pages@[j] == a;
                assert(pages@[j] == a);
            }
            assert forall|a: u64| child.cow_pages@.contains_key(a) <==> m0.contains_key(a) by {
                assert(pages@.contains(a) <==> m0.contains_key(a));
            }
            assert(parent.cow_pages@ =~= all_pending(m0));
            assert(child.cow_pages@ =~= all_pending(m0));
        }
        child
    }

    /// Resolves a write fault and returns the physical address of the page's frame.
    pub fn handle_cow_fault(
        &mut self,
        fault_addr: u64,
        meta: &mut FrameTable,
        pool: &mut FramePool,
    ) -> (r: Result<u64, &'static str>)
        requires
            old(self).wf(old(meta)@),
            old(pool).wf(),
            fault_fits(
                old(self).vm_map.regions@,
                fault_addr,
                (old(self).cow_pages@, old(meta)@, old(pool)@),
            ),
        ensures
            final(self).wf(final(meta)@),
            final(pool).wf(),
            final(self).same_identity(old(self)),
            final(self).vm_map.regions@ == old(self).vm_map.regions@,
            faults(
                old(self).vm_map.regions@,
                fault_addr,
                (old(self).cow_pages@, old(meta)@, old(pool)@),
                (final(self).cow_pages@, final(meta)@, final(pool)@),
                r,
            ),
            forall|i: int|
                0 <= i < old(self).vm_map.regions@.len() && (
                #[trigger] old(self).vm_map.regions@[i]).start_addr <= fault_addr < old(self).vm_map.regions@[i].start_addr + old(self).vm_map.regions@[i].byte_len && old(self).vm_map.regions@[i].vm_flags & VM_WRITE == 0 ==> {
                    &&& r == Err::<u64, &'static str>("segfault")
                    &&& final(self).cow_pages@ == old(self).cow_pages@
                    &&& final(meta)@ == old(meta)@
                    &&& final(pool)@ == old(pool)@
                },
    {
        proof {
            bits::lemma_page_mask(fault_addr);
        }
        let page_addr: u64 = fault_addr & !(PAGE_SIZE - 1);
        let ghost regions = self.vm_map.regions@;
        let region: VmRegion = match self.vm_map.find_index(fault_addr) {
            Some(i) => {
                proof {
                    assert forall|j: int|
                        0 <= j < regions.len() && (#[trigger] regions[j]).covers(
                            fault_addr as int,
                        ) implies j == i by {
                        region::lemma_one_region_per_address(
                            regions,
                            fault_addr as int,
                            j,
                            i as int,
                        );
                    }
                }
                self.vm_map.regions[i]
            },
            None => {
                return Err("segfault");
            },
        };
        if region.vm_flags & VM_WRITE == 0 {
            return Err("segfault");
        }
        let ghost pages0 = self.cow_pages@;
        let ghost meta0 = meta@;
        let ghost pool0 = pool@;
        assert(may_write(regions, fault_addr));
        assert(fault_fits(regions, fault_addr, (pages0, meta0, pool0)));
        if self.cow_pages.contains_key(&page_addr) {
            let mut mapping: CowPageMapping = *self.cow_pages.get(&page_addr).unwrap();
            let inner = mapping.resolve_cow_fault(meta, pool);
            self.cow_pages.insert(page_addr, mapping);
            let r: Result<u64, &'static str> = match inner {
                Ok(frame_index) => {
                    proof {
                        let own = pages0[page_addr];
                        if own.cow_pending && meta0[own.frame_meta as int].rc > 1 {
                            assert(frames::is_first_free(pool0, frame_index as int));
                        }
                    }
                    Ok(frame_index as u64 * PAGE_SIZE + MEMORY_OFFSET)
                },
                Err(e) => Err(e),
            };
            assert(self.cow_pages@ == pages0.insert(page_addr, mapping) && r == at_frame(inner));
            r
        } else {
            match pool.alloc_frame_index() {
                None => Err("oom"),
                Some(frame_id) => {
                    assert(frames::is_first_free(pool0, frame_id as int));
                    let mapping = CowPageMapping::new_private(frame_id, meta);
                    self.cow_pages.insert(page_addr, mapping);
                    Ok(frame_id as u64 * PAGE_SIZE + MEMORY_OFFSET)
                },
            }
        }
    }

    /// Removes the regions that meet the range and the tracked pages that it
    /// touches; returns how many of both.
    pub fn unmap_range(&mut self, start_addr: u64, byte_len: u64, meta: &mut FrameTable) -> (r:
        usize)
        requires
            old(self).wf(old(meta)@),
            old(self).vm_map.regions@.len() + old(self).cow_pages@.len() <= usize::MAX,
        ensures
            final(self).wf(final(meta)@),
            range_unmapped(
                *old(self),
                *final(self),
                start_addr,
                byte_len,
                old(meta)@,
                final(meta)@,
                r as int,
            ),
    {
        let ghost m0 = self.cow_pages@;
        let ghost hit = |a: u64| touched(start_addr as int, byte_len as int, a as int);
        let ghost gone = m0.dom().filter(hit);
        let ghost regions0 = self.vm_map.regions@;
        let removed = self.vm_map.remove_range(start_addr, byte_len);
        proof {
            let none = Seq::<u64>::empty();
            if forall|a: u64| !#[trigger] hit(a) {
                assert(gone =~= Set::<u64>::empty());
                assert(m0.remove_keys(gone) =~= m0);
                assert(keys::lists_keys(none, m0.restrict(gone)));
                keys::lemma_listing(none, m0.restrict(gone));
                assert(all_downed(meta@, none, m0) == meta@);
            }
        }
        if byte_len == 0 {
            assert(forall|a: u64| !#[trigger] hit(a));
            return removed;
        }
        let end_addr: u64 = match start_addr.checked_add(byte_len) {
            Some(e) => e,
            None => {
                assert(forall|a: u64| !#[trigger] hit(a));
                return removed;
            },
        };
        let raised: u64 = match end_addr.checked_add(PAGE_SIZE - 1) {
            Some(e) => e,
            None => {
                assert(forall|a: u64| !#[trigger] hit(a));
                return removed;
            },
        };
        proof {
            bits::lemma_page_mask(start_addr);
            bits::lemma_page_is_pow2();
            bits::lemma_mask_up(end_addr, PAGE_SIZE);
        }
        let page_start: u64 = start_addr & !(PAGE_SIZE - 1);
        let page_end: u64 = raised & !(PAGE_SIZE - 1);
        let pages = sorted_keys(&self.cow_pages);
        let ghost ks = pages@;
        proof {
            keys::lemma_passing_keys(ks, m0, hit);
        }
        let mut dropped: usize = 0;
        let ghost mut done: Seq<u64> = Seq::empty();
        let mut k: usize = 0;
        while k < pages.len()
            invariant
                k <= pages@.len(),
                ks == pages@,
                keys::lists_keys(ks, m0),
                ks.len() == m0.len(),
                hit == (|a: u64| touched(start_addr as int, byte_len as int, a as int)),
                forall|a: u64| #[trigger] hit(a) <==> page_start <= a < page_end,
                pages_wf(m0, old(meta)@),
                meta@.len() == old(meta)@.len(),
                meta@ == all_downed(old(meta)@, done, m0),
                keys::increasing(done),
                forall|a: u64| #[trigger] done.contains(a) <==> ks.take(k as int).contains(a)
                    && hit(a),
                forall|a: u64| #[trigger]
                    self.cow_pages@.contains_key(a) <==> m0.contains_key(a) && !done.contains(a),
                forall|a: u64| #[trigger]
                    self.cow_pages@.contains_key(a) ==> self.cow_pages@[a] == m0[a],
                dropped <= k,
                dropped == ks.take(k as int).to_set().filter(hit).len(),
                self.same_identity(old(self)),
                self.vm_map.wf(),
                self.vm_map.regions@ == regions0.filter(
                    |x: VmRegion|
                        !region::hit_by(
                            x,
                            start_addr as int,
                            bits::low_word(start_addr + byte_len) as int,
                        ),
                ),
            decreases pages@.len() - k,
        {
            let addr: u64 = pages[k];
            let ghost before = ks.take(k as int);
            let ghost after = ks.take(k + 1);
            let ghost done0 = done;
            proof {
                keys::lemma_passing_step(ks, k as int, hit);
                assert(ks.contains(addr));
                assert(after =~= before.push(addr));
                assert forall|a: u64| after.contains(a) <==> before.contains(a) || a == addr by {
                    if before.contains(a) {
                        let j = choose|j: int| 0 <= j < before.len() && before[j] == a;
                        assert(after[j] == a);
                    }
                    assert(after[k as int] == addr);
                }
                assert(!before.contains(addr));
                assert(hit(addr) <==> page_start <= addr < page_end);
            }
            if page_start <= addr && addr < page_end {
                match self.cow_pages.remove(&addr) {
                    Some(mapping) => {
                        mapping.release_frame_reference(meta);
                    },
                    None => {},
                }
                dropped = dropped + 1;
                proof {
                    done = done0.push(addr);
                    assert(done.drop_last() =~= done0);
                    assert forall|a: u64| done.contains(a) <==> done0.contains(a) || a == addr by {
                        if done0.contains(a) {
                            let j = choose|j: int| 0 <= j < done0.len() && done0[j] == a;
                            assert(done[j] == a);
                        }
                        assert(done[done0.len() as int] == addr);
                    }
                    assert(keys::increasing(done)) by {
                        assert forall|i: int| 0 <= i < done0.len() implies done0[i] < addr by {
                            assert(done0.contains(done0[i]));
                            let j = choose|j: int| 0 <= j < before.len() && before[j] == done0[i];
                            assert(ks[j] < ks[k as int]);
                        }
                    }
                }
            }
            k = k + 1;
        }
        proof {
            assert(ks.take(k as int) =~= ks);
            let sub = m0.restrict(gone);
            assert forall|a: u64| #[trigger] done.contains(a) <==> sub.contains_key(a) by {
                assert(ks.contains(a) <==> m0.contains_key(a));
            }
            keys::lemma_listing(done, sub);
            assert forall|a: u64| #[trigger] self.cow_pages@.contains_key(a) <==> m0.remove_keys(
                gone,
            ).contains_key(a) by {
                assert(done.contains(a) <==> sub.contains_key(a));
            }
            assert(self.cow_pages@ =~= m0.remove_keys(gone));
        }
        removed + dropped
    }

    /// Sets the flags of every region that meets the range. Regions are changed as
    /// a whole.
    pub fn protect(&mut self, start_addr: u64, byte_len: u64, new_vm_flags: u32) -> (r: Result<
        (),
        &'static str,
    >)
        requires
            old(self).vm_map.wf(),
            start_addr + byte_len <= u64::MAX,
        ensures
            r is Ok,
            final(self).vm_map.wf(),
            final(self).same_identity(old(self)),
            final(self).cow_pages == old(self).cow_pages,
            final(self).vm_map.regions@ == old(self).vm_map.regions@.map_values(
                |x: VmRegion| protected(x, start_addr, byte_len, new_vm_flags),
            ),
    {
        let ghost s = self.vm_map.regions@;
        let ghost f = |x: VmRegion|
            if x.start_addr < start_addr + byte_len && x.spec_end() > start_addr {
                VmRegion { vm_flags: new_vm_flags, ..x }
            } else {
                x
            };
        let end_addr: u64 = start_addr + byte_len;
        let mut i: usize = 0;
        while i < self.vm_map.regions.len()
            invariant
                i <= s.len(),
                s == old(self).vm_map.regions@,
                region::sorted_apart(s),
                f == (|x: VmRegion|
                    if x.start_addr < start_addr + byte_len && x.spec_end() > start_addr {
                        VmRegion { vm_flags: new_vm_flags, ..x }
                    } else {
                        x
                    }),
                end_addr == start_addr + byte_len,
                self.vm_map.regions@.len() == s.len(),
                forall|j: int| 0 <= j < i ==> #[trigger] self.vm_map.regions@[j] == f(s[j]),
                forall|j: int| i <= j < s.len() ==> #[trigger] self.vm_map.regions@[j] == s[j],
                self.same_identity(old(self)),
                self.cow_pages == old(self).cow_pages,
            decreases s.len() - i,
        {
            let mut region: VmRegion = self.vm_map.regions[i];
            assert(region == s[i as int]);
            if region.start_addr < end_addr && region.end() > start_addr {
                region.vm_flags = new_vm_flags;
                self.vm_map.regions.set(i, region);
            }
            i = i + 1;
        }
        proof {
            let t = self.vm_map.regions@;
            assert(t =~= s.map_values(f));
            assert forall|j: int, k: int| 0 <= j < k < t.len() implies (
            #[trigger] t[j]).spec_end() <= (#[trigger] t[k]).start_addr by {
                assert(s[j].spec_end() <= s[k].start_addr);
            }
            assert forall|j: int| 0 <= j < t.len() implies (#[trigger] t[j]).fits() by {
                assert(s[j].fits());
            }
        }
        Ok(())
    }

    /// How many pages are tracked.
    pub fn tracked_cow_page_count(&self) -> (r: usize)
        ensures
            r == self.cow_pages@.len(),
    {
        self.cow_pages.len()
    }

    /// How many tracked pages are on a frame with more than one reference.
    pub fn shared_cow_page_count(&self, meta: &FrameTable) -> (r: usize)
        requires
            self.wf(meta@),
        ensures
            r == self.cow_pages@.dom().filter(
                |a: u64| meta@[self.cow_pages@[a].frame_meta as int].rc > 1,
            ).len(),
    {
        let ghost m = self.cow_pages@;
        let ghost shared = |a: u64| meta@[m[a].frame_meta as int].rc > 1;
        let pages = sorted_keys(&self.cow_pages);
        proof {
            keys::lemma_passing_keys(pages@, m, shared);
        }
        let mut count: usize = 0;
        let mut k: usize = 0;
        while k < pages.len()
            invariant
                k <= pages@.len(),
                m == self.cow_pages@,
                keys::lists_keys(pages@, m),
                pages_wf(m, meta@),
                shared == (|a: u64| meta@[m[a].frame_meta as int].rc > 1),
                count <= k,
                count == pages@.take(k as int).to_set().filter(shared).len(),
            decreases pages@.len() - k,
        {
            proof {
                keys::lemma_passing_step(pages@, k as int, shared);
                assert(pages@.contains(pages@[k as int]));
            }
            let mapping: CowPageMapping = *self.cow_pages.get(&pages[k]).unwrap();
            if mapping.frame_ref_count(meta) > 1 {
                count = count + 1;
            }
            k = k + 1;
        }
        count
    }

    /// Splits the region that contains an address in two at that address.
    pub fn split_region(&mut self, split_addr: u64) -> (r: Result<(), &'static str>)
        requires
            old(self).vm_map.wf(),
        ensures
            final(self).vm_map.wf(),
            final(self).same_identity(old(self)),
            final(self).cow_pages == old(self).cow_pages,
            r is Err ==> final(self).vm_map.regions@ == old(self).vm_map.regions@,
            r == Err::<(), &'static str>("enomem") <==> forall|i: int|
                0 <= i < old(self).vm_map.regions@.len() ==> !(
                #[trigger] old(self).vm_map.regions@[i]).covers(split_addr as int),
            r == Err::<(), &'static str>("einval") <==> exists|i: int|
                0 <= i < old(self).vm_map.regions@.len() && (
                #[trigger] old(self).vm_map.regions@[i]).covers(split_addr as int)
                    && old(self).vm_map.regions@[i].start_addr == split_addr,
            r matches Err(e) ==> e == "enomem" || e == "einval",
            r is Ok ==> exists|i: int|
                {
                    &&& 0 <= i < old(self).vm_map.regions@.len()
                    &&& (#[trigger] old(self).vm_map.regions@[i]).covers(split_addr as int)
                    &&& final(self).vm_map.regions@ == old(self).vm_map.regions@.update(
                        i,
                        region::left_part(old(self).vm_map.regions@[i], split_addr),
                    ).insert(i + 1, region::right_part(old(self).vm_map.regions@[i], split_addr))
                },
    {
        let ghost s = self.vm_map.regions@;
        proof {
            reveal_strlit("enomem");
            reveal_strlit("einval");
            assert("enomem"@[1] != "einval"@[1]);
        }
        let region_count = self.vm_map.regions.len();
        let region_index = match self.vm_map.find_index(split_addr) {
            Some(i) => i,
            None => {
                return Err("enomem");
            },
        };
        let ghost at = region_index as int;
        assert(s[at].fits());
        let region: VmRegion = self.vm_map.regions[region_index];
        match region.split_at(split_addr) {
            None => Err("einval"),
            Some((left_region, right_region)) => {
                self.vm_map.regions.set(region_index, left_region);
                let next_index: usize = region_index + 1;
                self.vm_map.regions.insert(next_index, right_region);
                proof {
                    let t = self.vm_map.regions@;
                    assert(t =~= s.update(at, left_region).insert(at + 1, right_region));
                    assert forall|j: int| 0 <= j < t.len() implies (#[trigger] t[j]).fits() by {
                        if j < at {
                            assert(s[j].fits());
                        } else if j > at + 1 {
                            assert(t[j] == s[j - 1]);
                            assert(s[j - 1].fits());
                        }
                    }
                    assert forall|j: int, k: int| 0 <= j < k < t.len() implies (
                    #[trigger] t[j]).spec_end() <= (#[trigger] t[k]).start_addr by {
                        let sj = if j <= at {
                            j
                        } else {
                            j - 1
                        };
                        let sk = if k <= at {
                            k
                        } else {
                            k - 1
                        };
                        if sj < sk {
                            assert(s[sj].spec_end() <= s[sk].start_addr);
                        }
                    }
                    assert forall|i: int|
                        0 <= i < s.len() && (#[trigger] s[i]).covers(
                            split_addr as int,
                        ) implies s[i].start_addr != split_addr by {
                        assert(s[i].fits());
                        if i < at {
                            assert(s[i].spec_end() <= s[at].start_addr);
                        } else if i > at {
                            assert(s[at].spec_end() <= s[i].start_addr);
                        }
                    }
                }
                Ok(())
            },
        }
    }
}

/// A fork leaves parent and child with the same pages, all of them pending, so
/// that neither can write to a shared frame without a fault.
pub proof fn lemma_fork_shares_pages(m: Map<u64, CowPageMapping>, a: u64)
    requires
        m.contains_key(a),
    ensures
        all_pending(m).contains_key(a),
        all_pending(m)[a].frame_index == m[a].frame_index,
        all_pending(m)[a].frame_meta == m[a].frame_meta,
        all_pending(m)[a].cow_pending,
        !all_pending(m)[a].is_writable,
{
}

/// A fork adds one reference to the frame of a page that no other page shares.
pub proof fn lemma_fork_adds_reference(
    meta: Seq<PgFrame>,
    pages: Seq<u64>,
    m: Map<u64, CowPageMapping>,
    at: int,
)
    requires
        forall|i: int| 0 <= i < pages.len() ==> m[#[trigger] pages[i]].wf(meta),
        0 <= at < pages.len(),
        forall|i: int|
            0 <= i < pages.len() && i != at ==> m[#[trigger] pages[i]].frame_meta
                != m[pages[at]].frame_meta,
    ensures
        all_upped(meta, pages, m).len() == meta.len(),
        all_upped(meta, pages, m)[m[pages[at]].frame_meta as int].rc
            == meta[m[pages[at]].frame_meta as int].rc.wrapping_add(1),
    decreases pages.len(),
{
    let front = pages.drop_last();
    if at == pages.len() - 1 {
        lemma_untouched_counts(meta, front, m, m[pages[at]].frame_meta);
    } else {
        assert forall|i: int| 0 <= i < front.len() implies m[#[trigger] front[i]].wf(meta) by {
            assert(pages[i] == front[i]);
        }
        assert forall|i: int| 0 <= i < front.len() && i != at implies m[#[trigger] front[i]].frame_meta
            != m[front[at]].frame_meta by {
            assert(pages[i] == front[i]);
        }
        lemma_fork_adds_reference(meta, front, m, at);
        assert(pages[pages.len() - 1] == pages.last());
    }
}

proof fn lemma_untouched_counts(
    meta: Seq<PgFrame>,
    pages: Seq<u64>,
    m: Map<u64, CowPageMapping>,
    handle: usize,
)
    requires
        handle < meta.len(),
        forall|i: int|
            0 <= i < pages.len() ==> m[#[trigger] pages[i]].frame_meta != handle
                && m[pages[i]].wf(meta),
    ensures
        all_upped(meta, pages, m).len() == meta.len(),
        all_upped(meta, pages, m)[handle as int] == meta[handle as int],
    decreases pages.len(),
{
    if pages.len() > 0 {
        let front = pages.drop_last();
        assert forall|i: int| 0 <= i < front.len() implies m[#[trigger] front[i]].frame_meta
            != handle && m[front[i]].wf(meta) by {
            assert(pages[i] == front[i]);
        }
        lemma_untouched_counts(meta, front, m, handle);
        assert(pages[pages.len() - 1] == pages.last());
    }
}

/// The pages in the list whose frame has the entry `handle` in the table of counts.
pub open spec fn users(pages: Seq<u64>, m: Map<u64, CowPageMapping>, handle: usize) -> nat
    decreases pages.len(),
{
    if pages.len() == 0 {
        0
    } else {
        users(pages.drop_last(), m, handle) + if m[pages.last()].frame_meta == handle {
            1nat
        } else {
            0nat
        }
    }
}

/// A fork adds to the count of each frame one reference for every page that maps
/// it.
pub proof fn lemma_fork_counts(
    meta: Seq<PgFrame>,
    pages: Seq<u64>,
    m: Map<u64, CowPageMapping>,
    handle: usize,
)
    requires
        forall|i: int| 0 <= i < pages.len() ==> m[#[trigger] pages[i]].wf(meta),
        handle < meta.len(),
        meta[handle as int].rc + users(pages, m, handle) <= usize::MAX,
    ensures
        all_upped(meta, pages, m).len() == meta.len(),
        all_upped(meta, pages, m)[handle as int].rc == meta[handle as int].rc + users(
            pages,
            m,
            handle,
        ),
    decreases pages.len(),
{
    if pages.len() > 0 {
        let front = pages.drop_last();
        assert forall|i: int| 0 <= i < front.len() implies m[#[trigger] front[i]].wf(meta) by {
            assert(pages[i] == front[i]);
        }
        lemma_fork_counts(meta, front, m, handle);
        assert(pages[pages.len() - 1] == pages.last());
    }
}

/// Unmapping takes from the count of each frame one reference for every page that
/// goes; a frame that none of those pages maps keeps its count.
pub proof fn lemma_unmap_counts(
    meta: Seq<PgFrame>,
    pages: Seq<u64>,
    m: Map<u64, CowPageMapping>,
    handle: usize,
)
    requires
        forall|i: int| 0 <= i < pages.len() ==> m[#[trigger] pages[i]].wf(meta),
        handle < meta.len(),
        users(pages, m, handle) <= meta[handle as int].rc,
    ensures
        all_downed(meta, pages, m).len() == meta.len(),
        all_downed(meta, pages, m)[handle as int].rc == meta[handle as int].rc - users(
            pages,
            m,
            handle,
        ),
    decreases pages.len(),
{
    if pages.len() > 0 {
        let front = pages.drop_last();
        assert forall|i: int| 0 <= i < front.len() implies m[#[trigger] front[i]].wf(meta) by {
            assert(pages[i] == front[i]);
        }
        lemma_unmap_counts(meta, front, m, handle);
        assert(pages[pages.len() - 1] == pages.last());
    }
}

proof fn lemma_one_user(pages: Seq<u64>, m: Map<u64, CowPageMapping>, handle: usize)
    ensures
        (forall|i: int| 0 <= i < pages.len() ==> m[#[trigger] pages[i]].frame_meta != handle) ==> users(
            pages,
            m,
            handle,
        ) == 0,
        forall|at: int|
            0 <= at < pages.len() && m[#[trigger] pages[at]].frame_meta == handle && (forall|i: int|
                0 <= i < pages.len() && i != at ==> m[#[trigger] pages[i]].frame_meta != handle)
                ==> users(pages, m, handle) == 1,
    decreases pages.len(),
{
    if pages.len() > 0 {
        let front = pages.drop_last();
        lemma_one_user(front, m, handle);
        assert(pages[pages.len() - 1] == pages.last());
        assert(forall|i: int| 0 <= i < front.len() ==> #[trigger] front[i] == pages[i]);
        assert forall|at: int|
            0 <= at < pages.len() && m[#[trigger] pages[at]].frame_meta == handle && (forall|i: int|
                0 <= i < pages.len() && i != at ==> m[#[trigger] pages[i]].frame_meta
                    != handle) implies users(pages, m, handle) == 1 by {
            if at < front.len() {
                assert(m[front[at]].frame_meta == handle);
            }
        }
    }
}

/// Unmapping takes one reference from the frame of a page that no other page
/// shares.
pub proof fn lemma_unmap_drops_reference(
    meta: Seq<PgFrame>,
    pages: Seq<u64>,
    m: Map<u64, CowPageMapping>,
    at: int,
)
    requires
        forall|i: int| 0 <= i < pages.len() ==> m[#[trigger] pages[i]].wf(meta),
        0 <= at < pages.len(),
        forall|i: int|
            0 <= i < pages.len() && i != at ==> m[#[trigger] pages[i]].frame_meta
                != m[pages[at]].frame_meta,
        meta[m[pages[at]].frame_meta as int].rc > 0,
    ensures
        all_downed(meta, pages, m).len() == meta.len(),
        all_downed(meta, pages, m)[m[pages[at]].frame_meta as int].rc
            == meta[m[pages[at]].frame_meta as int].rc - 1,
{
    let handle = m[pages[at]].frame_meta;
    lemma_one_user(pages, m, handle);
    lemma_unmap_counts(meta, pages, m, handle);
}

/// Unmapping the pages that a fork shared gives every frame the count back that it
/// had before the fork.
pub proof fn lemma_unmap_undoes_fork(
    meta: Seq<PgFrame>,
    pages: Seq<u64>,
    m: Map<u64, CowPageMapping>,
)
    requires
        forall|i: int| 0 <= i < pages.len() ==> m.contains_key(#[trigger] pages[i]),
        pages_wf(m, meta),
        forall|h: usize|
            h < meta.len() ==> (#[trigger] meta[h as int]).rc + users(pages, m, h) <= usize::MAX,
        meta.len() <= usize::MAX,
    ensures
        all_downed(all_upped(meta, pages, m), pages, all_pending(m)) == meta,
{
    let up = all_upped(meta, pages, m);
    let p = all_pending(m);
    lemma_upped_len(meta, pages, m);
    lemma_downed_len(up, pages, p);
    assert forall|h: int| 0 <= h < meta.len() implies all_downed(up, pages, p)[h] == #[trigger] meta[h] by {
        let handle = h as usize;
        assert(meta[handle as int].rc + users(pages, m, handle) <= usize::MAX);
        lemma_fork_counts(meta, pages, m, handle);
        lemma_same_users(pages, m, p, handle);
        lemma_unmap_counts(up, pages, p, handle);
    }
    assert(all_downed(up, pages, p) =~= meta);
}

proof fn lemma_upped_len(meta: Seq<PgFrame>, pages: Seq<u64>, m: Map<u64, CowPageMapping>)
    requires
        forall|i: int| 0 <= i < pages.len() ==> m[#[trigger] pages[i]].wf(meta),
    ensures
        all_upped(meta, pages, m).len() == meta.len(),
    decreases pages.len(),
{
    if pages.len() > 0 {
        let front = pages.drop_last();
        assert forall|i: int| 0 <= i < front.len() implies m[#[trigger] front[i]].wf(meta) by {
            assert(pages[i] == front[i]);
        }
        lemma_upped_len(meta, front, m);
        assert(pages[pages.len() - 1] == pages.last());
    }
}

proof fn lemma_downed_len(meta: Seq<PgFrame>, pages: Seq<u64>, m: Map<u64, CowPageMapping>)
    requires
        forall|i: int| 0 <= i < pages.len() ==> m[#[trigger] pages[i]].wf(meta),
    ensures
        all_downed(meta, pages, m).len() == meta.len(),
    decreases pages.len(),
{
    if pages.len() > 0 {
        let front = pages.drop_last();
        assert forall|i: int| 0 <= i < front.len() implies m[#[trigger] front[i]].wf(meta) by {
            assert(pages[i] == front[i]);
        }
        lemma_downed_len(meta, front, m);
        assert(pages[pages.len() - 1] == pages.last());
    }
}

proof fn lemma_same_users(
    pages: Seq<u64>,
    m: Map<u64, CowPageMapping>,
    p: Map<u64, CowPageMapping>,
    handle: usize,
)
    requires
        forall|i: int|
            0 <= i < pages.len() ==> p[#[trigger] pages[i]].frame_meta == m[pages[i]].frame_meta,
    ensures
        users(pages, p, handle) == users(pages, m, handle),
    decreases pages.len(),
{
    if pages.len() > 0 {
        let front = pages.drop_last();
        assert forall|i: int| 0 <= i < front.len() implies p[#[trigger] front[i]].frame_meta
            == m[front[i]].frame_meta by {
            assert(pages[i] == front[i]);
        }
        lemma_same_users(front, m, p, handle);
        assert(pages[pages.len() - 1] == pages.last());
    }
}

/// A fault is a segmentation fault exactly if no writable region holds the address.
/// Any other fault that fails found no free frame. A fault that fails changes
/// nothing.
pub proof fn lemma_fault_outcomes(
    regions: Seq<VmRegion>,
    x: u64,
    before: (Map<u64, CowPageMapping>, Seq<PgFrame>, Seq<bool>),
    after: (Map<u64, CowPageMapping>, Seq<PgFrame>, Seq<bool>),
    r: Result<u64, &'static str>,
)
    requires
        pages_wf(before.0, before.1),
        faults(regions, x, before, after, r),
    ensures
        r == Err::<u64, &'static str>("segfault") <==> !may_write(regions, x),
        r is Err && may_write(regions, x) ==> r == Err::<u64, &'static str>("oom")
            && frames::none_free(before.2),
        r is Err ==> after == before,
{
    reveal_strlit("segfault");
    reveal_strlit("oom");
    let page = bits::round_down(x as int, PAGE_SIZE as int) as u64;
    assert("segfault"@.len() != "oom"@.len());
    if may_write(regions, x) && before.0.contains_key(page) && r is Err {
        assert(after.0 =~= before.0);
    }
}

/// A write to an address of a region that may not be written is a segmentation
/// fault, and so is one to an address of no region; neither changes anything.
pub proof fn lemma_write_needs_permission(
    regions: Seq<VmRegion>,
    x: u64,
    before: (Map<u64, CowPageMapping>, Seq<PgFrame>, Seq<bool>),
    after: (Map<u64, CowPageMapping>, Seq<PgFrame>, Seq<bool>),
    r: Result<u64, &'static str>,
)
    requires
        region::sorted_apart(regions),
        faults(regions, x, before, after, r),
    ensures
        forall|i: int|
            0 <= i < regions.len() && (#[trigger] regions[i]).start_addr <= x
                < regions[i].start_addr + regions[i].byte_len && regions[i].vm_flags & VM_WRITE == 0
                ==> r == Err::<u64, &'static str>("segfault") && after == before,
        (forall|i: int|
            0 <= i < regions.len() ==> x < (#[trigger] regions[i]).start_addr || x
                >= regions[i].start_addr + regions[i].byte_len) ==> r == Err::<u64, &'static str>(
            "segfault",
        ) && after == before,
{
    assert forall|i: int|
        0 <= i < regions.len() && (#[trigger] regions[i]).start_addr <= x < regions[i].start_addr
            + regions[i].byte_len && regions[i].vm_flags & VM_WRITE == 0 implies !may_write(
        regions,
        x,
    ) by {
        assert forall|j: int|
            0 <= j < regions.len() && (#[trigger] regions[j]).covers(x as int) implies j == i by {
            region::lemma_one_region_per_address(regions, x as int, i, j);
        }
    }
}

/// A write to an address of a region that may be written succeeds, unless no frame
/// is free: the page gets, or has, a frame that is its own to write to, and the
/// address of that frame is returned. Every other page stays as it was.
pub proof fn lemma_permitted_write_gets_frame(
    regions: Seq<VmRegion>,
    i: int,
    x: u64,
    before: (Map<u64, CowPageMapping>, Seq<PgFrame>, Seq<bool>),
    after: (Map<u64, CowPageMapping>, Seq<PgFrame>, Seq<bool>),
    r: Result<u64, &'static str>,
)
    requires
        pages_wf(before.0, before.1),
        fault_fits(regions, x, before),
        faults(regions, x, before, after, r),
        0 <= i < regions.len(),
        regions[i].start_addr <= x < regions[i].start_addr + regions[i].byte_len,
        regions[i].vm_flags & VM_WRITE != 0,
    ensures
        (exists|f: int| 0 <= f < before.2.len() && #[trigger] before.2[f]) ==> r is Ok,
        r matches Ok(pa) ==> ({
            let page = (x - x % PAGE_SIZE) as u64;
            &&& after.0.contains_key(page)
            &&& pa == MEMORY_OFFSET + after.0[page].frame_index * PAGE_SIZE
            &&& !after.0[page].cow_pending
            &&& forall|q: u64|
                q != page ==> (#[trigger] after.0.contains_key(q) <==> before.0.contains_key(q))
            &&& forall|q: u64|
                q != page && #[trigger] before.0.contains_key(q) ==> after.0[q] == before.0[q]
        }),
        forall|f: int|
            0 <= f < before.2.len() && #[trigger] before.2[f] && !after.2[f] ==> r
                == Ok::<u64, &'static str>((MEMORY_OFFSET + f * PAGE_SIZE) as u64),
{
    let page = bits::round_down(x as int, PAGE_SIZE as int) as u64;
    assert(page == x - x % PAGE_SIZE);
    assert(regions[i].covers(x as int));
    assert(may_write(regions, x));
    if exists|f: int| 0 <= f < before.2.len() && #[trigger] before.2[f] {
        assert(!frames::none_free(before.2));
    }
    if before.0.contains_key(page) {
        let (m, inner) = choose|m: CowPageMapping, inner: Result<usize, &'static str>|
            {
                &&& resolves((before.0[page], before.1, before.2), (m, after.1, after.2), inner)
                &&& after.0 == #[trigger] before.0.insert(page, m)
                &&& r == #[trigger] at_frame(inner)
            };
        if r is Ok {
            let own = before.0[page];
            if own.cow_pending && before.1[own.frame_meta as int].rc > 1 {
                assert(frames::is_first_free(before.2, inner->Ok_0 as int));
            }
        }
    }
}

/// A fault that succeeded settles its page: the page stays mapped to the frame that
/// was returned, and another fault on it returns that frame again and changes
/// neither the pages, the counts nor the pool.
pub proof fn lemma_fault_settles_page(
    regions: Seq<VmRegion>,
    x: u64,
    before: (Map<u64, CowPageMapping>, Seq<PgFrame>, Seq<bool>),
    after: (Map<u64, CowPageMapping>, Seq<PgFrame>, Seq<bool>),
    r: Result<u64, &'static str>,
    y: u64,
    again: (Map<u64, CowPageMapping>, Seq<PgFrame>, Seq<bool>),
    r2: Result<u64, &'static str>,
)
    requires
        pages_wf(before.0, before.1),
        faults(regions, x, before, after, r),
        r is Ok,
        may_write(regions, y),
        bits::round_down(y as int, PAGE_SIZE as int) == bits::round_down(x as int, PAGE_SIZE as int),
        faults(regions, y, after, again, r2),
    ensures
        ({
            let page = bits::round_down(x as int, PAGE_SIZE as int) as u64;
            &&& after.0.contains_key(page)
            &&& !after.0[page].cow_pending
            &&& r == at_frame(Ok(after.0[page].frame_index))
        }),
        r2 == r,
        again == after,
{
    let page = bits::round_down(x as int, PAGE_SIZE as int) as u64;
    if before.0.contains_key(page) {
        let (m, inner) = choose|m: CowPageMapping, inner: Result<usize, &'static str>|
            {
                &&& resolves((before.0[page], before.1, before.2), (m, after.1, after.2), inner)
                &&& after.0 == #[trigger] before.0.insert(page, m)
                &&& r == #[trigger] at_frame(inner)
            };
        assert(inner is Ok);
        assert(after.0[page] == m);
    }
    assert(!after.0[page].cow_pending);
    let (m2, inner2) = choose|m: CowPageMapping, inner: Result<usize, &'static str>|
        {
            &&& resolves((after.0[page], after.1, after.2), (m, again.1, again.2), inner)
            &&& again.0 == #[trigger] after.0.insert(page, m)
            &&& r2 == #[trigger] at_frame(inner)
        };
    assert(m2 == after.0[page]);
    assert(again.0 =~= after.0);
}

/// A fork gives the child the layout of the parent: each region at the same place,
/// of the same size and with the same rights, and the same end of the heap. The
/// parent's own layout stays as it was.
pub proof fn lemma_fork_copies_layout(
    before: AddrSpace,
    parent: AddrSpace,
    child: AddrSpace,
    asid: u16,
    meta0: Seq<PgFrame>,
    meta1: Seq<PgFrame>,
    i: int,
)
    requires
        space_forked(before, parent, child, asid, meta0, meta1),
        0 <= i < before.vm_map.regions@.len(),
    ensures
        child.vm_map.regions@.len() == before.vm_map.regions@.len(),
        parent.vm_map.regions@.len() == before.vm_map.regions@.len(),
        child.vm_map.regions@[i].start_addr == before.vm_map.regions@[i].start_addr,
        child.vm_map.regions@[i].byte_len == before.vm_map.regions@[i].byte_len,
        child.vm_map.regions@[i].vm_flags == before.vm_map.regions@[i].vm_flags,
        parent.vm_map.regions@[i].start_addr == before.vm_map.regions@[i].start_addr,
        parent.vm_map.regions@[i].byte_len == before.vm_map.regions@[i].byte_len,
        parent.vm_map.regions@[i].vm_flags == before.vm_map.regions@[i].vm_flags,
        child.vm_map.brk == before.vm_map.brk,
        parent.vm_map.brk == before.vm_map.brk,
        child.vm_map.mmap_base == before.vm_map.mmap_base,
        child.asid == asid && parent.asid == before.asid,
        child.ref_count == 1 && parent.ref_count == before.ref_count,
        child.page_table_root == 0 && parent.page_table_root == before.page_table_root,
{
}

/// After a fork neither parent nor child writes to a page that both have: the first
/// write of the child to it takes a frame that was free, and leaves the frame of the
/// parent to the parent.
pub proof fn lemma_write_after_fork_is_private(
    before: AddrSpace,
    parent: AddrSpace,
    child: AddrSpace,
    asid: u16,
    meta0: Seq<PgFrame>,
    meta1: Seq<PgFrame>,
    pool: Seq<bool>,
    x: u64,
    after: (Map<u64, CowPageMapping>, Seq<PgFrame>, Seq<bool>),
    pa: u64,
)
    requires
        before.wf(meta0),
        space_forked(before, parent, child, asid, meta0, meta1),
        ({
            let page = (x - x % PAGE_SIZE) as u64;
            let m = before.cow_pages@[page];
            let list = keys::listing(before.cow_pages@);
            &&& before.cow_pages@.contains_key(page)
            &&& 1 <= meta0[m.frame_meta as int].rc
            &&& meta0[m.frame_meta as int].rc + users(list, before.cow_pages@, m.frame_meta)
                <= usize::MAX
            &&& m.frame_index < pool.len() ==> !pool[m.frame_index as int]
        }),
        meta0.len() < usize::MAX,
        faults(
            child.vm_map.regions@,
            x,
            (child.cow_pages@, meta1, pool),
            after,
            Ok::<u64, &'static str>(pa),
        ),
    ensures
        ({
            let page = (x - x % PAGE_SIZE) as u64;
            let mine = after.0[page];
            let theirs = parent.cow_pages@[page];
            &&& mine.is_writable && !mine.cow_pending
            &&& mine.frame_index != theirs.frame_index
            &&& theirs.cow_pending && !theirs.is_writable
            &&& theirs.frame_index == before.cow_pages@[page].frame_index
            &&& 0 <= mine.frame_index < pool.len() && pool[mine.frame_index as int]
            &&& !after.2[mine.frame_index as int]
        }),
{
    let page = (x - x % PAGE_SIZE) as u64;
    assert(page == bits::round_down(x as int, PAGE_SIZE as int));
    let m = before.cow_pages@[page];
    let list = keys::listing(before.cow_pages@);
    keys::lemma_listing_exists(before.cow_pages@);
    assert forall|i: int| 0 <= i < list.len() implies before.cow_pages@[#[trigger] list[i]].wf(
        meta0,
    ) by {
        assert(list.contains(list[i]));
    }
    lemma_fork_counts(meta0, list, before.cow_pages@, m.frame_meta);
    assert(list.contains(page));
    let at = choose|at: int| 0 <= at < list.len() && list[at] == page;
    lemma_some_user(list, before.cow_pages@, at);
    let shared = child.cow_pages@[page];
    assert(shared == pending(m.frame_index, m.frame_meta));
    let (mine, inner) = choose|mine: CowPageMapping, inner: Result<usize, &'static str>|
        {
            &&& resolves((child.cow_pages@[page], meta1, pool), (mine, after.1, after.2), inner)
            &&& after.0 == #[trigger] child.cow_pages@.insert(page, mine)
            &&& Ok::<u64, &'static str>(pa) == #[trigger] at_frame(inner)
        };
    lemma_upped_len(meta0, list, before.cow_pages@);
    lemma_fault_after_fork_separates(shared, meta1, pool, (mine, after.1, after.2), inner);
}

proof fn lemma_some_user(pages: Seq<u64>, m: Map<u64, CowPageMapping>, at: int)
    requires
        0 <= at < pages.len(),
    ensures
        users(pages, m, m[pages[at]].frame_meta) >= 1,
    decreases pages.len(),
{
    if at < pages.len() - 1 {
        assert(pages.drop_last()[at] == pages[at]);
        lemma_some_user(pages.drop_last(), m, at);
    }
}

/// Unmapping forgets exactly the pages of which some byte lies in the range; the
/// others stay as they are.
pub proof fn lemma_unmap_forgets_pages(
    before: AddrSpace,
    after: AddrSpace,
    start: u64,
    len: u64,
    meta0: Seq<PgFrame>,
    meta1: Seq<PgFrame>,
    n: int,
    page: u64,
)
    requires
        range_unmapped(before, after, start, len, meta0, meta1, n),
        before.cow_pages@.contains_key(page),
        page % PAGE_SIZE == 0,
        start + len + PAGE_SIZE - 1 <= u64::MAX,
    ensures
        after.cow_pages@.contains_key(page) <==> len == 0 || page >= start + len || page + PAGE_SIZE
            <= start,
        after.cow_pages@.contains_key(page) ==> after.cow_pages@[page] == before.cow_pages@[page],
{
    lemma_touched(start as int, len as int, page as int);
}

proof fn lemma_touched(start: int, len: int, page: int)
    requires
        0 <= start,
        0 <= len,
        0 <= page,
        page % (PAGE_SIZE as int) == 0,
        start + len + PAGE_SIZE - 1 <= u64::MAX,
    ensures
        touched(start, len, page) <==> len > 0 && page < start + len && start < page + PAGE_SIZE,
{
}

/// Unmapping removes every region that has an address in the range, whole, and no
/// other one that is not empty.
pub proof fn lemma_unmap_removes_regions(
    before: AddrSpace,
    after: AddrSpace,
    start: u64,
    len: u64,
    meta0: Seq<PgFrame>,
    meta1: Seq<PgFrame>,
    n: int,
    r: VmRegion,
)
    requires
        range_unmapped(before, after, start, len, meta0, meta1, n),
        before.vm_map.regions@.contains(r),
        r.byte_len > 0,
        start + len <= u64::MAX,
    ensures
        after.vm_map.regions@.contains(r) <==> !(r.start_addr < start + len && start < r.start_addr
            + r.byte_len),
{
    broadcast use vstd::seq_lib::group_filter_ensures;

    let keep = |x: VmRegion|
        !region::hit_by(x, start as int, bits::low_word(start + len) as int);
    assert(before.vm_map.regions@.filter(keep).contains(r) <==> before.vm_map.regions@.contains(r)
        && keep(r));
}

/// New rights reach exactly the regions that have an address in the range; nothing
/// else of a region changes.
pub proof fn lemma_protect_changes_rights(x: VmRegion, start: u64, len: u64, flags: u32)
    requires
        start + len <= u64::MAX,
        len > 0,
        x.byte_len > 0,
    ensures
        ({
            let y = protected(x, start, len, flags);
            &&& y.start_addr == x.start_addr
            &&& y.byte_len == x.byte_len
            &&& y.backing_offset == x.backing_offset
            &&& y.merge_tag == x.merge_tag
            &&& y.ref_count == x.ref_count
            &&& (exists|b: int|
                #![trigger x.covers(b)]
                x.start_addr <= b < x.start_addr + x.byte_len && start <= b < start + len)
                ==> y.vm_flags == flags
            &&& (x.start_addr + x.byte_len <= start || start + len <= x.start_addr) ==> y.vm_flags
                == x.vm_flags
        }),
{
}

/// A fork counts one more user of every region that may be written, and of no other; the
/// child's regions are its own.
pub proof fn lemma_fork_counts_writable_regions(r: VmRegion)
    requires
        r.ref_count < usize::MAX,
    ensures
        r.vm_flags & VM_WRITE != 0 ==> forked_parent(r).ref_count == r.ref_count + 1,
        r.vm_flags & VM_WRITE == 0 ==> forked_parent(r).ref_count == r.ref_count,
        forked_parent(r).backing_offset == r.backing_offset,
        forked_parent(r).merge_tag == r.merge_tag,
        forked_region(r).ref_count == 1,
{
}

/// A range whose last page would end outside of the address space, or an empty one,
/// makes no page be forgotten.
pub proof fn lemma_unmap_beyond_end(
    before: AddrSpace,
    after: AddrSpace,
    start: u64,
    len: u64,
    meta0: Seq<PgFrame>,
    meta1: Seq<PgFrame>,
    n: int,
    page: u64,
)
    requires
        range_unmapped(before, after, start, len, meta0, meta1, n),
        start + len + PAGE_SIZE - 1 > u64::MAX || len == 0,
        before.cow_pages@.contains_key(page),
    ensures
        after.cow_pages@.contains_key(page),
        after.cow_pages@[page] == before.cow_pages@[page],
{
}

} // verus!
