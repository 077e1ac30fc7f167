use chaos_kernel::consts::{KERNEL_OFFSET, KSTACK_SIZE, MEMORY_OFFSET, PAGE_SIZE, PHYSICAL_MEMORY_OFFSET, VM_EXEC, VM_GROWSDOWN, VM_READ, VM_SHARED, VM_WRITE};
use chaos_kernel::memory::addr::{
    check_access, check_access_rw, copy_from_user, copy_to_user, heap_init, kernel_offset,
    phys_to_virt, read_user_fixup, verify_page_alignment, virt_to_phys, KernelStack,
};
use chaos_kernel::memory::buddy::BuddyAllocator;
use chaos_kernel::memory::cow::{AddrSpace, CowPageMapping, FrameTable};
use chaos_kernel::memory::frames::{
    compute_rss_watermark, defragment_frame_pool, frame_alloc, frame_alloc_contig, frame_dealloc,
    heap_grow, FramePool, PgFrame, ZoneInfo,
};
use chaos_kernel::memory::region::{VmMap, VmRegion};
use chaos_kernel::memory::slab::SlabEntry;

#[test]
fn direct_map_goes_there_and_back() {
    assert_eq!(phys_to_virt(0x1000), PHYSICAL_MEMORY_OFFSET + 0x1000);
    assert_eq!(virt_to_phys(phys_to_virt(0x1234)), 0x1234);
    assert_eq!(kernel_offset(KERNEL_OFFSET + 7), 7);
}

#[test]
fn user_ranges_end_below_the_kernel() {
    assert!(check_access(0, 1));
    assert!(check_access(KERNEL_OFFSET - 2, 1));
    assert!(check_access(KERNEL_OFFSET - 1, 1));
    assert!(check_access(KERNEL_OFFSET - 4, 4));
    assert!(!check_access(KERNEL_OFFSET - 4, 5));
    assert!(check_access(KERNEL_OFFSET - 1, 0));
    assert!(!check_access(KERNEL_OFFSET, 0));
    assert!(!check_access(u64::MAX, u64::MAX));
    assert!(check_access_rw(KERNEL_OFFSET, 0, true));
    assert!(check_access_rw(KERNEL_OFFSET - 1, 1, false));
    assert!(!check_access_rw(KERNEL_OFFSET - 1, 2, false));
    assert!(!check_access_rw(KERNEL_OFFSET, 1, true));
    assert!(!check_access_rw(8, u64::MAX, true));
    assert!(check_access_rw(0x1000, 8, true));
}

#[test]
fn copies_check_the_range() {
    assert_eq!(copy_from_user::<u32>(0x1000, 0), Some(0));
    assert_eq!(copy_from_user::<u64>(KERNEL_OFFSET - 8, 0), Some(0));
    assert_eq!(copy_from_user::<u64>(KERNEL_OFFSET - 7, 0), None);
    assert_eq!(copy_from_user::<u64>(KERNEL_OFFSET - 8, 4), Some(0));
    assert!(copy_to_user::<u64>(0x1000, 0, &1));
    assert!(copy_to_user::<u64>(KERNEL_OFFSET - 8, 0, &1));
    assert!(!copy_to_user::<u64>(KERNEL_OFFSET - 7, 0, &1));
    assert_eq!(read_user_fixup(), 1);
}

#[test]
fn heap_takes_whole_pages() {
    assert_eq!(heap_init(0x1001, 0x2FFF), 0x2000 + 0x2000);
    assert_eq!(heap_init(0x1000, 0x1000), 0x2000);
}

#[test]
fn block_starts_are_aligned() {
    assert!(verify_page_alignment(0x4000, 2));
    assert!(!verify_page_alignment(0x2000, 2));
    assert!(!verify_page_alignment(0, 12));
    assert!(!verify_page_alignment(KERNEL_OFFSET, 0));
}

#[test]
fn stack_top_is_its_end() {
    assert_eq!(KernelStack::new(0x8000).top(), 0x8000 + KSTACK_SIZE);
}

#[test]
fn frames_come_out_lowest_first_and_go_back() {
    let mut pool = FramePool::new(4);
    assert_eq!(pool.alloc_frame_index(), Some(0));
    assert_eq!(pool.alloc_frame_index(), Some(1));
    pool.free_frame_index(0);
    assert!(pool.is_frame_free(0));
    assert!(!pool.is_frame_free(1));
    assert!(!pool.is_frame_free(99));
    assert_eq!(pool.alloc_frame_index(), Some(0));
    assert_eq!(pool.free_frame_count(), 2);
    pool.free_frame_index(99);
    assert_eq!(pool.free_frame_count(), 2);
    assert_eq!(pool.alloc_frame_indices_at_most(5), vec![2, 3]);
    assert_eq!(pool.alloc_frame_index(), None);
}

#[test]
fn runs_of_frames_are_aligned() {
    let mut pool = FramePool::new(16);
    assert_eq!(pool.alloc_frame_index(), Some(0));
    assert_eq!(pool.alloc_contiguous_frames(4, 2), Some(4));
    assert_eq!(pool.alloc_contiguous_frames(3, 0), Some(1));
    assert_eq!(pool.alloc_contiguous_frames(9, 0), None);
    assert_eq!(pool.alloc_contiguous_frames(0, 0), None);
    assert_eq!(pool.free_frame_count(), 8);
}

#[test]
fn frame_addresses() {
    let mut pool = FramePool::new(8);
    assert_eq!(frame_alloc(&mut pool), Some(MEMORY_OFFSET));
    assert_eq!(frame_alloc(&mut pool), Some(MEMORY_OFFSET + PAGE_SIZE));
    frame_dealloc(&mut pool, MEMORY_OFFSET + 1);
    assert_eq!(pool.free_frame_count(), 6);
    frame_dealloc(&mut pool, MEMORY_OFFSET);
    assert_eq!(pool.free_frame_count(), 7);
    assert_eq!(frame_alloc_contig(&mut pool, 2, 1), Some(MEMORY_OFFSET + 2 * PAGE_SIZE));
    assert_eq!(frame_alloc_contig(&mut pool, 9, 0), None);
    assert_eq!(defragment_frame_pool(&mut pool.frame_is_free), 5);
}

#[test]
fn zones_stop_at_the_low_mark() {
    let mut pool = FramePool::new(8);
    let mut zone = ZoneInfo::new(1, 2, 4, 2, 4);
    assert_eq!(pool.alloc_frame_index_from_zone(&mut zone), Some(2));
    assert_eq!(zone.free_count, 3);
    assert_eq!(zone.zone_pressure(), 50);
    assert_eq!(zone.reclaim_target(), 1);
    assert_eq!(pool.alloc_frame_index_from_zone(&mut zone), Some(3));
    assert!(!zone.zone_can_alloc());
    assert_eq!(pool.alloc_frame_index_from_zone(&mut zone), None);
    assert_eq!(zone.zone_pressure(), 100);
    pool.free_frame_index_to_zone(2, &mut zone);
    assert_eq!(zone.free_count, 3);
    pool.free_frame_index_to_zone(2, &mut zone);
    assert_eq!(zone.free_count, 3);
    assert!(zone.contains_pfn(5));
    assert!(!zone.contains_pfn(6));
}

#[test]
fn counts_change_one_by_one() {
    let mut f = PgFrame::with_rc(2);
    assert_eq!(f.up(), 2);
    assert_eq!(f.down(), 3);
    assert!(f.cas(2, 9));
    assert!(!f.cas(2, 1));
    assert_eq!(f.count(), 9);
    f.set(0);
    assert!(!f.inc_if_nonzero());
    f.set(1);
    assert!(f.inc_if_nonzero());
    assert_eq!(f.count(), 2);
}

#[test]
fn heap_grows_in_ranges() {
    let mut pool = FramePool::new(4);
    let ranges = heap_grow(&mut pool, 3);
    assert_eq!(ranges, vec![(PHYSICAL_MEMORY_OFFSET, 3 * PAGE_SIZE)]);
    assert_eq!(heap_grow(&mut pool, 3), vec![(PHYSICAL_MEMORY_OFFSET + 3 * PAGE_SIZE, PAGE_SIZE)]);
    assert_eq!(heap_grow(&mut pool, 1), Vec::<(u64, u64)>::new());
}

#[test]
fn watermark_weighs_regions() {
    let regions = [
        VmRegion::new(0, 2 * PAGE_SIZE, VM_READ | VM_EXEC),
        VmRegion::new(0x10000, PAGE_SIZE, VM_WRITE | VM_SHARED),
    ];
    assert_eq!(compute_rss_watermark(&regions, 100), 14);
    assert_eq!(compute_rss_watermark(&regions, 10), 5);
    assert_eq!(compute_rss_watermark(&[], 10), 0);
    assert_eq!(compute_rss_watermark(&regions, 0), 0);
}

#[test]
fn cow_fault_gives_a_private_frame_once() {
    let mut pool = FramePool::new(4);
    let mut meta = FrameTable::new();
    let f = pool.alloc_frame_index().unwrap();
    let mut a = CowPageMapping::new_private(f, &mut meta);
    let mut b = a.clone_for_fork(&mut meta);
    assert_eq!(a.frame_ref_count(&meta), 2);
    assert!(!a.is_cow_resolved());
    assert_eq!(b.resolve_cow_fault(&mut meta, &mut pool), Ok(1));
    assert_eq!(b.fault(&mut meta, &mut pool), Ok(1));
    assert_eq!(a.frame_ref_count(&meta), 1);
    assert_eq!(a.fault(&mut meta, &mut pool), Ok(0));
    assert!(a.is_cow_resolved());
    assert_ne!(a.current_frame_index(), b.current_frame_index());
    assert_eq!(b.frame_id(), 1);
    b.release_frame_reference(&mut meta);
    assert_eq!(b.frame_ref_count(&meta), 0);
}

#[test]
fn cow_fault_without_frames_fails() {
    let mut pool = FramePool::new(0);
    let mut meta = FrameTable::new();
    let mut a = CowPageMapping::new(0, &mut meta);
    let mut b = a.clone_for_fork(&mut meta);
    assert_eq!(b.resolve_cow_fault(&mut meta, &mut pool), Err("oom"));
    assert!(!b.is_cow_resolved());
}

#[test]
fn regions_split_and_merge() {
    let r = VmRegion::with_backing_offset(0x1000, 0x3000, VM_READ, 0x8000);
    assert_eq!(r.end(), 0x4000);
    assert!(r.contains(0x1000));
    assert!(!r.contains(0x4000));
    let (a, b) = r.split_at(0x2000).unwrap();
    assert_eq!((a.start_addr, a.byte_len, a.backing_offset), (0x1000, 0x1000, 0x8000));
    assert_eq!((b.start_addr, b.byte_len, b.backing_offset), (0x2000, 0x2000, 0x9000));
    assert_eq!(a.merge_with(&b), Some(r));
    assert_eq!(b.merge_with(&a), None);
    assert_eq!(r.split_at(0x1000), None);
    assert_eq!(r.split_at(0x4000), None);
    let g = VmRegion::new(0, 0x2000, VM_GROWSDOWN);
    assert_eq!(g.split_at(0x1000).unwrap().0.vm_flags, 0);
    assert!(r.overlaps(&b));
    assert!(!a.overlaps(&b));
    let mut c = r;
    assert_eq!(c.increment_ref_count(), 1);
    assert_eq!(c.decrement_ref_count(), 2);
    assert_eq!(c.current_ref_count(), 1);
}

#[test]
fn map_refuses_overlap() {
    let mut m = VmMap::new();
    assert_eq!(m.insert(VmRegion::new(0x3000, 0x1000, VM_READ)), Ok(()));
    assert_eq!(m.insert(VmRegion::new(0x1000, 0x1000, VM_READ)), Ok(()));
    assert_eq!(m.insert(VmRegion::new(0x1800, 0x1000, VM_READ)), Err("overlap"));
    assert_eq!(m.find(0x3fff).unwrap().start_addr, 0x3000);
    assert_eq!(m.find_index(0x1000), Some(0));
    assert_eq!(m.find_index(0x2000), None);
    assert_eq!(m.gap_after(0), 0x1000);
    assert_eq!(m.gap_after(1), KERNEL_OFFSET - 0x4000);
    assert_eq!(m.gap_after(2), 0);
    assert_eq!(m.total_mapped(), 0x2000);
    assert_eq!(m.clone_regions().len(), 2);
    assert_eq!(m.remove_range(0x1000, 1), 1);
    assert_eq!(m.clone_regions().len(), 1);
}

#[test]
fn free_range_is_the_lowest() {
    let mut m = VmMap::new();
    assert_eq!(m.find_free(0x1000, 0), Some(m.mmap_base));
    let base = m.mmap_base;
    m.insert(VmRegion::new(base, 0x1000, VM_READ)).unwrap();
    m.insert(VmRegion::new(base + 0x3000, 0x1000, VM_READ)).unwrap();
    assert_eq!(m.find_free(0x2000, 0), Some(base + 0x1000));
    assert_eq!(m.find_free(0x3000, 0), Some(base + 0x4000));
    assert_eq!(m.find_free(0x1000, 0x2000), Some(base + 0x2000));
    assert_eq!(m.find_free(0, 0), Some(base));
    assert_eq!(m.find_free(KERNEL_OFFSET, 0), None);
}

#[test]
fn fork_shares_pages_until_a_write() {
    let mut meta = FrameTable::new();
    let mut pool = FramePool::new(8);
    let mut parent = AddrSpace::new(1);
    parent.vm_map.insert(VmRegion::new(0x1000, 0x2000, VM_READ | VM_WRITE)).unwrap();
    let first = parent.handle_cow_fault(0x1000, &mut meta, &mut pool);
    assert!(first.is_ok());
    assert_eq!(parent.tracked_cow_page_count(), 1);
    let mut child = AddrSpace::fork_from(&mut parent, &mut meta, 2);
    assert_eq!(parent.shared_cow_page_count(&meta), 1);
    assert_eq!(child.tracked_cow_page_count(), 1);
    let copy = child.handle_cow_fault(0x1000, &mut meta, &mut pool);
    assert!(copy.is_ok());
    assert_ne!(copy, first);
    assert_eq!(parent.shared_cow_page_count(&meta), 0);
    assert_eq!(parent.handle_cow_fault(0x9000, &mut meta, &mut pool), Err("segfault"));
}

#[test]
fn address_space_regions() {
    let mut meta = FrameTable::new();
    let mut a = AddrSpace::new(1);
    a.vm_map.insert(VmRegion::new(0x1000, 0x3000, VM_READ | VM_WRITE)).unwrap();
    assert_eq!(a.split_region(0x2000), Ok(()));
    assert_eq!(a.vm_map.clone_regions().len(), 2);
    assert_eq!(a.split_region(0x9000), Err("enomem"));
    assert_eq!(a.split_region(0x2000), Err("einval"));
    assert_eq!(a.protect(0x2000, 0x2000, VM_READ), Ok(()));
    assert_eq!(a.vm_map.find(0x2000).unwrap().vm_flags, VM_READ);
    assert_eq!(a.vm_map.find(0x1000).unwrap().vm_flags, VM_READ | VM_WRITE);
    assert_eq!(a.unmap_range(0x1000, 0x3000, &mut meta), 2);
    assert_eq!(a.vm_map.clone_regions().len(), 0);
}

#[test]
fn slab_hands_out_slots_in_turn() {
    let mut s = SlabEntry::new(5, 3);
    assert_eq!(s.obj_size, 8);
    assert_eq!(s.slab_alloc(false), Some(0));
    assert_eq!(s.slab_alloc(false), Some(8));
    s.obj_at_mut(8).unwrap()[0] = 7;
    assert_eq!(s.obj_at(8).unwrap()[0], 7);
    s.slab_free(8);
    s.slab_free(8);
    s.slab_free(9);
    assert_eq!(s.slab_used(), 1);
    assert_eq!(s.slab_avail(), 2);
    assert_eq!(s.slab_alloc(false), Some(16));
    assert_eq!(s.slab_alloc(true), Some(8));
    assert_eq!(s.obj_at(8).unwrap()[0], 0);
    assert_eq!(s.slab_alloc(false), None);
    assert_eq!(s.shrink(), 0);
    s.slab_free(0);
    s.slab_free(8);
    s.slab_free(16);
    assert_eq!(s.shrink(), 24);
    assert!(s.obj_at(0).is_none());
}

#[test]
fn buddy_joins_what_it_split() {
    let mut b = BuddyAllocator::new(0, 16, 4);
    assert_eq!(b.free_pages_count(), 16);
    assert_eq!(b.largest_free_order(), 4);
    let a = b.alloc_order(0).unwrap();
    let c = b.alloc_order(2).unwrap();
    assert_eq!(b.free_pages_count(), 11);
    assert_eq!(b.largest_free_order(), 3);
    assert_eq!(b.fragmentation_score(), 27);
    let copy = b.snapshot();
    assert_eq!(copy.free_pages_count(), 11);
    b.free_order(a, 0);
    b.free_order(c, 2);
    assert_eq!(b.free_pages_count(), 16);
    assert_eq!(b.largest_free_order(), 4);
    assert_eq!(b.fragmentation_score(), 0);
    assert_eq!(b.alloc_order(5), None);
    assert!(b.alloc_order(4).is_some());
    assert_eq!(b.alloc_order(0), None);
}

#[test]
fn buddy_tiles_an_odd_range() {
    let b = BuddyAllocator::new(0x10_0000, 13, 10);
    assert_eq!(b.free_pages_count(), 13);
    assert_eq!(b.largest_free_order(), 3);
    assert_eq!(b.free_lists[3], vec![0x10_0000]);
    assert_eq!(b.free_lists[2], vec![0x10_8000]);
    assert_eq!(b.free_lists[0], vec![0x10_C000]);
}

#[test]
fn buddy_accounts_for_every_page() {
    let mut b = BuddyAllocator::new(0x4000, 13, 3);
    let mut held: Vec<(u64, usize)> = Vec::new();
    for order in [0, 2, 1, 3, 0] {
        let free = b.free_pages_count();
        match b.alloc_order(order) {
            Some(a) => {
                assert_eq!(b.free_pages_count(), free - (1 << order));
                for (at, o) in &held {
                    assert!(a + (PAGE_SIZE << order) <= *at || at + (PAGE_SIZE << o) <= a);
                }
                held.push((a, order));
            }
            None => assert_eq!(b.free_pages_count(), free),
        }
        assert_eq!(b.free_pages_count() + b.allocated, 13);
    }
    assert_eq!(held.iter().map(|h| h.1).collect::<Vec<usize>>(), vec![0, 2, 1, 0]);
    for (a, order) in held {
        b.free_order(a, order);
        assert_eq!(b.free_pages_count() + b.allocated, 13);
    }
    assert_eq!(b.allocated, 0);
    b.free_order(0x4000, 9);
    assert_eq!(b.free_pages_count(), 13);
}

#[test]
fn heap_ranges_are_the_frames_taken() {
    let mut pool = FramePool::new(8);
    pool.frame_is_free[1] = false;
    pool.frame_is_free[4] = false;
    let at = |pg: u64| PHYSICAL_MEMORY_OFFSET + pg * PAGE_SIZE;
    let ranges = heap_grow(&mut pool, 5);
    assert_eq!(ranges, vec![(at(0), PAGE_SIZE), (at(2), 2 * PAGE_SIZE), (at(5), 2 * PAGE_SIZE)]);
    assert_eq!(pool.frame_is_free, vec![false, false, false, false, false, false, false, true]);
}

#[test]
fn second_fault_finds_the_page_settled() {
    let mut meta = FrameTable::new();
    let mut pool = FramePool::new(8);
    let mut parent = AddrSpace::new(1);
    parent.vm_map.insert(VmRegion::new(0x1000, 0x2000, VM_READ | VM_WRITE)).unwrap();
    let first = parent.handle_cow_fault(0x1234, &mut meta, &mut pool);
    let left = pool.frame_is_free.clone();
    assert_eq!(parent.handle_cow_fault(0x1008, &mut meta, &mut pool), first);
    let mut child = AddrSpace::fork_from(&mut parent, &mut meta, 2);
    assert_eq!(meta.frames.iter().map(|f| f.count()).collect::<Vec<usize>>(), vec![2]);
    assert_eq!(pool.frame_is_free, left);
    let copy = child.handle_cow_fault(0x1000, &mut meta, &mut pool);
    let left = pool.frame_is_free.clone();
    assert_ne!(copy, first);
    assert_eq!(child.handle_cow_fault(0x1ff8, &mut meta, &mut pool), copy);
    assert_eq!(pool.frame_is_free, left);
    assert_eq!(meta.frames.iter().map(|f| f.count()).collect::<Vec<usize>>(), vec![1, 1]);
}

#[test]
fn unmapping_drops_the_references_of_a_fork() {
    let mut meta = FrameTable::new();
    let mut pool = FramePool::new(8);
    let mut parent = AddrSpace::new(1);
    parent.vm_map.insert(VmRegion::new(0x1000, 0x3000, VM_READ | VM_WRITE)).unwrap();
    assert!(parent.handle_cow_fault(0x1000, &mut meta, &mut pool).is_ok());
    assert!(parent.handle_cow_fault(0x3000, &mut meta, &mut pool).is_ok());
    let mut child = AddrSpace::fork_from(&mut parent, &mut meta, 2);
    assert_eq!(meta.frames.iter().map(|f| f.count()).collect::<Vec<usize>>(), vec![2, 2]);
    assert_eq!(child.unmap_range(0x3000, 0x1000, &mut meta), 2);
    assert_eq!(meta.frames.iter().map(|f| f.count()).collect::<Vec<usize>>(), vec![2, 1]);
    assert_eq!(child.unmap_range(0x1000, 0x1000, &mut meta), 1);
    assert_eq!(meta.frames.iter().map(|f| f.count()).collect::<Vec<usize>>(), vec![1, 1]);
}

#[test]
fn empty_regions_keep_the_map_in_order() {
    let mut m = VmMap::new();
    m.insert(VmRegion::new(0x3000, 0, VM_READ)).unwrap();
    m.insert(VmRegion::new(0x1000, 0x1000, VM_READ)).unwrap();
    m.insert(VmRegion::new(0x3000, 0x1000, VM_READ | VM_WRITE)).unwrap();
    assert_eq!(m.insert(VmRegion::new(0x1800, 0, VM_READ)), Err("overlap"));
    assert_eq!(m.clone_regions().len(), 3);
    assert_eq!(m.find(0x3000).unwrap().byte_len, 0x1000);
    assert_eq!(m.find(0x1fff).unwrap().start_addr, 0x1000);
    assert!(m.find(0x2000).is_none());
}
