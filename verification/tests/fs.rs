use chaos_kernel::fs::block::{Disk, IoQueue};
use chaos_kernel::fs::cache::{BlockCache, CacheSlot};
use chaos_kernel::fs::mount::MountTable;
use chaos_kernel::fs::pipe::{PipeNode, PipeTable};
use chaos_kernel::fs::pseudo::{read_as_vec, PseudoNode};
use chaos_kernel::ipc::semary::{SemArr, SemCtx, SemStore};
use chaos_kernel::ipc::shared_mem::{shm_get_or_create, ShmCtx, ShmStore};

#[test]
fn requests_are_served_like_an_elevator() {
    let mut q = IoQueue::new();
    for b in [5, 1, 9] {
        q.submit(b, false, 0, 0);
    }
    assert_eq!(q.dispatch(), Some((1, false)));
    assert_eq!(q.dispatch(), Some((5, false)));
    assert_eq!(q.dispatch(), Some((9, false)));
    assert_eq!(q.dispatch(), None);
    assert_eq!(q.dispatched, 3);
}

#[test]
fn adjacent_requests_are_merged() {
    let mut q = IoQueue::new();
    assert_eq!(q.submit_batch(&[(1, true, 0), (2, true, 0), (2, false, 0)], 5), 3);
    assert_eq!(q.depth(), 3);
    assert_eq!(q.merge_adjacent(), 1);
    assert_eq!(q.depth(), 2);
    assert_eq!(q.merged, 1);
}

#[test]
fn disk_reads_until_it_succeeds() {
    let mut d = Disk::failing("d", 2);
    let mut out = [0u8; 4];
    assert_eq!(d.read_block(0, &mut out), Ok(()));
    assert_eq!(out, [0xAA; 4]);
    assert_eq!(d.total_ops(), 3);
    d.reset_ops();
    assert_eq!(d.total_ops(), 0);
    d.set_errs(3);
    assert_eq!(d.read_block_n(0, &mut out, 2), Err("limit"));
    assert_eq!(d.errs, 1);
    assert_eq!(d.write_block(0, &[1]), Err("io_error"));
    assert_eq!(d.write_block(0, &[1]), Ok(()));
    assert_eq!(d.flush(), Ok(()));
    assert_eq!(d.total_ops(), 5);
}

#[test]
fn a_fault_reads_the_journal() {
    let mut d = Disk::failing("d", 1);
    d.attach_journal(Disk::new("j"));
    let mut out = [0u8; 2];
    d.read_block(0, &mut out).unwrap();
    assert_eq!(d.journal.as_ref().unwrap().total_ops(), 1);
}

#[test]
fn pipe_gives_back_what_was_written() {
    let mut t = PipeTable::new();
    let (rd, wr) = PipeNode::pair(&mut t);
    let mut buf = [0u8; 3];
    assert_eq!(rd.read_at(&mut t, &mut buf), Err("again"));
    assert_eq!(wr.write_at(&mut t, b"hello"), Ok(5));
    assert_eq!(rd.write_at(&mut t, b"no"), Ok(0));
    assert!(rd.can_read(&t));
    assert!(wr.can_write(&t));
    assert_eq!(rd.read_at(&mut t, &mut buf), Ok(3));
    assert_eq!(&buf, b"hel");
    assert_eq!(rd.read_at(&mut t, &mut buf), Ok(2));
    assert_eq!(&buf[..2], b"lo");
    assert_eq!(rd.poll(&t), (false, false, false));
    wr.close(&mut t);
    assert!(rd.can_read(&t));
    assert_eq!(rd.read_at(&mut t, &mut buf), Ok(0));
    assert!(!wr.can_write(&t));
}

#[test]
fn pseudo_files_are_read_only() {
    let p = PseudoNode::new("abc", 1);
    let mut buf = [0u8; 8];
    assert_eq!(p.read_at(1, &mut buf), 2);
    assert_eq!(&buf[..2], b"bc");
    assert_eq!(p.read_at(3, &mut buf), 0);
    assert_eq!(p.write_at(0, b"x"), Err("nosup"));
    assert_eq!(p.metadata_sz(), 3);
    assert_eq!(read_as_vec(b"xy"), b"xy".to_vec());
}

#[test]
fn longest_mount_wins() {
    let mut m = MountTable::new();
    m.bind("/mnt", "dev0");
    m.bind("/mnt/usb", "dev1");
    m.bind("/mnt", "dev0");
    assert_eq!(m.entries.len(), 2);
    assert_eq!(m.resolve("/mnt/usb/f").unwrap(), "dev1:/f");
    assert_eq!(m.resolve("/mnt/f").unwrap(), "dev0:/f");
    assert_eq!(m.resolve("//a///b").unwrap(), "/a/b");
}

#[test]
fn cache_marks_and_cleans() {
    let mut c = BlockCache::new(4);
    c.chains[1].items.push(CacheSlot { id: 5, modified: false });
    assert!(c.contains(5));
    assert!(!c.contains(1));
    c.mark_modified(5);
    assert!(c.contains_modified(5));
    assert_eq!((c.total_entries(), c.dirty_count()), (1, 1));
    c.clean_all();
    assert_eq!(c.dirty_count(), 0);
    assert!(c.drop_id(5));
    assert!(!c.drop_id(5));
    assert_eq!(c.total_entries(), 0);
}

#[test]
fn semaphore_arrays_are_found_by_key() {
    let mut store = SemStore::new();
    assert_eq!(SemArr::get_or_create(7, 2, 0o1000, &mut store), Ok(0));
    assert_eq!(SemArr::get_or_create(7, 9, 0, &mut store), Ok(0));
    assert_eq!(store.arrays[0].sems.len(), 2);
    assert_eq!(SemArr::get_or_create(7, 2, 0x600, &mut store), Err("eexist"));
    assert_eq!(SemArr::get_or_create(0, 1, 0, &mut store), Ok(1));
    assert_eq!(store.arrays[1].key, 1);
    let mut ctx = SemCtx::new();
    ctx.arrays.insert(0, 0);
    let copy = ctx.clone_ctx(&mut store);
    assert_eq!(copy.arrays.len(), 1);
    assert_eq!(store.strong[0], 3);
}

#[test]
fn shared_segments_are_found_by_key() {
    let mut store = ShmStore::new();
    let g = shm_get_or_create(5, 2, &mut store);
    assert_eq!(shm_get_or_create(5, 9, &mut store), g);
    assert_eq!(store.segments[g].pages, vec![0, 0]);
    assert_eq!(store.segments[g].strong, 2);
    let mut ctx = ShmCtx::new();
    let id = ctx.add(g);
    assert_eq!(id, 0);
    let mut tag = ctx.get(id, &mut store).unwrap();
    tag.set_addr(0x4000);
    ctx.set(id, tag, &mut store);
    assert_eq!(ctx.get_id_by_addr(0x4000), Some(0));
    assert_eq!(ctx.get_id_by_addr(0x5000), None);
    let copy = ctx.clone_ctx(&mut store);
    assert_eq!(copy.ids.len(), 1);
    ctx.pop(id, &mut store);
    assert_eq!(ctx.get_id_by_addr(0x4000), None);
}

#[test]
fn cleared_contexts_give_up_their_references() {
    let mut sems = SemStore::new();
    let g = SemArr::get_or_create(7, 1, 0, &mut sems).unwrap();
    let mut ctx = SemCtx::new();
    ctx.arrays.insert(2, g);
    let mut copy = ctx.clone_ctx(&mut sems);
    assert_eq!(sems.strong, vec![2]);
    copy.clear(&mut sems);
    assert_eq!(sems.strong, vec![1]);
    assert!(copy.arrays.is_empty());
    sems.release(g);
    assert_eq!(SemArr::get_or_create(7, 1, 0x600, &mut sems), Ok(1));
    let mut shms = ShmStore::new();
    let mut held = ShmCtx::new();
    held.add(shm_get_or_create(1, 1, &mut shms));
    held.add(shm_get_or_create(1, 1, &mut shms));
    assert_eq!(shms.segments[0].strong, 2);
    held.clear(&mut shms);
    assert_eq!(shms.segments[0].strong, 0);
    assert_eq!(shm_get_or_create(1, 1, &mut shms), 1);
}

#[test]
fn the_last_request_may_be_for_the_last_block() {
    let mut q = IoQueue::new();
    q.submit(u64::MAX - 1, false, 0, 0);
    q.submit(u64::MAX, false, 0, 0);
    assert_eq!(q.merge_adjacent(), 1);
    assert_eq!(q.depth(), 1);
}
