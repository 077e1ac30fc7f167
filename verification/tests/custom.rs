use chaos_kernel::process::kernel::Kernel;
use chaos_kernel::sync::mutex::KernelLock;
use chaos_kernel::trap::timer::Clock;
use chaos_kernel::util::net::{build_pseudo_header, compute_inet_checksum, tcp_checksum};

const ME: u64 = 1;
const STACK: u64 = 0x10_0000;

#[test]
fn nested_scheduler_fs_memory_chain_keeps_outer_gkl() {
    let mut lock = KernelLock::new();
    let mut kernel = Kernel::new(16);
    kernel.proc_init(STACK);
    kernel.mnt.bind("/mnt", "dev0");

    lock.enter(ME, 7001);
    kernel.tick(7002, &mut lock, ME);
    assert_eq!(kernel.lookup_path("/mnt/file").unwrap(), "dev0:/file");
    assert_eq!(kernel.alloc_pages(2).len(), 2);
    assert!(lock.is_held());
    assert_eq!(lock.recursion_level(), 1);
    lock.leave();
    assert!(!lock.is_held());
}

#[test]
fn try_enter_records_thread_for_reentrant_enter() {
    let mut lock = KernelLock::new();
    assert!(lock.try_enter(ME, 7101));
    lock.enter(ME, 7102);
    assert_eq!(lock.recursion_level(), 2);
    lock.leave();
    lock.leave();
    assert!(!lock.is_held());
}

#[test]
fn tcp_checksum_empty_payload_uses_tcp_protocol_number() {
    assert_eq!(tcp_checksum(0, 0, &[]), 0xfff9);
}

#[test]
fn tcp_checksum_matches_known_vector() {
    let src_ip = 0x0a00_0001;
    let dst_ip = 0x0a00_0002;

    assert_eq!(tcp_checksum(src_ip, dst_ip, b"hello"), 0xa81f);
}

#[test]
fn tcp_checksum_matches_pseudo_header_plus_inet_checksum() {
    let src_ip = 0x0a00_0001;
    let dst_ip = 0x0a00_0002;
    let payload = [0x12, 0x34, 0x56, 0x78, 0x9a];

    let mut data = build_pseudo_header(src_ip, dst_ip, 6, payload.len() as u16);
    data.extend_from_slice(&payload);

    assert_eq!(tcp_checksum(src_ip, dst_ip, &payload), compute_inet_checksum(&data));
}

#[test]
fn heavy_fault_task_loses_priority() {
    let mut k = Kernel::new(256);
    let mut clock = Clock::new();
    k.proc_init(STACK);
    let a = k.tasks.new_user_task("quiet", 0);
    let b = k.tasks.new_user_task("thrashing", 0);
    for _ in 0..200 {
        k.tasks.store[b].record_fault();
    }

    k.set_cur(0, Some(a));
    k.schedule_tick(0, &mut clock);
    k.set_cur(0, Some(b));
    k.schedule_tick(0, &mut clock);

    assert_eq!(k.runqueue.pick_next(), Some(k.tasks.store[a].id()));
}

#[test]
fn no_faults_keeps_default_priority() {
    let mut k = Kernel::new(256);
    let mut clock = Clock::new();
    k.proc_init(STACK);
    let a = k.tasks.new_user_task("a", 0);
    let b = k.tasks.new_user_task("b", 0);

    k.set_cur(0, Some(a));
    k.schedule_tick(0, &mut clock);
    k.set_cur(0, Some(b));
    k.schedule_tick(0, &mut clock);

    let next = k.runqueue.pick_next();
    assert!(next == Some(k.tasks.store[a].id()) || next == Some(k.tasks.store[b].id()));
}

#[test]
fn faults_stopping_restores_priority() {
    let mut k = Kernel::new(256);
    let mut clock = Clock::new();
    k.proc_init(STACK);
    let a = k.tasks.new_user_task("a", 0);
    let b = k.tasks.new_user_task("b", 0);
    for _ in 0..200 {
        k.tasks.store[b].record_fault();
    }

    k.set_cur(0, Some(a));
    k.schedule_tick(0, &mut clock);
    k.set_cur(0, Some(b));
    k.schedule_tick(0, &mut clock);
    assert_eq!(k.runqueue.pick_next(), Some(k.tasks.store[a].id()));

    k.set_cur(0, Some(b));
    k.schedule_tick(0, &mut clock);
    k.set_cur(0, Some(a));
    k.schedule_tick(0, &mut clock);
    let next = k.runqueue.pick_next();
    assert!(next == Some(k.tasks.store[a].id()) || next == Some(k.tasks.store[b].id()));
}
