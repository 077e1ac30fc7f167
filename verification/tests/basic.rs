use chaos_kernel::consts::N_REGS;
use chaos_kernel::memory::cow::{CowPageMapping, FrameTable};
use chaos_kernel::memory::frames::{FramePool, PgFrame};
use chaos_kernel::sync::mutex::KernelLock;
use chaos_kernel::trap::controller::TrapController;
use chaos_kernel::trap::frame::SimTrapFrame;

const ME: u64 = 1;

#[test]
fn basic_bkl_single_acquire_release() {
    let mut lock = KernelLock::new();
    lock.enter(ME, 1001);
    assert!(lock.is_held());
    assert_eq!(lock.owner_id(), 1001);
    lock.leave();
    assert!(!lock.is_held());
}

#[test]
fn basic_bkl_double_acquire_single_release() {
    let mut lock = KernelLock::new();
    lock.enter(ME, 1002);
    lock.enter(ME, 1002);
    assert_eq!(lock.recursion_level(), 2);
    lock.leave();
    assert!(lock.is_held());
    assert_eq!(lock.recursion_level(), 1);
    lock.leave();
}

#[test]
fn basic_cross_module_lock_order() {
    let mut lock = KernelLock::new();
    let mut pool = FramePool::new(16);
    lock.enter(ME, 1003);
    let got = pool.alloc_frame_index_with_kernel_lock(&mut lock, ME, 1004);
    assert_eq!(got, Some(0));
    assert_eq!(lock.owner_id(), 1003);
    assert_eq!(lock.recursion_level(), 1);
    lock.leave();
    assert!(!lock.is_held());
}

#[test]
fn basic_refcount_increment_decrement() {
    let mut f = PgFrame::new();
    f.up();
    f.down();
    assert_eq!(f.count(), 0);
}

#[test]
fn basic_refcount_concurrent_increment() {
    let mut f = PgFrame::with_rc(0);
    for _ in 0..64 {
        f.up();
    }
    assert_eq!(f.count(), 64);
}

#[test]
fn basic_cow_single_thread() {
    let mut pool = FramePool::new(16);
    let mut meta = FrameTable::new();
    let src = meta.insert(PgFrame::with_rc(2));
    let mut sp = CowPageMapping::new_cow(0, src);
    let initial_free = pool.free_frame_count();
    let result = sp.resolve_cow_fault(&mut meta, &mut pool);
    assert!(result.is_ok());
    assert_eq!(pool.free_frame_count(), initial_free - 1);
    assert_eq!(meta.frames[src].count(), 1);
}

#[test]
fn basic_save_restore_context() {
    let mut registers = [0u64; N_REGS];
    registers[0] = 0xAA;
    registers[1] = 0xBB;
    registers[2] = 0xCC;
    let trap_frame = SimTrapFrame::from_registers(&registers);
    let restored_registers = trap_frame.to_registers();
    assert_eq!(restored_registers[0], 0xAA);
    assert_eq!(restored_registers, registers);
}

#[test]
fn basic_interrupt_mask_set() {
    let mut trap_controller = TrapController::new();
    trap_controller.configure_vector_masks(0xFF, 0x00);
    assert_eq!(trap_controller.hardware_vector_mask(), 0x00);
}

#[test]
fn basic_page_fault_in_process_context() {
    let trap_controller = TrapController::new();
    let result = trap_controller.handle_page_fault(0x1000);
    assert!(result.is_ok());
}
