use chaos_kernel::consts::{N_REGS, TIMER_WHEEL_SIZE};
use chaos_kernel::trap::controller::TrapController;
use chaos_kernel::trap::frame::SimTrapFrame;
use chaos_kernel::trap::timer::{
    cpu_tick, do_tick, serial, timer, uptime_msec, wall_tick, Clock, TimerEntry, TimerWheel,
};

#[test]
fn only_the_first_processor_moves_the_wall_clock() {
    let mut clock = Clock::new();
    do_tick(&mut clock, 0);
    do_tick(&mut clock, 1);
    timer(&mut clock, 0);
    assert_eq!(wall_tick(&clock), 2);
    assert_eq!(cpu_tick(&clock), 3);
    assert_eq!(uptime_msec(&clock), 2);
}

#[test]
fn carriage_return_becomes_line_feed() {
    assert_eq!(serial(b'\r'), b'\n');
    assert_eq!(serial(b'x'), b'x');
}

#[test]
fn timers_fire_after_their_deadline() {
    let mut t = TimerEntry::new(10, 0, 1);
    assert!(!t.expired(10));
    assert!(t.expired(11));
    assert_eq!(t.remaining(4), 6);
    assert_eq!(t.remaining(12), 0);
    t.reset(11);
    assert!(!t.active);
    let mut r = TimerEntry::new(10, 5, 2);
    r.reset(11);
    assert_eq!(r.deadline, 16);
    assert!(r.active);
    r.cancel();
    assert!(!r.active);
}

#[test]
fn wheel_visits_one_slot_per_tick() {
    let mut w = TimerWheel::new();
    w.add_timer(TimerEntry::new(1, 0, 7));
    w.add_timer(TimerEntry::new(1, 3, 8));
    w.add_timer(TimerEntry::new(1 + TIMER_WHEEL_SIZE, 0, 9));
    assert_eq!(w.active_count(), 3);
    let fired = w.advance(2);
    assert_eq!(fired.len(), 2);
    assert_eq!((fired[0].callback_id, fired[1].callback_id), (7, 8));
    assert_eq!(w.active_count(), 2);
    assert!(w.cancel(8));
    assert!(!w.cancel(8));
    assert_eq!(w.active_count(), 1);
    assert_eq!(w.advance(3).len(), 0);
}

#[test]
fn frame_registers_have_their_places() {
    let mut f = SimTrapFrame::zeroed();
    f.set_return_value(1);
    f.set_stack_pointer(2);
    f.set_thread_pointer(3);
    f.set_instruction_pointer(4);
    let regs = f.to_registers();
    assert_eq!((regs[0], regs[N_REGS - 1], regs[N_REGS - 2]), (1, 2, 3));
    assert_eq!(f.instruction_pointer, 4);
    assert_eq!(f.syscall_argument_registers(), (1, 0, 0, 0, 0, 0));
    let g = f.clone_with_return_value(9);
    assert_eq!(f.changed_slots(&g), vec![(0, 1, 9)]);
    assert_eq!(f.changed_slots(&f), Vec::<(usize, u64, u64)>::new());
    assert_eq!(f.fingerprint(), 0x1926_4207_73dd_1cb3);
}

#[test]
fn frame_edits() {
    let f = SimTrapFrame::zeroed();
    assert_eq!(f.with_opcode_edit(0, 5).general_registers[0], 5);
    assert_eq!(f.with_opcode_edit(0x11, 6).instruction_pointer, 6);
    assert_eq!(f.with_opcode_edit(4, 7).status_flags, 7);
    assert_eq!(f.with_opcode_edit(5, (3 << 56) | 8).general_registers[3], 8);
    assert_eq!(f.with_opcode_edit(5, 0xFF << 56), f);
    assert_eq!(f.with_opcode_edit(9, 1), f);
}

#[test]
fn tagged_values() {
    let mut regs = [0u64; N_REGS];
    regs[0] = 0x7000_0000_0000_0005;
    regs[1] = 0x8000_0000_0000_0000;
    regs[2] = 0xF000_0000_0000_0001;
    let f = SimTrapFrame::from_registers(&regs);
    assert_eq!(f.tagged_register_value(0), 5);
    assert_eq!(f.tagged_register_value(1), 0x8000_0000_0000_0000);
    assert_eq!(f.tagged_register_value(2), 0xF000_0000_0000_0001);
    assert_eq!(f.tagged_register_value(N_REGS), 0);
}

#[test]
fn masked_vectors_are_not_dispatched() {
    let mut c = TrapController::new();
    let f = SimTrapFrame::zeroed().with_opcode_edit(1, 42);
    c.configure_vector_masks(0b10, 0b1);
    c.dispatch_trap_vector(1, f);
    assert!(c.last_trap_frame().is_none());
    c.dispatch_trap_vector(0, f);
    assert_eq!(c.last_trap_frame(), Some(f));
    let g = f.with_opcode_edit(1, 43);
    c.dispatch_trap_vector(9, g);
    assert_eq!(c.last_trap_frame(), Some(g));
    c.dispatch_trap_vector(16, f);
    assert_eq!(c.last_trap_frame(), Some(g));
    assert_eq!(c.software_vector_mask(), 0b10);
    assert_eq!(c.current_nesting_depth(), 0);
}

#[test]
fn saved_frames_are_a_stack() {
    let mut c = TrapController::new();
    let f = SimTrapFrame::zeroed();
    let g = f.with_opcode_edit(1, 1);
    c.push_saved_frame(&f);
    c.push_saved_frame(&g);
    assert_eq!(c.pop_saved_frame(), Some(g));
    assert_eq!(c.pop_saved_frame(), Some(f));
    assert_eq!(c.pop_saved_frame(), None);
}

#[test]
fn interrupt_leaves_the_handler() {
    let mut c = TrapController::new();
    c.suppress_interrupt_handling();
    assert!(c.interrupts_suppressed);
    c.resume_interrupt_handling();
    let f = SimTrapFrame::zeroed();
    assert_eq!(c.handle_interrupt(f), f);
    assert!(!c.is_in_handler());
    assert_eq!(c.dispatch_trap_frame(f), f);
    assert_eq!(c.last_trap_frame(), Some(f));
}
