use chaos_kernel::lock::{Mutex, PoisonError, TryLockError};
use chaos_kernel::sync::condvar::{ParkStep, SynchronizationQueue};
use chaos_kernel::sync::event_bus::{wait_event, wait_for_event_flags, EventBus, EventCallback, EventFlag, Subscriber};
use chaos_kernel::sync::mutex::{FlagsGuard, KernelLock, SpinLock};
use chaos_kernel::sync::semaphore::Semaphore;

struct Until {
    mask: u32,
}

impl EventCallback for Until {
    fn call(&mut self, flags: u32) -> bool {
        flags & self.mask != 0
    }
}

#[test]
fn kernel_lock_keeps_other_threads_out() {
    let mut lock = KernelLock::new();
    assert_eq!(lock.owner_id(), 0);
    lock.enter(1, 10);
    assert!(!lock.try_enter(2, 20));
    assert_eq!(lock.owner_id(), 10);
    assert!(lock.try_enter(1, 11));
    assert_eq!(lock.owner_id(), 10);
    assert_eq!(lock.recursion_level(), 2);
    lock.leave();
    assert!(!lock.try_enter(2, 20));
    lock.leave();
    assert!(lock.try_enter(2, 20));
    assert_eq!(lock.owner_id(), 20);
}

#[test]
fn leaving_a_free_kernel_lock_does_nothing() {
    let mut lock = KernelLock::new();
    lock.leave();
    assert!(!lock.is_held());
    assert_eq!(lock.recursion_level(), 0);
}

#[test]
fn spin_lock_is_held_once() {
    let mut lock = SpinLock::new();
    assert!(lock.try_acquire());
    assert!(!lock.try_acquire());
    assert!(lock.is_held());
    lock.release();
    assert!(!lock.is_held());
    lock.acquire();
    assert!(lock.is_held());
    let _guard = FlagsGuard::enter();
}

#[test]
fn mutex_gives_out_its_value_once() {
    let mut m = Mutex::new(5u32);
    let mut guard = match m.lock() {
        Ok(g) => g,
        Err(_) => panic!("poisoned"),
    };
    assert!(matches!(m.try_lock(), Err(TryLockError::WouldBlock)));
    guard.value = 6;
    m.unlock(guard);
    assert!(matches!(m.into_inner(), Ok(6)));
    assert_eq!(PoisonError::new(9u8).into_inner(), 9);
    let d: Mutex<u64> = Mutex::default();
    assert!(matches!(d.into_inner(), Ok(0)));
}

#[test]
fn bus_runs_callbacks_only_on_change() {
    let mut bus = EventBus::make();
    bus.subscribe(Subscriber { callback: Box::new(Until { mask: EventFlag::READABLE }) });
    bus.sub(Subscriber { callback: Box::new(Until { mask: EventFlag::CLOSED }) });
    assert_eq!(bus.callback_count(), 2);
    bus.set_flags(EventFlag::WRITABLE);
    assert_eq!(bus.cb_len(), 2);
    bus.set(EventFlag::READABLE);
    assert_eq!(bus.cb_len(), 1);
    bus.set_flags(EventFlag::READABLE);
    assert_eq!(bus.cb_len(), 1);
    bus.change_flags(EventFlag::READABLE | EventFlag::WRITABLE, EventFlag::CLOSED);
    assert_eq!(bus.flags, EventFlag::CLOSED);
    assert_eq!(bus.cb_len(), 0);
    bus.clear_flags(EventFlag::CLOSED);
    assert_eq!(bus.flags, 0);
    bus.change(0, EventFlag::ERROR);
    bus.clear(EventFlag::ERROR);
    assert_eq!(bus.flags, 0);
}

#[test]
fn bus_waiter_sees_awaited_flags() {
    let mut bus = EventBus::make();
    assert_eq!(wait_for_event_flags(&bus, EventFlag::READABLE), None);
    bus.set_flags(EventFlag::READABLE | EventFlag::ERROR);
    assert_eq!(
        wait_for_event_flags(&bus, EventFlag::READABLE),
        Some(EventFlag::READABLE | EventFlag::ERROR)
    );
    assert_eq!(wait_event(&bus, EventFlag::WRITABLE), None);
    assert_eq!(wait_event(&bus, EventFlag::ERROR), Some(5));
}

#[test]
fn semaphore_counts_units() {
    let mut s = Semaphore::new(1);
    assert_eq!(s.try_acquire(), Ok(true));
    assert_eq!(s.try_acquire(), Ok(false));
    s.release();
    assert_eq!(s.get_value(), 1);
    let guard = match s.access() {
        Ok(g) => g,
        Err(_) => panic!("refused"),
    };
    assert_eq!(s.get_value(), 0);
    guard.finish(&mut s);
    assert_eq!(s.get_value(), 1);
    assert_eq!(s.acquire_by_spinning(), Ok(()));
    s.set_value(-2);
    assert_eq!(s.try_acquire(), Ok(false));
    s.set_process_id(77);
    assert_eq!(s.get_process_id(), 77);
    assert_eq!(s.event_callback_count(), 0);
}

#[test]
fn removed_semaphore_refuses() {
    let mut s = Semaphore::new(3);
    s.remove();
    assert_eq!(s.try_acquire(), Err("removed"));
    assert_eq!(s.acquire_by_spinning(), Err("removed"));
    assert!(s.access().is_err());
    assert_eq!(s.get_value(), 3);
}

#[test]
fn early_signal_is_not_lost() {
    let mut q = SynchronizationQueue::new();
    assert_eq!(q.signal(), None);
    assert!(q.park_on(1, false) == ParkStep::Recheck);
    assert!(q.park_on(1, false) == ParkStep::Park);
    assert!(q.park_on(2, true) == ParkStep::Satisfied);
    assert_eq!(q.pending_waiters(), 1);
    assert_eq!(q.signal(), Some(1));
    assert_eq!(q.pending_waiters(), 0);
}

#[test]
fn being_woken_is_not_enough() {
    assert!(SynchronizationQueue::park_result(ParkStep::Satisfied, false));
    assert!(!SynchronizationQueue::park_result(ParkStep::Recheck, false));
    assert!(!SynchronizationQueue::park_result(ParkStep::Park, false));
    assert!(SynchronizationQueue::park_result(ParkStep::Park, true));
}

#[test]
fn wake_ups_go_to_the_longest_wait_first() {
    let mut q = SynchronizationQueue::new();
    q.wait_guard(1);
    assert!(q.wait_timeout(2));
    assert_eq!(q.wait_event(3, None), None);
    assert_eq!(q.wait_event(4, Some(false)), Some(false));
    assert_eq!(q.pending_waiters(), 3);
    assert_eq!(q.signal_many(2), vec![1, 2]);
    q.wait_guard(5);
    assert_eq!(q.broadcast(), vec![3, 5]);
    assert_eq!(q.broadcast(), Vec::<u64>::new());
    assert!(q.park_on(6, false) == ParkStep::Park);
}

#[test]
fn waiting_in_several_queues() {
    let mut queues = vec![SynchronizationQueue::new(), SynchronizationQueue::new()];
    assert_eq!(SynchronizationQueue::wait_events(&mut queues, 9, None), None);
    assert_eq!(queues[0].signal(), Some(9));
    assert_eq!(queues[1].signal(), Some(9));
    assert_eq!(SynchronizationQueue::wait_events(&mut queues, 9, Some(true)), Some(true));
    assert_eq!(queues[0].pending_waiters(), 0);
}

#[test]
fn epoll_registrations_leave_one_by_one() {
    let mut q = SynchronizationQueue::new();
    q.register_epoll(1, 2, 3);
    q.register_epoll(1, 2, 3);
    q.register_epoll(1, 2, 4);
    assert!(q.unregister_epoll(1, 2, 3));
    assert_eq!(q.epoll_registrations.len(), 2);
    assert!(q.unregister_epoll(1, 2, 3));
    assert!(!q.unregister_epoll(1, 2, 3));
    assert_eq!(q.epoll_registrations.len(), 1);
}

struct Diary {
    name: u32,
    done_on: u32,
    entries: std::sync::Arc<std::sync::Mutex<Vec<(u32, u32)>>>,
}

impl EventCallback for Diary {
    fn call(&mut self, flags: u32) -> bool {
        self.entries.lock().unwrap().push((self.name, flags));
        flags & self.done_on != 0
    }
}

#[test]
fn callbacks_run_once_for_each_change() {
    let entries = std::sync::Arc::new(std::sync::Mutex::new(Vec::new()));
    let mut bus = EventBus::make();
    for name in 1..4 {
        let done_on = if name == 2 { EventFlag::WRITABLE } else { EventFlag::CLOSED };
        bus.subscribe(Subscriber { callback: Box::new(Diary { name, done_on, entries: entries.clone() }) });
    }
    bus.set_flags(EventFlag::READABLE);
    assert_eq!(*entries.lock().unwrap(), vec![(1, 1), (2, 1), (3, 1)]);
    bus.set_flags(EventFlag::READABLE);
    bus.clear_flags(EventFlag::ERROR);
    assert_eq!(entries.lock().unwrap().len(), 3);
    bus.change_flags(EventFlag::READABLE, EventFlag::WRITABLE);
    assert_eq!(entries.lock().unwrap()[3..], [(1, 2), (2, 2), (3, 2)]);
    bus.clear_flags(EventFlag::WRITABLE);
    assert_eq!(entries.lock().unwrap()[6..], [(1, 0), (3, 0)]);
    assert_eq!(bus.cb_len(), 2);
}

#[test]
fn callbacks_that_are_done_leave_and_the_others_stay() {
    let mut bus = EventBus::make();
    for mask in [EventFlag::READABLE, EventFlag::CLOSED, EventFlag::READABLE, EventFlag::ERROR] {
        bus.subscribe(Subscriber { callback: Box::new(Until { mask }) });
    }
    bus.change_flags(0, EventFlag::READABLE);
    assert_eq!(bus.cb_len(), 2);
    assert!(bus.callbacks[0].callback.call(EventFlag::CLOSED));
    assert!(!bus.callbacks[0].callback.call(EventFlag::ERROR));
    assert!(bus.callbacks[1].callback.call(EventFlag::ERROR));
    bus.change_flags(0, EventFlag::READABLE);
    assert_eq!(bus.cb_len(), 2);
    bus.set_flags(EventFlag::ERROR | EventFlag::CLOSED);
    assert_eq!(bus.cb_len(), 0);
}
