use chaos_kernel::consts::{BRK_BASE, KSTACK_SIZE, MEMORY_OFFSET, N_REGS, PAGE_SIZE, SIGKILL, SIG_IGN, USER_STACK_SIZE};
use chaos_kernel::fs::cache::CacheSlot;
use chaos_kernel::fs::file::{EpInst, FHandle, FLike, FdOpt};
use chaos_kernel::fs::pipe::{PipeNode, PipeTable};
use chaos_kernel::process::group::ProcessGroup;
use chaos_kernel::process::kernel::{Kernel, TTY_LIMIT};
use chaos_kernel::process::schedule::{RunQueue, SchedulePolicy};
use chaos_kernel::process::structs::{CapSet, Pid, ResourceLimits, SigAction, SigSet};
use chaos_kernel::process::table::{user_stack_top, TaskTable};
use chaos_kernel::process::task::Task;
use chaos_kernel::process::wait::WaitQueue;
use chaos_kernel::sync::event_bus::EventFlag;
use chaos_kernel::sync::mutex::KernelLock;
use chaos_kernel::trap::timer::Clock;

const STACK: u64 = 0x10_0000;

fn booted() -> Kernel {
    let mut k = Kernel::new(16);
    k.proc_init(STACK);
    k
}

fn file(name: &str) -> FLike {
    let opt = FdOpt { rd: true, wr: false, ap: false, nb: false };
    FLike::File(FHandle::new(name, opt, false, false))
}

#[test]
fn capabilities() {
    let mut c = CapSet::new();
    assert!(!c.check(3));
    c.grant(3);
    assert!(c.check(3));
    assert!(c.has_any(0b1000));
    assert!(c.raise_ambient(3));
    assert!(!c.raise_ambient(4));
    c.drop_cap(3);
    assert!(!c.check(3));
    assert_eq!(c.ambient, 0b1000);
    c.clear_ambient();
    assert_eq!(c.ambient, 0);
    c.grant(64);
    assert_eq!(c.bits, 0);
    assert!(CapSet::full().check(63));
    assert!(!CapSet::full().check(64));
    assert!(!CapSet::inherit(&CapSet::full()).check(12));
    assert!(CapSet::inherit(&CapSet::full()).check(0));
}

#[test]
fn pending_signals() {
    let mut s = SigSet::new();
    s.sig_raise(10);
    s.sig_raise(5);
    assert!(s.sig_pending(10));
    assert_eq!(s.deliverable(), Some(5));
    s.sig_block(1 << 5);
    assert_eq!(s.deliverable(), Some(10));
    assert_eq!(s.coalesce_pending(), 1 << 10);
    s.sig_unblock(1 << 5);
    s.sig_clear(10);
    s.sig_clear(5);
    assert_eq!(s.deliverable(), None);
    s.sig_setmask(u64::MAX);
    s.sig_raise(SIGKILL);
    assert_eq!(s.deliverable(), Some(SIGKILL));
    s.sig_raise(64);
    assert_eq!(s.pending, 1 << SIGKILL);
}

#[test]
fn signal_actions() {
    let mut s = SigSet::new();
    let ignore = SigAction { handler: SIG_IGN, flags: 0, mask: 0 };
    let caught = SigAction { handler: 0x1000, flags: 1, mask: 2 };
    s.set_action(3, ignore);
    s.set_action(4, caught);
    s.set_action(SIGKILL, ignore);
    s.set_action(0, SigAction { handler: 0x1234, flags: 0, mask: 0 });
    assert_eq!(s.get_action(0).handler, 0);
    assert!(s.is_ignored(3));
    assert!(!s.is_ignored(SIGKILL));
    assert_eq!(*s.get_action(4), caught);
    s.clear_non_caught();
    assert_eq!(s.get_action(4).handler, 0);
    assert!(s.is_ignored(3));
    assert_eq!(s.get_action(999).handler, 0);
}

#[test]
fn limits() {
    let mut l = ResourceLimits::default_limits();
    assert!(l.check_fd(1023));
    assert!(!l.check_fd(1024));
    assert!(l.check_threads(255));
    assert!(l.check_stack(USER_STACK_SIZE * 4));
    assert!(!l.check_stack(USER_STACK_SIZE * 4 + 1));
    assert!(l.check_data(1));
    assert!(l.check_filesize(u64::MAX));
    assert!(!l.check_mappings(65536));
    assert_eq!(l.set_limit(7, 5), Ok(()));
    assert_eq!(l.get_limit(7), Ok(5));
    assert_eq!(l.set_limit(4, 5), Err("einval"));
    assert_eq!(l.get_limit(4), Err("einval"));
    assert!(l.exceeds_any(6, 0, 0));
    assert!(!l.exceeds_any(5, 256, 0));
    assert_eq!(l.inherit(), l);
    assert_eq!(Pid::new().get(), 0);
    assert!(Pid(1).is_init());
}

#[test]
fn lower_scores_run_first() {
    let mut q = RunQueue::new();
    let mut late = SchedulePolicy::new();
    late.nice = 5;
    q.enqueue(1, late);
    q.enqueue(2, SchedulePolicy::new());
    q.enqueue(1, late);
    assert_eq!(q.len(), 2);
    assert_eq!(q.pick_next(), Some(2));
    assert_eq!(q.dequeue().unwrap().0, 2);
    assert!(q.remove(1));
    assert!(!q.remove(1));
    assert_eq!(q.dequeue(), None);
    assert_eq!(SchedulePolicy::with_prio(5).time_slice, 15);
    assert_eq!(SchedulePolicy::new().weight(), 1024);
    assert_eq!(late.weight(), 335);
}

#[test]
fn running_costs_time() {
    let mut q = RunQueue::new();
    q.enqueue(1, SchedulePolicy::new());
    q.enqueue(2, SchedulePolicy::new());
    q.update_vruntime(1, 10, 10);
    assert_eq!(q.queue[0].1.vruntime, 10);
    q.rebalance(30);
    let one = q.queue.iter().find(|e| e.0 == 1).unwrap().1;
    let two = q.queue.iter().find(|e| e.0 == 2).unwrap().1;
    assert_eq!((one.vruntime, two.vruntime), (30, 30));
    assert_eq!((one.last_tick, two.last_tick), (30, 30));
    q.rebalance(30);
    assert_eq!(q.queue.iter().find(|e| e.0 == 1).unwrap().1, one);
    assert_eq!(q.queue.iter().find(|e| e.0 == 2).unwrap().1, two);
    q.update_vruntime(2, 4096, 40);
    assert_eq!(q.pick_next(), Some(1));
    q.boost_priority(2, 3);
    assert_eq!(q.pick_next(), Some(2));
}

#[test]
fn preemption_nests() {
    let mut q = RunQueue::new();
    assert!(q.preemptible());
    q.preempt_disable();
    q.preempt_disable();
    assert!(!q.preempt_enable());
    assert!(!q.preemptible());
    assert!(!q.preempt_enable());
    assert!(q.preemptible());
    q.set_current(4, SchedulePolicy::new());
    assert!(q.yield_current());
    assert!(q.current.is_none());
    assert_eq!(q.pick_next(), Some(4));
    q.preempt_disable();
    assert!(q.preempt_enable());
    assert!(!q.yield_current());
    q.set_current(5, SchedulePolicy::new());
    q.clear_current();
    assert!(q.current.is_none());
}

#[test]
fn descriptors_of_a_task() {
    let mut pipes = PipeTable::new();
    let mut t = Task::make(3, "t");
    assert_eq!(t.add_file(file("a")), 0);
    assert_eq!(t.add_file(file("b")), 1);
    assert_eq!(t.close_fd(0, &mut pipes), Ok(()));
    assert_eq!(t.close_fd(0, &mut pipes), Err("ebadf"));
    assert_eq!(t.get_free_fd(), 0);
    assert_eq!(t.get_free_fd_from(1), 2);
    assert_eq!(t.dup_fd(1, true, &mut pipes), Ok(0));
    assert!(matches!(t.get_file(0), Some(FLike::File(h)) if h.cloexec && h.path == "b"));
    assert_eq!(t.dup_fd(9, true, &mut pipes), Err("ebadf"));
    assert_eq!(t.dup2_fd(1, 7, &mut pipes), Ok(7));
    assert_eq!(t.dup2_fd(9, 8, &mut pipes), Err("ebadf"));
    assert_eq!(t.fd_count(), 3);
    assert_eq!(t.set_cloexec(7, true), Ok(()));
    assert_eq!(t.set_cloexec(8, true), Err("ebadf"));
    assert!(t.get_file(8).is_none());
    assert!(t.get_ep(1).is_err());
    t.set_ep(1, EpInst { events: vec![(1, 2)], ready: 0, new_ctl: 0 });
    assert_eq!(t.get_ep(1).unwrap_or_else(|e| panic!("{}", e)).events, vec![(1, 2)]);
}

#[test]
fn signals_are_queued_once() {
    let mut t = Task::make(3, "t");
    assert!(!t.has_sig());
    t.send_sig(5, -1);
    t.send_sig(5, 9);
    t.send_sig(6, 9);
    assert_eq!(t.sig_queue, vec![(5, -1), (6, 9)]);
    assert_eq!(t.event_bus.flags, EventFlag::RECEIVE_SIGNAL);
    assert!(t.has_sig());
    t.sig_mask = (1 << 5) | (1 << 6);
    assert!(!t.has_sig());
    t.sig_mask = u64::MAX;
    assert!(!t.has_sig());
    t.send_sig(SIGKILL as i32, 1);
    assert!(t.has_sig());
    t.sig_queue = vec![(19, 1)].into();
    assert!(t.has_sig());
}

#[test]
fn faults_make_a_task_nicer() {
    let mut t = Task::make(3, "t");
    for _ in 0..8 {
        t.record_fault();
    }
    assert_eq!(t.working_set_nice(), 2);
    assert_eq!(t.working_set_nice(), 0);
    t.fault_count += 75;
    assert_eq!(t.working_set_nice(), 18);
    t.fault_count += 76;
    assert_eq!(t.working_set_nice(), 19);
    t.fault_count += 1 << 33;
    assert_eq!(t.working_set_nice(), 19);
}

#[test]
fn exit_ends_a_task() {
    let mut pipes = PipeTable::new();
    let mut store = vec![Task::make(1, "p"), Task::make(2, "c")];
    store[1].link_parent(0);
    store[0].link_child(1);
    let (rd, _wr) = PipeNode::pair(&mut pipes);
    store[1].add_file(FLike::Pipe(rd));
    Task::exit_proc(&mut store, 1, 0x1FF, &mut pipes);
    assert!(store[1].done());
    assert!(store[1].exited());
    assert_eq!(store[1].exit_code, 0x1FF);
    assert_eq!(store[1].info.status, Some(0xFF));
    assert_eq!(store[1].fd_count(), 0);
    assert_eq!(store[0].event_bus.flags, EventFlag::CHILD_PROCESS_QUIT);
    assert_eq!(pipes.pipes[0].ends, 1);
    assert_eq!(store[0].n_children(), 1);
}

#[test]
fn context_is_taken_and_put_back() {
    let mut t = Task::make(3, "t");
    let mut c = t.begin_run();
    assert!(t.thread_context.is_none());
    c.clear_child_tid = 5;
    t.end_run(c);
    assert_eq!(t.thread_context.unwrap().clear_child_tid, 5);
    assert_eq!(t.tag(), "t");
}

#[test]
fn tasks_are_found() {
    let mut table = TaskTable::new();
    let root = table.spawn_root();
    let a = table.spawn("a");
    let b = table.spawn("a");
    assert_eq!(table.find(1), Some(root));
    assert_eq!(table.find(9), None);
    assert_eq!(table.find_by_tag("a"), vec![a, b]);
    table.store[b].threads.push(77);
    assert_eq!(table.process_of_tid(77), Some(b));
    assert_eq!(table.process_of_tid(78), None);
    table.store[a].pgid = 4;
    assert_eq!(table.pgid_group(4), vec![a]);
    assert_eq!(table.pgid_group(0), vec![root, b]);
    table.register(b, Pid(50));
    assert_eq!(table.find(50), Some(b));
    assert_eq!(table.count(), 4);
    assert_eq!(table.send_signal_group(4, 9), 1);
    assert_eq!(table.store[a].sig_queue, vec![(9, -1)]);
    assert_eq!(table.store[b].sig_queue.len(), 0);
}

#[test]
fn orphans_go_to_the_root() {
    let mut pipes = PipeTable::new();
    let mut table = TaskTable::new();
    let root = table.spawn_root();
    let p = table.spawn("p");
    let c = table.spawn("c");
    table.store[p].link_child(c);
    table.store[c].link_parent(p);
    assert!(table.terminate_and_collect(2, 1, &mut pipes));
    assert!(!table.terminate_and_collect(2, 1, &mut pipes));
    assert_eq!(table.find(2), None);
    assert_eq!(table.store[c].parent, Some(root));
    assert_eq!(table.store[root].subtasks, vec![c]);
    assert_eq!(table.active_tasks(), vec![1, 3]);
    Task::exit_proc(&mut table.store, c, 0, &mut pipes);
    assert_eq!(table.zombie_tasks(), vec![3]);
    table.reap(3);
    assert_eq!(table.zombie_tasks(), Vec::<u64>::new());
}

#[test]
fn user_task_has_standard_descriptors() {
    let mut table = TaskTable::new();
    let t = table.new_user_task("/bin/sh", 0x7000);
    let task = &table.store[t];
    assert_eq!(task.fd_count(), 3);
    assert_eq!(task.exec_path, "/bin/sh");
    assert_eq!(task.pid, Pid(1));
    assert_eq!(task.threads, vec![1]);
    let frame = task.thread_context.unwrap().user_trap_frame;
    assert_eq!(frame.general_registers[N_REGS - 1], 0x7000);
    assert!(matches!(task.get_file(0), Some(FLike::File(h)) if h.opt.rd && !h.opt.wr));
    assert!(matches!(task.get_file(2), Some(FLike::File(h)) if h.opt.wr && h.path == "/dev/tty"));
}

#[test]
fn first_task_has_standard_descriptors() {
    let k = booted();
    let root = &k.tasks.store[0];
    assert_eq!(root.fd_count(), 3);
    assert!(matches!(root.get_file(0), Some(FLike::File(h)) if h.opt.rd && !h.opt.wr));
    assert!(matches!(root.get_file(1), Some(FLike::File(h)) if !h.opt.rd && h.opt.wr));
    assert!(matches!(root.get_file(2), Some(FLike::File(h)) if h.path == "/dev/tty"));
    assert_eq!(root.kernel_stack.as_ref().unwrap().top(), STACK + KSTACK_SIZE);
}

#[test]
fn threads_share_the_process() {
    let mut k = booted();
    let t = k.tasks.clone_thread(0, 0x5000, 0x6000, 0x42, &mut k.sem_store, &mut k.shm_store);
    let task = &k.tasks.store[t];
    let context = task.thread_context.unwrap();
    assert_eq!(context.clear_child_tid, 0x42);
    assert_eq!(context.user_trap_frame.general_registers[N_REGS - 1], 0x5000);
    assert_eq!(context.user_trap_frame.general_registers[N_REGS - 2], 0x6000);
    assert_eq!(k.tasks.store[0].threads, vec![1, 2]);
    assert_eq!(k.tasks.process_of_tid(2), Some(0));
}

#[test]
fn fork_exec_exit_wait() {
    let mut k = booted();
    k.tasks.store[0].vm_token = 0x9000;
    let opt = FdOpt { rd: true, wr: false, ap: false, nb: false };
    k.tasks.store[0].add_file(FLike::File(FHandle::new("keep", opt, false, true)));
    k.get_shm(3, 1);
    let g = k.get_shm(3, 1);
    k.tasks.store[0].shm_ctx.add(g);
    assert_eq!(k.do_fork(9), Err("esrch"));
    let child = k.do_fork(1).unwrap();
    assert_eq!(child, 2);
    let c = k.tasks.find(child).unwrap();
    assert_eq!(k.tasks.store[c].vm_token, 0x9000);
    assert_eq!(k.tasks.store[c].fd_count(), 4);
    assert_eq!(k.shm_store.segments[g].strong, 3);
    assert_eq!(k.do_wait(1, -1, 0), Err("echild"));
    assert_eq!(k.do_wait(1, -1, 1), Ok((0, 0)));
    k.tasks.store[c].set_cloexec(3, true).unwrap();
    assert_eq!(k.do_exec(child, "/bin/x", 0x7000), Ok(()));
    assert_eq!(k.do_exec(9, "/bin/x", 0x7000), Err("esrch"));
    assert_eq!(k.tasks.store[c].fd_count(), 3);
    assert_eq!(k.tasks.store[c].exec_path, "/bin/x");
    let frame = k.tasks.store[c].thread_context.unwrap().user_trap_frame;
    assert_eq!(frame.instruction_pointer, BRK_BASE);
    assert!(!k.run_turn(c));
    Task::exit_proc(&mut k.tasks.store, c, 7, &mut k.pipes);
    assert!(k.run_turn(c));
    assert_eq!(k.do_wait(1, 5, 1), Ok((0, 0)));
    assert_eq!(k.do_wait(1, 2, 0), Ok((2, 7)));
    assert_eq!(k.tasks.find(2), None);
    assert_eq!(k.do_wait(2, -1, 0), Err("esrch"));
    assert_eq!(k.do_wait(1, 0, 0), Ok((2, 7)));
}

#[test]
fn zombies_are_reclaimed() {
    let mut k = booted();
    let a = k.do_fork(1).unwrap();
    let b = k.do_fork(1).unwrap();
    for id in [a, b] {
        let t = k.tasks.find(id).unwrap();
        Task::exit_proc(&mut k.tasks.store, t, 0, &mut k.pipes);
    }
    assert_eq!(k.reclaim_zombies(), 2);
    assert_eq!(k.reclaim_zombies(), 0);
    assert_eq!(k.tasks.count(), 1);
}

#[test]
fn pipes_of_a_task() {
    let mut k = booted();
    assert_eq!(k.do_pipe(9), Err("esrch"));
    let (rd, wr) = k.do_pipe(1).unwrap();
    assert_eq!((rd, wr), (3, 4));
    let w = k.tasks.store[0].get_file(wr);
    match w {
        Some(FLike::Pipe(p)) => assert_eq!(p.write_at(&mut k.pipes, b"x"), Ok(1)),
        _ => panic!("no pipe"),
    }
    assert_eq!(k.pipes.pipes[0].buf.len(), 1);
}

#[test]
fn terminal_keeps_order() {
    let mut k = Kernel::new(1);
    k.tty_push(b'a');
    k.tty_push(b'\r');
    assert_eq!(k.tty_pop(), Some(b'a'));
    assert_eq!(k.tty_pop(), Some(b'\n'));
    assert_eq!(k.tty_pop(), None);
    for _ in 0..TTY_LIMIT + 5 {
        k.tty_push(b'z');
    }
    assert_eq!(k.tty_buf.len(), TTY_LIMIT);
}

#[test]
fn futex_buckets_are_shared() {
    let mut k = Kernel::new(1);
    let a = k.get_futex(0x1000);
    let b = k.get_futex(0x2000);
    assert_ne!(a, b);
    assert_eq!(k.get_futex(0x1000), a);
    assert_eq!(k.futexes.len(), 2);
}

#[test]
fn semaphores_of_the_kernel() {
    let mut k = Kernel::new(1);
    assert_eq!(k.get_sem(4, 1, 0), Ok(0));
    assert_eq!(k.get_sem(4, 1, 0x600), Err("eexist"));
}

#[test]
fn pages_come_and_go() {
    let mut k = Kernel::new(4);
    assert_eq!(k.memory_pressure(), 0);
    let pages = k.alloc_pages(3);
    assert_eq!(pages, vec![MEMORY_OFFSET, MEMORY_OFFSET + PAGE_SIZE, MEMORY_OFFSET + 2 * PAGE_SIZE]);
    assert_eq!(k.memory_pressure(), 75);
    assert_eq!(k.alloc_pages(3).len(), 1);
    k.free_pages(&pages);
    assert_eq!(k.pool.free_frame_count(), 3);
    assert_eq!(Kernel::new(0).memory_pressure(), 100);
}

#[test]
fn tick_cleans_the_cache() {
    let mut k = Kernel::new(1);
    let mut lock = KernelLock::new();
    k.cache.chains[3].items.push(CacheSlot { id: 3, modified: true });
    assert_eq!(k.cache_stats(), (1, 1));
    k.tick(1, &mut lock, 5);
    assert_eq!(k.cache_stats(), (1, 0));
    assert!(!lock.is_held());
}

#[test]
fn page_faults_count_for_the_running_task() {
    let mut k = booted();
    assert!(!k.handle_pgfault(0x1000));
    k.set_cur(0, Some(0));
    assert_eq!(k.cur_task(0), Some(0));
    assert_eq!(k.cur_task(99), None);
    assert!(k.handle_pgfault(0x1000));
    assert!(k.handle_pgfault_ext(0x1000, 2));
    assert_eq!(k.tasks.store[0].fault_count, 2);
}

#[test]
fn load_is_balanced_over_processors() {
    let mut k = booted();
    assert_eq!(k.balance_load(), 0);
    k.set_cur(0, Some(0));
    assert_eq!(k.balance_load(), 1);
}

#[test]
fn paths_are_looked_up() {
    let mut k = Kernel::new(1);
    assert_eq!(k.lookup_path(""), Err("enoent"));
    k.mnt.bind("/mnt", "dev0");
    assert_eq!(k.lookup_path("/mnt//a").unwrap(), "dev0:/a");
}

#[test]
fn schedule_tick_requeues_the_running_task() {
    let mut k = booted();
    let mut clock = Clock::new();
    k.schedule_tick(0, &mut clock);
    assert_eq!(k.runqueue.len(), 0);
    k.set_cur(1, Some(0));
    k.schedule_tick(1, &mut clock);
    assert_eq!(clock.tick, 1);
    assert_eq!(k.runqueue.pick_next(), Some(1));
}

#[test]
fn groups_signal_their_members() {
    let mut table = TaskTable::new();
    let a = table.spawn("a");
    let b = table.spawn("b");
    let mut g = ProcessGroup::new(1, 1, 1);
    g.add_member(2);
    g.add_member(2);
    g.add_member(99);
    assert_eq!(g.member_count(), 3);
    assert!(g.is_leader(1));
    g.broadcast_signal(10, &mut table);
    assert_eq!(table.store[a].sig_queue, vec![(10, 1)]);
    assert_eq!(table.store[b].sig_queue, vec![(10, 1)]);
    assert!(g.remove_member(99));
    assert!(!g.remove_member(99));
    assert!(!g.is_empty());
    assert!(!g.is_foreground());
    g.set_foreground(true);
    assert!(g.is_foreground());
}

#[test]
fn waiters_are_woken_by_key() {
    let mut q = WaitQueue::new();
    q.sleep(1, 100, 2);
    q.sleep(2, 200, 1);
    q.sleep(1, 101, 0);
    assert!(q.has_waiters_for(1));
    assert!(!q.has_waiters_for(3));
    assert_eq!(q.wake_one(1), Some(100));
    assert_eq!(q.wake_one(9), None);
    assert_eq!(q.pending_count(), 2);
    q.sleep(1, 102, 3);
    assert_eq!(q.wake_all(1), vec![101, 102]);
    assert_eq!(q.total_wakes(), 3);
    assert!(q.sleep_timeout(2));
    assert!(!q.sleep_timeout(2));
    assert_eq!(q.pending_count(), 0);
}

#[test]
fn waiters_are_reordered_stably() {
    let mut q = WaitQueue::new();
    q.sleep(1, 1, 5);
    q.sleep(2, 2, 1);
    q.sleep(3, 3, 5);
    q.sleep(4, 4, 1);
    q.reorder_by_priority();
    assert_eq!(q.inner, vec![(2, 2, 1), (4, 4, 1), (1, 1, 5), (3, 3, 5)]);
    assert_eq!(q.wake_filtered(|key, flags| key > 1 && flags == 5), vec![3]);
    assert_eq!(q.pending_count(), 3);
    assert_eq!(q.total_wakes(), 1);
}

#[test]
fn user_stacks_start_below_their_top() {
    assert_eq!(user_stack_top(), 0x4000_0000);
}

#[test]
fn references_go_with_the_last_handle() {
    let mut k = booted();
    let g = k.get_sem(4, 1, 0).unwrap();
    let m = k.get_shm(9, 2);
    let t = k.tasks.spawn("holder");
    k.tasks.store[t].sem_ctx.arrays.insert(0, g);
    k.tasks.store[t].shm_ctx.add(m);
    let u = k.tasks.clone_thread(t, 1, 2, 3, &mut k.sem_store, &mut k.shm_store);
    assert_eq!(k.sem_store.strong, vec![2]);
    assert_eq!(k.shm_store.segments[m].strong, 2);
    assert!(k.is_referenced(u));
    assert!(!k.drop_task(u));
    k.tasks.reap(k.tasks.store[u].id());
    assert_eq!(k.sem_store.strong, vec![2]);
    assert!(k.drop_task(u));
    assert_eq!(k.sem_store.strong, vec![1]);
    assert_eq!(k.shm_store.segments[m].strong, 1);
    assert_eq!(k.get_sem(4, 1, 0x600), Err("eexist"));
    let id = k.tasks.store[t].id();
    assert!(k.tasks.terminate_and_collect(id, 0, &mut k.pipes));
    k.set_cur(3, Some(t));
    assert!(!k.drop_task(t));
    k.set_cur(3, None);
    assert!(k.drop_task(t));
    assert!(k.drop_task(t));
    assert_eq!(k.sem_store.strong, vec![0]);
    assert_eq!(k.get_sem(4, 1, 0x600), Ok(1));
    assert_eq!(k.get_shm(9, 1), 1);
}

#[test]
fn dropping_a_task_closes_its_files() {
    let mut k = booted();
    let t = k.tasks.spawn("t");
    let id = k.tasks.store[t].id();
    assert!(k.do_pipe(id).is_ok());
    k.tasks.reap(id);
    assert_eq!(k.pipes.pipes[0].ends, 2);
    assert!(k.drop_task(t));
    assert_eq!(k.pipes.pipes[0].ends, 0);
    assert!(k.tasks.store[t].files.is_empty());
}

#[test]
fn a_collected_child_stays_with_its_parent() {
    let mut k = booted();
    let g = k.get_sem(4, 1, 0).unwrap();
    k.tasks.store[0].sem_ctx.arrays.insert(0, g);
    let id = k.do_fork(1).unwrap();
    let child = k.tasks.find(id).unwrap();
    Task::exit_proc(&mut k.tasks.store, child, 7, &mut k.pipes);
    assert_eq!(k.do_wait(1, -1, 0), Ok((id, 7)));
    assert!(!k.drop_task(child));
    assert_eq!(k.sem_store.strong, vec![2]);
    assert_eq!(k.do_wait(1, -1, 0), Ok((id, 7)));
}

#[test]
fn callers_give_up_their_references() {
    let mut k = booted();
    let g = k.get_sem(4, 1, 0).unwrap();
    let m = k.get_shm(4, 1);
    k.release_sem(g);
    k.release_shm(m);
    assert_eq!(k.get_sem(4, 1, 0x600), Ok(1));
    assert_eq!(k.get_shm(4, 1), 1);
}
