# chaos_kernel

A host-side model of a small kernel, written and verified in Verus: locks and wait
queues, memory (frames, regions, copy-on-write, slabs, buddy blocks), traps and
timers, files and pipes, System V style IPC, tasks, scheduling and the dispatch of
system calls.

- `src/` is the library. Every operation has a contract over plain mathematical
  models, and the laws of each module are public proof functions beside it.
- `tests/` runs the library on concrete values.
- `app/` puts the library behind host threads: the global kernel lock, parking and
  waking, logging, and the threads that run tasks.

State is held in plain fields and changed through `&mut`. Shared objects (tasks,
pipes, semaphore arrays, shared segments, frame counts) live in tables and are named
by their index. An index is given up by a call: `Kernel::drop_task` for a task, which
goes with all it holds once nothing refers to it, `Kernel::release_sem` and
`Kernel::release_shm` for an array or a segment that a caller holds. The clock, the kernel lock and thread numbers are parameters.
