//! Locks, event flags, wait queues and semaphores.
pub mod condvar;
pub mod event_bus;
pub mod mutex;
pub mod semaphore;
