//! Tasks and the kernel.
pub mod futex;
pub mod group;
pub mod kernel;
pub mod schedule;
pub mod structs;
pub mod table;
pub mod task;
pub mod thread;
pub mod wait;
