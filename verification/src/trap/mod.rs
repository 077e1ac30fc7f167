//! Traps, interrupts and timers.
pub mod controller;
pub mod frame;
pub mod timer;
