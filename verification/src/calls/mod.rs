//! System calls.
pub mod dispatch;
pub mod events;
pub mod files;
pub mod memory;
pub mod signals;
pub mod tasks;
