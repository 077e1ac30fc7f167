//! Communication between tasks.
pub mod refs;
pub mod semary;
pub mod shared_mem;
