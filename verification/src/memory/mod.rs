//! Virtual and physical memory.
pub mod addr;
pub mod buddy;
pub mod cow;
pub mod frames;
pub mod region;
pub mod slab;
