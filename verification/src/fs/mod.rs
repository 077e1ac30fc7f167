//! Block devices, caches, pipes, files and mounts.
pub mod block;
pub mod cache;
pub mod file;
pub mod mount;
pub mod pipe;
pub mod pseudo;
