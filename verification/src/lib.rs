//! A host-side model of a small kernel: locks, memory, traps, files, IPC and
//! processes as plain values whose every operation is proved against a contract.
//!
//! State that a running kernel keeps behind atomics and locks is held here in
//! ordinary fields and changed through `&mut`. Shared objects live in tables and
//! are named by their index. Addresses and system-call words are `u64`, the word
//! of the modelled machine.
pub mod bits;
pub mod calls;
pub mod consts;
pub mod fs;
pub mod ipc;
pub mod keys;
pub mod lock;
pub mod memory;
pub mod process;
pub mod seqs;
pub mod sync;
pub mod trap;
pub mod util;
