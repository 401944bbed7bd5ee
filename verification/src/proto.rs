//! The host-side design study of tasks, scheduling, policy and IPC: the same
//! shapes as the kernel's managers, over growable tables and names.

pub mod cap;
pub mod ipc;
pub mod memory;
pub mod policy;
pub mod runtime;
pub mod scheduler;
pub mod task;
