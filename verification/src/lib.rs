//! RadianOS kernel core: physical and virtual memory management, the kernel
//! object database, the policy engine, the virtual file system, task and CPU
//! management, and the interval-tree heap allocator.
//!
//! All kernel state lives in a single [`db::Database`] value that is passed by
//! exclusive reference into every manager call; nothing here touches mutable
//! statics, raw memory or ports. The thin unverified shims that drive real
//! hardware live outside this crate.

pub mod containers;
pub mod cpu;
pub mod elf;
pub mod db;
pub mod pmm;
pub mod boot;
pub mod policy;
pub mod proto;
pub mod shell;
pub mod task;
pub mod tbs;
pub mod vfs;
pub mod vmm;
