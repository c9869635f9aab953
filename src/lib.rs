//! Verified core of a small teaching kernel: the physical frame allocator,
//! per-task address spaces, task control blocks and the round-robin scheduler.

pub mod config;
pub mod console;
pub mod drivers;
pub mod frame_allocator;
pub mod loader;
pub mod manager;
pub mod memory_set;
pub mod stdio;
pub mod syscall;
pub mod task;
pub mod trap;
