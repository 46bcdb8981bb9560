//! A verified model of the process and memory-management system calls of a
//! small RISC-V (Sv39) teaching kernel: frame allocation, page tables, address
//! spaces, tasks, and the system calls that act on them.

pub mod config;
pub mod address;
pub mod frame_allocator;
pub mod page_table;
pub mod memory_set;
pub mod loader;
pub mod task;
pub mod process;
pub mod token_mm;
pub mod user_access;
pub mod trace;
pub mod scheduler;
pub mod process_tree;
