use vstd::prelude::*;

verus! {

// Addresses, page numbers and frame numbers are 64-bit machine words (`u64`):
// the kernel targets RV64, and Sv39 addresses do not fit a 32-bit word.

/// Size of a page and of a physical frame, in bytes.
pub const PAGE_SIZE: u64 = 4096;

/// Number of offset bits inside a page.
pub const PAGE_SIZE_BITS: u64 = 12;

/// Width of a virtual address under Sv39.
pub const VA_WIDTH_SV39: u64 = 39;

/// Width of a physical page number under Sv39.
pub const PPN_WIDTH_SV39: u64 = 44;

/// Number of distinct virtual page numbers that an Sv39 page table can hold.
pub const VPN_SPACE: u64 = 0x800_0000;

/// First virtual address above the user half of the Sv39 address space.
pub const MAXVA: u64 = 0x40_0000_0000;

/// Number of entries in one page-table node.
pub const PTES_PER_TABLE: u64 = 512;

/// Pid of the first user process, which adopts orphans.
pub const INIT_PID: usize = 0;

/// Priority that a newly created task starts with.
pub const DEFAULT_PRIORITY: u64 = 16;

/// Constant from which a task's stride step is derived.
pub const BIG_STRIDE: u64 = 0x10000;

/// Size of a user stack, in bytes.
pub const USER_STACK_SIZE: u64 = 8192;

} // verus!
