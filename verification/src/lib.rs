//! Core logic of a small RISC-V (Sv39) kernel: page-table entries and page
//! tables, the physical page allocator, the AVL tree of virtual memory areas,
//! the round-robin task scheduler, trap decoding and UART output formatting.
use vstd::prelude::*;

pub mod paging;
pub mod pmm;
pub mod heap;
pub mod process;
pub mod trap;
pub mod uart;
pub mod boot;
pub mod vma;
