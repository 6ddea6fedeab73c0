# rvkernel

The logic of a small RISC-V (Sv39) teaching kernel, written in Verus and
verified against its contracts.

- `src/paging.rs`: page-table entries, three-level page tables, `map` and
  `walk`. Page tables other than the root live in `PhysMemory`, which holds
  them by the physical address of their page.
- `src/pmm.rs`: the physical page allocator (bump pointer and free list).
- `src/heap.rs`: the kernel heap cursor; each heap page is backed by a fresh
  physical page mapped read-write-execute.
- `src/vma.rs`: the AVL tree of virtual memory areas. The nodes live in a
  `Vec`, and a child link is the index of the child. A rotation leaves the
  node that moves down still linked to the child that moves up (the two
  point to each other), and that node takes the child's inner subtree in
  place of its own outer one, which is lost; so after any
  rotation the links form a cycle; the contracts state exactly which links
  and heights each call writes, and the calls that could walk such a cycle
  forever are specified on the inputs where they stop.
- `src/process.rs`: task slots and the round-robin scheduler.
- `src/trap.rs`: trap decoding and the program-counter and timer arithmetic.
- `src/uart.rs`: the bytes sent to the UART, and its address.
- `src/boot.rs`: the kernel address space built at boot.
- `app/`: the executable around the library (entry points, trap handler,
  device writes, locks, the global allocator, the context switch). It is
  ordinary Rust and is not verified.
- `tests/`: tests of the library on concrete values.
