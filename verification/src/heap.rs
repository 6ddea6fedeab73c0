//! The kernel heap: virtual pages handed out from a moving cursor, each
//! backed by a fresh physical page mapped read-write-execute in the kernel
//! page table.
use vstd::prelude::*;
use crate::paging::{
    PageTable, PageTableEntryFlags, PhysMemory, map_ok, map_result,
};
use crate::pmm::{PhysicalMemoryManager, PmmView, alloc_result, PAGE_SIZE};

verus! {

/// The first virtual address of the heap.
pub const HEAP_START: u64 = 0x4000_0000;

/// The number of pages that hold `size` bytes.
pub open spec fn pages_for(size: u64) -> int {
    (size + 4095) / 4096
}

/// Root, memory and allocator after pages `i..n` of the block at `start` are
/// backed: for each page a physical page is allocated and mapped with
/// `RWX`; the last component is `false` when an allocation failed, which
/// ends the work.
pub open spec fn back_pages(
    root: Seq<u64>,
    mem: Map<u64, Seq<u64>>,
    pmm: PmmView,
    start: u64,
    i: nat,
    n: nat,
) -> (Seq<u64>, Map<u64, Seq<u64>>, PmmView, bool)
    decreases n - i,
{
    if i >= n {
        (root, mem, pmm, true)
    } else {
        let (p1, a) = alloc_result(pmm);
        match a {
            None => (root, mem, p1, false),
            Some(pa) => {
                let (r2, m2, p2) = map_result(
                    root,
                    mem,
                    p1,
                    (start + i * 4096) as u64,
                    pa,
                    PageTableEntryFlags::RWX,
                );
                back_pages(r2, m2, p2, start, i + 1, n)
            },
        }
    }
}

/// Backing pages `i..n` neither overflows nor fails inside `map`.
pub open spec fn back_pages_ok(
    root: Seq<u64>,
    mem: Map<u64, Seq<u64>>,
    pmm: PmmView,
    start: u64,
    i: nat,
    n: nat,
) -> bool
    decreases n - i,
{
    i < n ==> {
        &&& pmm.next_free_page + PAGE_SIZE <= u64::MAX
        &&& start + i * 4096 <= u64::MAX
        &&& {
            let (p1, a) = alloc_result(pmm);
            a matches Some(pa) ==> {
                let va = (start + i * 4096) as u64;
                &&& map_ok(root, mem, p1, va)
                &&& {
                    let (r2, m2, p2) = map_result(
                        root,
                        mem,
                        p1,
                        va,
                        pa,
                        PageTableEntryFlags::RWX,
                    );
                    back_pages_ok(r2, m2, p2, start, i + 1, n)
                }
            }
        }
    }
}

/// The heap's cursor: the virtual address the next block starts at.
pub struct HeapAllocator {
    pub next_va: u64,
}

impl HeapAllocator {
    /// A heap whose first block starts at `HEAP_START`.
    pub fn new() -> (h: Self)
        ensures
            h.next_va == HEAP_START,
    {
        Self { next_va: 0x4000_0000 }
    }

    /// Whether `allocate(pmm, root, mem, size)` backs its pages without an
    /// overflow and without `map` failing (see `back_pages_ok`); nothing is
    /// changed.
    pub fn allocate_ok(
        &self,
        pmm: &PhysicalMemoryManager,
        root: &Option<PageTable>,
        mem: &PhysMemory,
        size: u64,
    ) -> (b: bool)
        requires
            size + 4095 <= u64::MAX,
        ensures
            b == ((*root) is Some ==> back_pages_ok(
                root.unwrap()@,
                mem@,
                pmm@,
                self.next_va,
                0,
                pages_for(size) as nat,
            )),
    {
        match root {
            None => true,
            Some(rt0) => {
                let n: u64 = (size + 4095) / 4096;
                let start: u64 = self.next_va;
                let mut rt: PageTable = *rt0;
                let mut m = mem.clone();
                let mut p = pmm.clone();
                let ghost target = back_pages_ok(rt0@, mem@, pmm@, start, 0, n as nat);
                let mut i: u64 = 0;
                while i < n
                    invariant
                        i <= n,
                        n == pages_for(size),
                        n * 4096 <= u64::MAX,
                        target == back_pages_ok(rt0@, mem@, pmm@, start, 0, n as nat),
                        back_pages_ok(rt@, m@, p@, start, i as nat, n as nat) == target,
                        start == self.next_va,
                        *root == Some(*rt0),
                    decreases n - i,
                {
                    if p.next_free_page() > u64::MAX - 4096 {
                        proof {
                            assert(!back_pages_ok(rt@, m@, p@, start, i as nat, n as nat));
                        }
                        return false;
                    }
                    if start > u64::MAX - i * 4096 {
                        proof {
                            assert(!back_pages_ok(rt@, m@, p@, start, i as nat, n as nat));
                        }
                        return false;
                    }
                    let va: u64 = start + i * 4096;
                    match p.alloc_page() {
                        None => {
                            return true;
                        },
                        Some(pa) => {
                            if !rt.map_check(&p, &m, va) {
                                return false;
                            }
                            rt.map(&mut p, &mut m, va, pa, PageTableEntryFlags::RWX);
                        },
                    }
                    i = i + 1;
                }
                true
            },
        }
    }

    /// Allocates a block of `size` bytes: the cursor moves on (wrapping) by
    /// the whole pages the block needs and the block starts at the old cursor.
    /// When there is a root table, each page of the block is backed by a
    /// newly allocated physical page mapped `RWX`; if an allocation fails the
    /// result is 0, otherwise the start of the block.
    pub fn allocate(
        &mut self,
        pmm: &mut PhysicalMemoryManager,
        root: &mut Option<PageTable>,
        mem: &mut PhysMemory,
        size: u64,
    ) -> (r: u64)
        requires
            size + 4095 <= u64::MAX,
            (*old(root)) is Some ==> back_pages_ok(
                old(root).unwrap()@,
                old(mem)@,
                old(pmm)@,
                old(self).next_va,
                0,
                pages_for(size) as nat,
            ),
        ensures
            final(self).next_va == (old(self).next_va + pages_for(size) * 4096) % 0x1_0000_0000_0000_0000,
            match *old(root) {
                None => {
                    &&& r == old(self).next_va
                    &&& *final(root) == *old(root)
                    &&& final(mem)@ == old(mem)@
                    &&& final(pmm)@ == old(pmm)@
                },
                Some(rt) => {
                    let (r2, m2, p2, done) = back_pages(
                        rt@,
                        old(mem)@,
                        old(pmm)@,
                        old(self).next_va,
                        0,
                        pages_for(size) as nat,
                    );
                    &&& (*final(root)) is Some
                    &&& final(root).unwrap()@ == r2
                    &&& final(mem)@ == m2
                    &&& final(pmm)@ == p2
                    &&& r == if done {
                        old(self).next_va
                    } else {
                        0
                    }
                },
            },
    {
        let pages_needed: u64 = (size + 4095) / 4096;
        let start_va: u64 = self.next_va;
        self.next_va = self.next_va.wrapping_add(pages_needed * 4096);
        if root.is_none() {
            return start_va;
        }
        let ghost nv = self.next_va;
        let ghost root0 = *old(root);
        let mut root_table = root.take().unwrap();
        let ghost n = pages_needed as nat;
        let ghost target = back_pages(root_table@, mem@, pmm@, start_va, 0, n);
        let mut i: u64 = 0;
        while i < pages_needed
            invariant
                i <= pages_needed,
                n == pages_needed,
                *root is None,
                self.next_va == nv,
                nv == (old(self).next_va + pages_for(size) * 4096) % 0x1_0000_0000_0000_0000,
                root0 is Some,
                root0 == *old(root),
                target == back_pages(root0.unwrap()@, old(mem)@, old(pmm)@, start_va, 0, n),
                start_va == old(self).next_va,
                pages_needed == pages_for(size),
                back_pages_ok(root_table@, mem@, pmm@, start_va, i as nat, n),
                back_pages(root_table@, mem@, pmm@, start_va, i as nat, n) == target,
            decreases pages_needed - i,
        {
            let va: u64 = start_va + i * 4096;
            let ghost p0 = pmm@;
            match pmm.alloc_page() {
                Some(pa) => {
                    root_table.map(pmm, mem, va, pa, PageTableEntryFlags::RWX);
                },
                None => {
                    *root = Some(root_table);
                    proof {
                        assert(back_pages(root_table@, mem@, p0, start_va, i as nat, n) == (
                            root_table@,
                            mem@,
                            pmm@,
                            false,
                        ));
                    }
                    return 0;
                },
            }
            i = i + 1;
        }
        *root = Some(root_table);
        start_va
    }
}

} // verus!
