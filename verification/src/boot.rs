//! The kernel's address space at boot: the physical page allocator over the
//! RAM after the kernel image, and a root page table that maps the UART, the
//! kernel image and all of RAM.
use vstd::prelude::*;
use crate::paging::{
    PageTable, PageTableEntryFlags, PhysMemory, map_all, map_all_ok, map_ok, map_result,
    zero_table,
};
use crate::pmm::{PhysicalMemoryManager, PmmView, alloc_result, can_alloc, page_round_up};
use crate::uart::{KERNEL_OFFSET, UART_PADDR};

verus! {

/// The first address of RAM.
pub const RAM_START: u64 = 0x8000_0000;

/// The last page of RAM that is mapped starts here; it is also the limit of
/// the page allocator.
pub const RAM_END: u64 = 0x8800_0000;

/// The physical address behind a kernel address: upper-half addresses lose
/// the kernel offset, others are already physical.
pub open spec fn phys_of(addr: u64) -> u64 {
    if addr >= KERNEL_OFFSET {
        (addr - KERNEL_OFFSET) as u64
    } else {
        addr
    }
}

/// See `phys_of`.
pub fn to_phys(addr: u64) -> (p: u64)
    ensures
        p == phys_of(addr),
{
    if addr >= KERNEL_OFFSET {
        addr - KERNEL_OFFSET
    } else {
        addr
    }
}

/// The number of pages of the kernel image mapped: one per page from
/// `kernel_start` up to and including `bss_end`.
pub open spec fn image_pages(kernel_start: u64, bss_end: u64) -> int {
    if kernel_start <= bss_end {
        (bss_end - kernel_start) / 4096 + 1
    } else {
        0
    }
}

/// The number of pages of RAM mapped, `RAM_START` to `RAM_END` inclusive.
pub open spec fn ram_pages() -> int {
    (RAM_END - RAM_START) / 4096 + 1
}

/// Mapping `k` of the kernel space, as `(virtual, physical)`: the UART at its
/// own address and in the upper half, then the kernel image at its own
/// address, then each page of RAM in the upper half and at its own address.
pub open spec fn kernel_mapping(kernel_start: u64, bss_end: u64, k: int) -> (u64, u64) {
    let n1 = image_pages(kernel_start, bss_end);
    if k == 0 {
        (UART_PADDR, UART_PADDR)
    } else if k == 1 {
        ((UART_PADDR + KERNEL_OFFSET) as u64, UART_PADDR)
    } else if k < 2 + n1 {
        let a = (kernel_start + (k - 2) * 4096) as u64;
        (a, a)
    } else {
        let j = k - 2 - n1;
        let p = (RAM_START + (j / 2) * 4096) as u64;
        if j % 2 == 0 {
            ((p + KERNEL_OFFSET) as u64, p)
        } else {
            (p, p)
        }
    }
}

/// All mappings of the kernel space, in the order they are made.
pub open spec fn kernel_mappings(kernel_start: u64, bss_end: u64) -> Seq<(u64, u64)> {
    Seq::new(
        (2 + image_pages(kernel_start, bss_end) + 2 * ram_pages()) as nat,
        |k: int| kernel_mapping(kernel_start, bss_end, k),
    )
}

/// The allocator at boot, before the root table is taken from it.
pub open spec fn boot_pmm(heap_start: u64) -> PmmView {
    PmmView { next_free_page: page_round_up(heap_start) as u64, free_list: seq![], limit: RAM_END }
}

/// Building the kernel space does not fail in `map`.
pub open spec fn boot_ok(heap_start: u64, kernel_start: u64, bss_end: u64) -> bool {
    can_alloc(boot_pmm(heap_start)) ==> map_all_ok(
        zero_table(),
        Map::empty(),
        alloc_result(boot_pmm(heap_start)).0,
        kernel_mappings(kernel_start, bss_end),
        PageTableEntryFlags::RWX,
    )
}

/// Every mapping of the kernel space sends a virtual address to the physical
/// address `to_phys` gives for it, when the kernel image lies below the upper
/// half.
pub proof fn law_kernel_mappings_agree_with_to_phys(kernel_start: u64, bss_end: u64, k: int)
    requires
        bss_end < KERNEL_OFFSET,
        0 <= k < kernel_mappings(kernel_start, bss_end).len(),
    ensures
        phys_of(kernel_mappings(kernel_start, bss_end)[k].0) == kernel_mappings(
            kernel_start,
            bss_end,
        )[k].1,
{
    let n1 = image_pages(kernel_start, bss_end);
    if 2 <= k < 2 + n1 {
        assert(kernel_start + (k - 2) * 4096 <= bss_end);
    }
}

/// The kernel space maps every page of RAM: for each page-aligned `p` from
/// `RAM_START` to `RAM_END`, the mappings made at boot include `p` to itself
/// and its upper-half alias `p + KERNEL_OFFSET` to `p`, whatever the bounds of
/// the kernel image.
pub proof fn law_kernel_space_maps_every_ram_page(kernel_start: u64, bss_end: u64, p: u64)
    requires
        RAM_START <= p <= RAM_END,
        p % 4096 == 0,
    ensures
        exists|k: int|
            0 <= k < kernel_mappings(kernel_start, bss_end).len() && #[trigger] kernel_mappings(
                kernel_start,
                bss_end,
            )[k] == (p, p),
        exists|k: int|
            0 <= k < kernel_mappings(kernel_start, bss_end).len() && #[trigger] kernel_mappings(
                kernel_start,
                bss_end,
            )[k] == ((p + KERNEL_OFFSET) as u64, p),
{
    let n1 = image_pages(kernel_start, bss_end);
    let j: int = (p - RAM_START) / 4096;
    assert(j * 4096 == p - RAM_START);
    assert(0 <= j <= (RAM_END - RAM_START) / 4096);
    let ku = 2 + n1 + 2 * j;
    let ki = ku + 1;
    assert((2 * j) / 2 == j && (2 * j) % 2 == 0);
    assert((2 * j + 1) / 2 == j && (2 * j + 1) % 2 == 1);
    assert(kernel_mappings(kernel_start, bss_end)[ku] == ((p + KERNEL_OFFSET) as u64, p));
    assert(kernel_mappings(kernel_start, bss_end)[ki] == (p, p));
}

/// The kernel space maps the UART to itself and at its upper-half alias, and
/// every page of the kernel image, `kernel_start + i * 4096` up to `bss_end`,
/// to itself.
pub proof fn law_kernel_space_maps_uart_and_image(kernel_start: u64, bss_end: u64, i: int)
    requires
        0 <= i,
        kernel_start + i * 4096 <= bss_end,
    ensures
        kernel_mappings(kernel_start, bss_end)[0] == (UART_PADDR, UART_PADDR),
        kernel_mappings(kernel_start, bss_end)[1] == ((UART_PADDR + KERNEL_OFFSET) as u64, UART_PADDR),
        exists|k: int|
            0 <= k < kernel_mappings(kernel_start, bss_end).len() && #[trigger] kernel_mappings(
                kernel_start,
                bss_end,
            )[k] == ((kernel_start + i * 4096) as u64, (kernel_start + i * 4096) as u64),
{
    let n1 = image_pages(kernel_start, bss_end);
    assert(i <= (bss_end - kernel_start) / 4096);
    assert(kernel_mappings(kernel_start, bss_end)[2 + i] == (
        (kernel_start + i * 4096) as u64,
        (kernel_start + i * 4096) as u64,
    ));
}

proof fn lemma_map_all_step(
    root: Seq<u64>,
    mem: Map<u64, Seq<u64>>,
    pmm: PmmView,
    pairs: Seq<(u64, u64)>,
    k: int,
    flags: u64,
)
    requires
        0 <= k < pairs.len(),
    ensures
        ({
            let rest = pairs.subrange(k, pairs.len() as int);
            let next = pairs.subrange(k + 1, pairs.len() as int);
            let (r1, m1, p1) = map_result(root, mem, pmm, pairs[k].0, pairs[k].1, flags);
            &&& map_all(root, mem, pmm, rest, flags) == map_all(r1, m1, p1, next, flags)
            &&& map_all_ok(root, mem, pmm, rest, flags) == (map_ok(root, mem, pmm, pairs[k].0)
                && map_all_ok(r1, m1, p1, next, flags))
        }),
{
    let rest = pairs.subrange(k, pairs.len() as int);
    assert(rest.drop_first() =~= pairs.subrange(k + 1, pairs.len() as int));
    assert(rest[0] == pairs[k]);
}

/// Makes mapping `k` of `pairs`, which is `(va, pa)`.
fn map_next(
    root: &mut PageTable,
    pmm: &mut PhysicalMemoryManager,
    mem: &mut PhysMemory,
    va: u64,
    pa: u64,
    Ghost(pairs): Ghost<Seq<(u64, u64)>>,
    Ghost(k): Ghost<int>,
)
    requires
        0 <= k < pairs.len(),
        pairs[k] == (va, pa),
        map_all_ok(
            old(root)@,
            old(mem)@,
            old(pmm)@,
            pairs.subrange(k, pairs.len() as int),
            PageTableEntryFlags::RWX,
        ),
    ensures
        map_all(
            final(root)@,
            final(mem)@,
            final(pmm)@,
            pairs.subrange(k + 1, pairs.len() as int),
            PageTableEntryFlags::RWX,
        ) == map_all(
            old(root)@,
            old(mem)@,
            old(pmm)@,
            pairs.subrange(k, pairs.len() as int),
            PageTableEntryFlags::RWX,
        ),
        map_all_ok(
            final(root)@,
            final(mem)@,
            final(pmm)@,
            pairs.subrange(k + 1, pairs.len() as int),
            PageTableEntryFlags::RWX,
        ),
{
    proof {
        lemma_map_all_step(root@, mem@, pmm@, pairs, k, PageTableEntryFlags::RWX);
    }
    root.map(pmm, mem, va, pa, PageTableEntryFlags::RWX);
}

/// Maps the kernel space into `root` (see `kernel_mappings`), all with `RWX`.
pub fn map_kernel_space(
    root: &mut PageTable,
    pmm: &mut PhysicalMemoryManager,
    mem: &mut PhysMemory,
    kernel_start_phys: u64,
    bss_end_phys: u64,
)
    requires
        kernel_start_phys <= bss_end_phys ==> bss_end_phys + 4096 <= u64::MAX,
        map_all_ok(
            old(root)@,
            old(mem)@,
            old(pmm)@,
            kernel_mappings(kernel_start_phys, bss_end_phys),
            PageTableEntryFlags::RWX,
        ),
    ensures
        (final(root)@, final(mem)@, final(pmm)@) == map_all(
            old(root)@,
            old(mem)@,
            old(pmm)@,
            kernel_mappings(kernel_start_phys, bss_end_phys),
            PageTableEntryFlags::RWX,
        ),
{
    let ghost pairs = kernel_mappings(kernel_start_phys, bss_end_phys);
    let ghost total = pairs.len() as int;
    let ghost target = map_all(root@, mem@, pmm@, pairs, PageTableEntryFlags::RWX);
    let ghost n1 = image_pages(kernel_start_phys, bss_end_phys);
    proof {
        assert(pairs.subrange(0, total) =~= pairs);
    }
    map_next(root, pmm, mem, UART_PADDR, UART_PADDR, Ghost(pairs), Ghost(0));
    map_next(
        root,
        pmm,
        mem,
        UART_PADDR + KERNEL_OFFSET,
        UART_PADDR,
        Ghost(pairs),
        Ghost(1),
    );
    let mut addr: u64 = kernel_start_phys;
    let ghost mut i: int = 0;
    while addr <= bss_end_phys
        invariant
            pairs == kernel_mappings(kernel_start_phys, bss_end_phys),
            total == pairs.len(),
            n1 == image_pages(kernel_start_phys, bss_end_phys),
            kernel_start_phys <= bss_end_phys ==> bss_end_phys + 4096 <= u64::MAX,
            0 <= i <= n1,
            addr == kernel_start_phys + i * 4096,
            (addr <= bss_end_phys) == (i < n1),
            map_all(root@, mem@, pmm@, pairs.subrange(2 + i, total), PageTableEntryFlags::RWX)
                == target,
            map_all_ok(root@, mem@, pmm@, pairs.subrange(2 + i, total), PageTableEntryFlags::RWX),
        decreases n1 - i,
    {
        map_next(root, pmm, mem, addr, addr, Ghost(pairs), Ghost(2 + i));
        addr += 4096;
        proof {
            i = i + 1;
        }
    }
    let mut phys_addr: u64 = RAM_START;
    let ghost mut j: int = 0;
    while phys_addr <= RAM_END
        invariant
            pairs == kernel_mappings(kernel_start_phys, bss_end_phys),
            total == pairs.len(),
            n1 == image_pages(kernel_start_phys, bss_end_phys),
            0 <= j <= ram_pages(),
            phys_addr == RAM_START + j * 4096,
            map_all(
                root@,
                mem@,
                pmm@,
                pairs.subrange(2 + n1 + 2 * j, total),
                PageTableEntryFlags::RWX,
            ) == target,
            map_all_ok(
                root@,
                mem@,
                pmm@,
                pairs.subrange(2 + n1 + 2 * j, total),
                PageTableEntryFlags::RWX,
            ),
        decreases ram_pages() - j,
    {
        map_next(
            root,
            pmm,
            mem,
            phys_addr + KERNEL_OFFSET,
            phys_addr,
            Ghost(pairs),
            Ghost(2 + n1 + 2 * j),
        );
        map_next(root, pmm, mem, phys_addr, phys_addr, Ghost(pairs), Ghost(2 + n1 + 2 * j + 1));
        phys_addr += 4096;
        proof {
            j = j + 1;
        }
    }
    proof {
        assert(pairs.subrange(total, total) =~= Seq::<(u64, u64)>::empty());
    }
}

/// Mapping `k` of the kernel space (see `kernel_mapping`).
fn kernel_mapping_at(kernel_start: u64, bss_end: u64, k: u64) -> (r: (u64, u64))
    requires
        kernel_start <= bss_end ==> bss_end + 4096 <= u64::MAX,
        k < 2 + image_pages(kernel_start, bss_end) + 2 * ram_pages(),
    ensures
        r == kernel_mapping(kernel_start, bss_end, k as int),
{
    let n1: u64 = if kernel_start <= bss_end {
        (bss_end - kernel_start) / 4096 + 1
    } else {
        0
    };
    if k == 0 {
        (UART_PADDR, UART_PADDR)
    } else if k == 1 {
        (UART_PADDR + KERNEL_OFFSET, UART_PADDR)
    } else if k < 2 + n1 {
        let a: u64 = kernel_start + (k - 2) * 4096;
        (a, a)
    } else {
        let j: u64 = k - 2 - n1;
        let p: u64 = RAM_START + (j / 2) * 4096;
        if j % 2 == 0 {
            (p + KERNEL_OFFSET, p)
        } else {
            (p, p)
        }
    }
}

/// Whether `build_kernel_space` can map the whole kernel space without
/// `map` failing (see `boot_ok`).
pub fn kernel_space_ok(heap_start_phys: u64, kernel_start_phys: u64, bss_end_phys: u64) -> (b:
    bool)
    requires
        page_round_up(heap_start_phys) + 4096 <= u64::MAX,
        kernel_start_phys <= bss_end_phys ==> bss_end_phys + 4096 <= u64::MAX,
    ensures
        b == boot_ok(heap_start_phys, kernel_start_phys, bss_end_phys),
{
    let mut pmm = PhysicalMemoryManager::new(heap_start_phys, RAM_END);
    if !pmm.can_alloc() {
        return true;
    }
    let _ = pmm.alloc_page();
    let mut root = PageTable::new();
    let mut mem = PhysMemory::new();
    let n1: u64 = if kernel_start_phys <= bss_end_phys {
        (bss_end_phys - kernel_start_phys) / 4096 + 1
    } else {
        0
    };
    let total: u64 = 2 + n1 + 2 * ((RAM_END - RAM_START) / 4096 + 1);
    let ghost pairs = kernel_mappings(kernel_start_phys, bss_end_phys);
    let ghost target = boot_ok(heap_start_phys, kernel_start_phys, bss_end_phys);
    proof {
        assert(pairs.subrange(0, total as int) =~= pairs);
    }
    let mut k: u64 = 0;
    while k < total
        invariant
            k <= total,
            total == pairs.len(),
            pairs == kernel_mappings(kernel_start_phys, bss_end_phys),
            target == boot_ok(heap_start_phys, kernel_start_phys, bss_end_phys),
            kernel_start_phys <= bss_end_phys ==> bss_end_phys + 4096 <= u64::MAX,
            map_all_ok(
                root@,
                mem@,
                pmm@,
                pairs.subrange(k as int, total as int),
                PageTableEntryFlags::RWX,
            ) == target,
        decreases total - k,
    {
        let (va, pa) = kernel_mapping_at(kernel_start_phys, bss_end_phys, k);
        proof {
            assert(pairs[k as int] == (va, pa));
            lemma_map_all_step(root@, mem@, pmm@, pairs, k as int, PageTableEntryFlags::RWX);
        }
        if !root.map_check(&pmm, &mem, va) {
            return false;
        }
        root.map(&mut pmm, &mut mem, va, pa, PageTableEntryFlags::RWX);
        k = k + 1;
    }
    proof {
        assert(pairs.subrange(total as int, total as int) =~= Seq::<(u64, u64)>::empty());
    }
    true
}

/// The allocator, the root table (and the address of its page) and the page
/// tables in memory once the kernel space is built.
pub struct KernelSpace {
    pub pmm: PhysicalMemoryManager,
    pub root_addr: u64,
    pub root: PageTable,
    pub mem: PhysMemory,
}

/// Builds the kernel space: an allocator over `heap_start_phys..RAM_END`, a
/// zeroed root table in the first page it hands out, and the mappings of
/// `map_kernel_space`. `None` when no page is left for the root table.
pub fn build_kernel_space(heap_start_phys: u64, kernel_start_phys: u64, bss_end_phys: u64) -> (r:
    Option<KernelSpace>)
    requires
        page_round_up(heap_start_phys) + 4096 <= u64::MAX,
        kernel_start_phys <= bss_end_phys ==> bss_end_phys + 4096 <= u64::MAX,
        boot_ok(heap_start_phys, kernel_start_phys, bss_end_phys),
    ensures
        r is None <==> !can_alloc(boot_pmm(heap_start_phys)),
        r matches Some(ks) ==> {
            &&& ks.root_addr == page_round_up(heap_start_phys)
            &&& (ks.root@, ks.mem@, ks.pmm@) == map_all(
                zero_table(),
                Map::empty(),
                alloc_result(boot_pmm(heap_start_phys)).0,
                kernel_mappings(kernel_start_phys, bss_end_phys),
                PageTableEntryFlags::RWX,
            )
        },
{
    let mut pmm = PhysicalMemoryManager::new(heap_start_phys, RAM_END);
    let root_addr = match pmm.alloc_page() {
        Some(a) => a,
        None => {
            return None;
        },
    };
    let mut root = PageTable::new();
    let mut mem = PhysMemory::new();
    map_kernel_space(&mut root, &mut pmm, &mut mem, kernel_start_phys, bss_end_phys);
    Some(KernelSpace { pmm, root_addr, root, mem })
}

} // verus!
