//! Sv39 page-table entries and three-level page tables.
//!
//! A page table other than the root lives in a physical page. `PhysMemory`
//! holds the page tables that physical memory contains, by the address of
//! their page; a page that holds no table reads as a table of zero entries.
use vstd::prelude::*;
use std::collections::HashMap;
use crate::pmm::{PhysicalMemoryManager, PmmView, alloc_result, PAGE_SIZE};

verus! {

/// The flag bits of a page-table entry.
#[derive(Clone, Copy)]
pub struct PageTableEntryFlags;

impl PageTableEntryFlags {
    /// Bit 0.
    pub const VALID: u64 = 0x1;
    /// Bit 1.
    pub const READ: u64 = 0x2;
    /// Bit 2.
    pub const WRITE: u64 = 0x4;
    /// Bit 3.
    pub const EXECUTE: u64 = 0x8;
    /// Bit 4.
    pub const USER: u64 = 0x10;
    /// Bit 6.
    pub const ACCESS: u64 = 0x40;
    /// Bit 7.
    pub const DIRTY: u64 = 0x80;
    pub const RWX: u64 = Self::READ | Self::WRITE | Self::EXECUTE | Self::VALID | Self::ACCESS
        | Self::DIRTY;
}

/// Bit 0 of the entry.
pub open spec fn pte_valid(e: u64) -> bool {
    e % 2 == 1
}

/// Bit 1 of the entry.
pub open spec fn pte_readable(e: u64) -> bool {
    (e / 2) % 2 == 1
}

/// Bit 2 of the entry.
pub open spec fn pte_writeable(e: u64) -> bool {
    (e / 4) % 2 == 1
}

/// Bit 3 of the entry.
pub open spec fn pte_executable(e: u64) -> bool {
    (e / 8) % 2 == 1
}

/// An entry with any of the read, write and execute bits maps a page; one
/// with none of them points to a page table of the next level.
pub open spec fn pte_leaf(e: u64) -> bool {
    pte_readable(e) || pte_writeable(e) || pte_executable(e)
}

/// The physical address an entry holds: its 44-bit page number (bits 10 to
/// 53) times the page size.
pub open spec fn pte_address(e: u64) -> u64 {
    (((e / 1024) % 0x1000_0000_0000) * 4096) as u64
}

/// The entry that points to a page table at `addr`: the page number of
/// `addr` in bits 10 and above, and the valid bit.
pub open spec fn table_pte(addr: u64) -> u64 {
    ((addr / 4096) * 1024 + 1) as u64
}

/// The entry that maps a page at `pa` with `flags`: the page number of `pa`
/// in bits 10 and above, or-ed with `flags` and the valid bit.
pub open spec fn leaf_pte(pa: u64, flags: u64) -> u64 {
    (((pa / 4096) * 1024) as u64) | flags | 1u64
}

/// The index into the root table (bits 30 to 38 of the virtual address).
pub open spec fn vpn2(va: u64) -> int {
    ((va / 0x4000_0000) % 512) as int
}

/// The index into the second-level table (bits 21 to 29).
pub open spec fn vpn1(va: u64) -> int {
    ((va / 0x20_0000) % 512) as int
}

/// The index into the last-level table (bits 12 to 20).
pub open spec fn vpn0(va: u64) -> int {
    ((va / 0x1000) % 512) as int
}

/// A table with every entry zero.
pub open spec fn zero_table() -> Seq<u64> {
    Seq::new(512, |i: int| 0u64)
}

/// The table in the page at `addr`.
pub open spec fn table_at(mem: Map<u64, Seq<u64>>, addr: u64) -> Seq<u64> {
    if mem.contains_key(addr) {
        mem[addr]
    } else {
        zero_table()
    }
}

/// What `PageTable::next_table_create` does to a root table `root` at `index`:
/// the new root, memory, allocator, and the address of the next-level table
/// (`None` when a table was needed and no page could be allocated).
/// A valid entry is followed as it is, whatever its other bits; an invalid
/// one gets a freshly allocated, zeroed table.
pub open spec fn root_step(root: Seq<u64>, mem: Map<u64, Seq<u64>>, pmm: PmmView, index: int) -> (
    Seq<u64>,
    Map<u64, Seq<u64>>,
    PmmView,
    Option<u64>,
) {
    let e = root[index];
    if pte_valid(e) {
        (root, mem, pmm, Some(pte_address(e)))
    } else {
        let (p1, a) = alloc_result(pmm);
        match a {
            None => (root, mem, p1, None),
            Some(a) => (root.update(index, table_pte(a)), mem.insert(a, zero_table()), p1, Some(a)),
        }
    }
}

/// The same step for the table in the page at `table`: the new table is
/// zeroed in memory first, and the entry is then written into the table at
/// `table` as memory then holds it.
pub open spec fn memory_step(mem: Map<u64, Seq<u64>>, pmm: PmmView, table: u64, index: int) -> (
    Map<u64, Seq<u64>>,
    PmmView,
    Option<u64>,
) {
    let e = table_at(mem, table)[index];
    if pte_valid(e) {
        (mem, pmm, Some(pte_address(e)))
    } else {
        let (p1, a) = alloc_result(pmm);
        match a {
            None => (mem, p1, None),
            Some(a) => {
                let m1 = mem.insert(a, zero_table());
                (m1.insert(table, table_at(m1, table).update(index, table_pte(a))), p1, Some(a))
            },
        }
    }
}

/// Every allocation that the step needs cannot overflow.
pub open spec fn step_alloc_ok(e: u64, pmm: PmmView) -> bool {
    !pte_valid(e) ==> pmm.next_free_page + PAGE_SIZE <= u64::MAX
}

/// `map` finds or creates both intermediate tables (otherwise it fails).
pub open spec fn map_ok(root: Seq<u64>, mem: Map<u64, Seq<u64>>, pmm: PmmView, va: u64) -> bool {
    let (r1, m1, p1, a1) = root_step(root, mem, pmm, vpn2(va));
    &&& a1 is Some
    &&& memory_step(m1, p1, a1.unwrap(), vpn1(va)).2 is Some
}

/// Root, memory and allocator after `map(va, pa, flags)`.
pub open spec fn map_result(
    root: Seq<u64>,
    mem: Map<u64, Seq<u64>>,
    pmm: PmmView,
    va: u64,
    pa: u64,
    flags: u64,
) -> (Seq<u64>, Map<u64, Seq<u64>>, PmmView) {
    let (r1, m1, p1, a1) = root_step(root, mem, pmm, vpn2(va));
    let (m2, p2, a0) = memory_step(m1, p1, a1.unwrap(), vpn1(va));
    let t0 = a0.unwrap();
    (r1, m2.insert(t0, table_at(m2, t0).update(vpn0(va), leaf_pte(pa, flags))), p2)
}

/// Root, memory and allocator after `map(va, pa, flags)` for each pair
/// `(va, pa)` of `pairs` in order.
pub open spec fn map_all(
    root: Seq<u64>,
    mem: Map<u64, Seq<u64>>,
    pmm: PmmView,
    pairs: Seq<(u64, u64)>,
    flags: u64,
) -> (Seq<u64>, Map<u64, Seq<u64>>, PmmView)
    decreases pairs.len(),
{
    if pairs.len() == 0 {
        (root, mem, pmm)
    } else {
        let (r1, m1, p1) = map_result(root, mem, pmm, pairs[0].0, pairs[0].1, flags);
        map_all(r1, m1, p1, pairs.drop_first(), flags)
    }
}

/// None of the `map` calls of `map_all` fails.
pub open spec fn map_all_ok(
    root: Seq<u64>,
    mem: Map<u64, Seq<u64>>,
    pmm: PmmView,
    pairs: Seq<(u64, u64)>,
    flags: u64,
) -> bool
    decreases pairs.len(),
{
    pairs.len() > 0 ==> {
        &&& map_ok(root, mem, pmm, pairs[0].0)
        &&& {
            let (r1, m1, p1) = map_result(root, mem, pmm, pairs[0].0, pairs[0].1, flags);
            map_all_ok(r1, m1, p1, pairs.drop_first(), flags)
        }
    }
}

/// The second- and last-level table addresses that `map(va, ..)` writes through.
pub open spec fn map_tables(root: Seq<u64>, mem: Map<u64, Seq<u64>>, pmm: PmmView, va: u64) -> (
    u64,
    u64,
) {
    let (r1, m1, p1, a1) = root_step(root, mem, pmm, vpn2(va));
    let (m2, p2, a0) = memory_step(m1, p1, a1.unwrap(), vpn1(va));
    (a1.unwrap(), a0.unwrap())
}

/// The last-level entry reached for `va` by following valid entries the way
/// `map` does: root entry, then the table it points to, then the table the
/// second-level entry points to.
pub open spec fn mapped_entry(root: Seq<u64>, mem: Map<u64, Seq<u64>>, va: u64) -> Option<u64> {
    let e2 = root[vpn2(va)];
    if !pte_valid(e2) {
        None
    } else {
        let e1 = table_at(mem, pte_address(e2))[vpn1(va)];
        if !pte_valid(e1) {
            None
        } else {
            Some(table_at(mem, pte_address(e1))[vpn0(va)])
        }
    }
}

/// What `walk(va)` returns. It reads the root entry and, when that points to
/// a table, the second-level entry in that table; when the second-level entry
/// points to a table too, the last-level entry is read from the same
/// second-level table (at index `vpn0`), not from the table it points to.
/// The first valid entry with a read, write or execute bit gives its address
/// plus the page offset of `va`.
pub open spec fn walk_result(root: Seq<u64>, mem: Map<u64, Seq<u64>>, va: u64) -> Option<u64> {
    let off = va % 4096;
    let e2 = root[vpn2(va)];
    if !pte_valid(e2) {
        None
    } else if pte_leaf(e2) {
        Some((pte_address(e2) + off) as u64)
    } else {
        let t = table_at(mem, pte_address(e2));
        let e1 = t[vpn1(va)];
        if !pte_valid(e1) {
            None
        } else if pte_leaf(e1) {
            Some((pte_address(e1) + off) as u64)
        } else {
            let e0 = t[vpn0(va)];
            if !pte_valid(e0) {
                None
            } else if pte_leaf(e0) {
                Some((pte_address(e0) + off) as u64)
            } else {
                None
            }
        }
    }
}

proof fn lemma_pte_address_plus_offset(e: u64, va: u64)
    ensures
        pte_address(e) % 4096 == 0,
        pte_address(e) + va % 4096 <= u64::MAX,
        ((pte_address(e) + va % 4096) as u64) % 4096 == va % 4096,
        ((pte_address(e) + va % 4096) as u64) - va % 4096 == pte_address(e),
{
    let x: int = ((e / 1024) % 0x1000_0000_0000) as int;
    assert(0 <= x < 0x1000_0000_0000);
    assert(x * 4096 < 0x100_0000_0000_0000) by (nonlinear_arith)
        requires
            0 <= x < 0x1000_0000_0000,
    ;
    assert(pte_address(e) == x * 4096);
    assert((x * 4096) % 4096 == 0) by (nonlinear_arith);
    let off: int = (va % 4096) as int;
    assert((x * 4096 + off) % 4096 == off) by (nonlinear_arith)
        requires
            0 <= off < 4096,
    ;
}

/// Whenever `walk(va)` gives an address, it keeps the page offset of `va`
/// (its low 12 bits) unchanged, and the rest of it is the address held by a
/// valid leaf entry on the way: the root entry for `va`, or the entry at
/// index `vpn1` or `vpn0` of the second-level table that entry points to.
pub proof fn law_walk_keeps_page_offset(root: Seq<u64>, mem: Map<u64, Seq<u64>>, va: u64)
    ensures
        walk_result(root, mem, va) matches Some(a) ==> {
            let e2 = root[vpn2(va)];
            let t = table_at(mem, pte_address(e2));
            &&& a % 4096 == va % 4096
            &&& exists|e: u64|
                #![trigger pte_address(e)]
                pte_valid(e) && pte_leaf(e) && a - a % 4096 == pte_address(e) && (e == e2 || e
                    == t[vpn1(va)] || e == t[vpn0(va)])
        },
        !pte_valid(root[vpn2(va)]) ==> walk_result(root, mem, va) is None,
        pte_valid(root[vpn2(va)]) && pte_leaf(root[vpn2(va)]) ==> walk_result(root, mem, va)
            == Some((pte_address(root[vpn2(va)]) + va % 4096) as u64),
        ({
            let e2 = root[vpn2(va)];
            let e1 = table_at(mem, pte_address(e2))[vpn1(va)];
            pte_valid(e2) && !pte_leaf(e2) && pte_valid(e1) && pte_leaf(e1) ==> walk_result(
                root,
                mem,
                va,
            ) == Some((pte_address(e1) + va % 4096) as u64)
        }),
        ({
            let e2 = root[vpn2(va)];
            let e1 = table_at(mem, pte_address(e2))[vpn1(va)];
            pte_valid(e2) && !pte_leaf(e2) && !pte_valid(e1) ==> walk_result(root, mem, va) is None
        }),
{
    let e2 = root[vpn2(va)];
    let t = table_at(mem, pte_address(e2));
    lemma_pte_address_plus_offset(e2, va);
    lemma_pte_address_plus_offset(t[vpn1(va)], va);
    lemma_pte_address_plus_offset(t[vpn0(va)], va);
}

/// `map(va, ..)` changes no root entry but the one for `va`, and that one only
/// when it was invalid (it then points to a new table).
pub proof fn law_map_keeps_other_root_entries(
    root: Seq<u64>,
    mem: Map<u64, Seq<u64>>,
    pmm: PmmView,
    va: u64,
    pa: u64,
    flags: u64,
)
    requires
        root.len() == 512,
        map_ok(root, mem, pmm, va),
    ensures
        ({
            let (r2, m2, p2) = map_result(root, mem, pmm, va, pa, flags);
            &&& r2.len() == 512
            &&& forall|i: int| 0 <= i < 512 && i != vpn2(va) ==> r2[i] == root[i]
            &&& pte_valid(root[vpn2(va)]) ==> r2[vpn2(va)] == root[vpn2(va)]
        }),
{
    lemma_va_bits(va);
}

/// Every table in memory has 512 entries.
pub open spec fn tables_wf(mem: Map<u64, Seq<u64>>) -> bool {
    forall|a: u64| #[trigger] mem.contains_key(a) ==> mem[a].len() == 512
}

/// After `map(va, pa, flags)`, following the path from the root for `va` the
/// way `map` does reaches an entry that holds `pa` with `flags`; provided the
/// tables `map` writes through are page-aligned pages below 2^56 (so that an
/// entry can point to them) and, when the second- and last-level tables are
/// the same page, `va` uses different indices at those two levels.
pub proof fn law_map_then_lookup(
    root: Seq<u64>,
    mem: Map<u64, Seq<u64>>,
    pmm: PmmView,
    va: u64,
    pa: u64,
    flags: u64,
)
    requires
        root.len() == 512,
        tables_wf(mem),
        map_ok(root, mem, pmm, va),
        ({
            let (t1, t0) = map_tables(root, mem, pmm, va);
            &&& t1 % 4096 == 0
            &&& t1 < 0x100_0000_0000_0000
            &&& t0 % 4096 == 0
            &&& t0 < 0x100_0000_0000_0000
            &&& (t1 != t0 || vpn1(va) != vpn0(va))
        }),
    ensures
        ({
            let (r2, m2, p2) = map_result(root, mem, pmm, va, pa, flags);
            mapped_entry(r2, m2, va) == Some(leaf_pte(pa, flags))
        }),
{
    lemma_va_bits(va);
    let (r1, m1, p1, a1) = root_step(root, mem, pmm, vpn2(va));
    let t1 = a1.unwrap();
    let (m2, p2, a0) = memory_step(m1, p1, t1, vpn1(va));
    let t0 = a0.unwrap();
    lemma_table_pte(t1);
    lemma_table_pte(t0);
    lemma_bits(root[vpn2(va)]);
    assert(pte_valid(r1[vpn2(va)]) && pte_address(r1[vpn2(va)]) == t1);
    let e1 = table_at(m1, t1)[vpn1(va)];
    lemma_bits(e1);
    assert(table_at(m2, t1).len() == 512);
    assert(pte_valid(table_at(m2, t1)[vpn1(va)]) && pte_address(table_at(m2, t1)[vpn1(va)]) == t0);
    let m3 = m2.insert(t0, table_at(m2, t0).update(vpn0(va), leaf_pte(pa, flags)));
    assert(table_at(m3, t0)[vpn0(va)] == leaf_pte(pa, flags));
    assert(table_at(m3, t1)[vpn1(va)] == table_at(m2, t1)[vpn1(va)]);
}

/// A page-table entry.
#[derive(Clone, Copy)]
pub struct PageTableEntry {
    pub entry: u64,
}

/// A page table: 512 entries.
#[derive(Clone, Copy)]
pub struct PageTable {
    pub entries: [PageTableEntry; 512],
}

impl View for PageTable {
    type V = Seq<u64>;

    open spec fn view(&self) -> Seq<u64> {
        self.entries@.map_values(|e: PageTableEntry| e.entry)
    }
}

/// The page tables held in physical memory, by the address of their page.
pub struct PhysMemory {
    pub frames: HashMap<u64, PageTable>,
}

impl View for PhysMemory {
    type V = Map<u64, Seq<u64>>;

    open spec fn view(&self) -> Map<u64, Seq<u64>> {
        self.frames@.map_values(|t: PageTable| t@)
    }
}

impl Clone for PhysMemory {
    fn clone(&self) -> (m: Self)
        ensures
            m@ == self@,
    {
        PhysMemory { frames: self.frames.clone() }
    }
}

impl PhysMemory {
    /// Memory that holds no page table.
    pub fn new() -> (m: Self)
        ensures
            m@ == Map::<u64, Seq<u64>>::empty(),
    {
        let m = PhysMemory { frames: HashMap::new() };
        proof {
            assert(m@ =~= Map::<u64, Seq<u64>>::empty());
        }
        m
    }

    /// The table in the page at `addr`.
    pub fn read_table(&self, addr: u64) -> (t: PageTable)
        ensures
            t@ == table_at(self@, addr),
    {
        match self.frames.get(&addr) {
            Some(t) => *t,
            None => PageTable::new(),
        }
    }

    /// Stores `t` in the page at `addr`.
    pub fn write_table(&mut self, addr: u64, t: PageTable)
        ensures
            final(self)@ == old(self)@.insert(addr, t@),
    {
        self.frames.insert(addr, t);
        proof {
            assert(final(self)@ =~= old(self)@.insert(addr, t@));
        }
    }

    /// The step of `PageTable::next_table_create` for the table in the page at
    /// `table` (see `memory_step`).
    fn next_table_create_at(
        &mut self,
        table: u64,
        index: usize,
        allocator: &mut PhysicalMemoryManager,
    ) -> (r: Option<u64>)
        requires
            index < 512,
            step_alloc_ok(table_at(old(self)@, table)[index as int], old(allocator)@),
        ensures
            (final(self)@, final(allocator)@, r) == memory_step(
                old(self)@,
                old(allocator)@,
                table,
                index as int,
            ),
    {
        let t = self.read_table(table);
        let entry: PageTableEntry = t.entries[index];
        if entry.is_valid() {
            Some(entry.physical_address())
        } else {
            let new_page_addr: u64 = allocator.alloc_page()?;
            self.write_table(new_page_addr, PageTable::new());
            let mut t1 = self.read_table(table);
            proof {
                lemma_table_pte(new_page_addr);
            }
            let pfn: u64 = (new_page_addr >> 12) << 10;
            t1.entries[index] = PageTableEntry { entry: pfn | PageTableEntryFlags::VALID };
            proof {
                assert(t1@ =~= table_at(self@, table).update(index as int, table_pte(new_page_addr)));
            }
            self.write_table(table, t1);
            Some(new_page_addr)
        }
    }
}

proof fn lemma_bits(e: u64)
    ensures
        (e & 1u64 != 0) == pte_valid(e),
        (e & 2u64 != 0) == pte_readable(e),
        (e & 4u64 != 0) == pte_writeable(e),
        (e & 8u64 != 0) == pte_executable(e),
        ((e >> 10u64) & 0xFFF_FFFF_FFFFu64) << 12u64 == pte_address(e),
        (((e >> 10u64) & 0xFFF_FFFF_FFFFu64) << 12u64) % 4096 == 0,
{
    assert((e & 1u64 != 0) == (e % 2 == 1)) by (bit_vector);
    assert((e & 2u64 != 0) == ((e / 2) % 2 == 1)) by (bit_vector);
    assert((e & 4u64 != 0) == ((e / 4) % 2 == 1)) by (bit_vector);
    assert((e & 8u64 != 0) == ((e / 8) % 2 == 1)) by (bit_vector);
    assert(((e >> 10u64) & 0xFFF_FFFF_FFFFu64) << 12u64 == (((e / 1024) % 0x1000_0000_0000)
        * 4096) as u64) by (bit_vector);
    assert((((e >> 10u64) & 0xFFF_FFFF_FFFFu64) << 12u64) % 4096 == 0) by (bit_vector);
}

proof fn lemma_va_bits(va: u64)
    ensures
        ((va >> 30u64) & 0x1FFu64) == vpn2(va),
        ((va >> 21u64) & 0x1FFu64) == vpn1(va),
        ((va >> 12u64) & 0x1FFu64) == vpn0(va),
        (va & 0xFFFu64) == va % 4096,
        0 <= vpn2(va) < 512,
        0 <= vpn1(va) < 512,
        0 <= vpn0(va) < 512,
{
    assert(((va >> 30u64) & 0x1FFu64) == (va / 0x4000_0000) % 512) by (bit_vector);
    assert(((va >> 21u64) & 0x1FFu64) == (va / 0x20_0000) % 512) by (bit_vector);
    assert(((va >> 12u64) & 0x1FFu64) == (va / 0x1000) % 512) by (bit_vector);
    assert((va & 0xFFFu64) == va % 4096) by (bit_vector);
}

proof fn lemma_page_or_offset(page: u64, off: u64)
    requires
        page % 4096 == 0,
        off < 4096,
    ensures
        page | off == page + off,
{
    assert(page % 4096 == 0 && off < 4096 ==> page | off == page + off) by (bit_vector);
}

proof fn lemma_table_pte(a: u64)
    ensures
        ((a >> 12u64) << 10u64) | 1u64 == table_pte(a),
        pte_valid(table_pte(a)),
        !pte_leaf(table_pte(a)),
        a < 0x100_0000_0000_0000 ==> pte_address(table_pte(a)) == a - a % 4096,
{
    assert(((a >> 12u64) << 10u64) | 1u64 == ((a / 4096) * 1024 + 1) as u64) by (bit_vector);
    let t = table_pte(a);
    assert(t % 2 == 1 && (t / 2) % 2 == 0 && (t / 4) % 2 == 0 && (t / 8) % 2 == 0) by (bit_vector)
        requires
            t == ((a / 4096) * 1024 + 1) as u64,
    ;
    assert(a < 0x100_0000_0000_0000 ==> (((t / 1024) % 0x1000_0000_0000) * 4096) as u64 == a - a
        % 4096) by (bit_vector)
        requires
            t == ((a / 4096) * 1024 + 1) as u64,
    ;
}

proof fn lemma_leaf_pte(pa: u64, flags: u64)
    ensures
        ((pa >> 12u64) << 10u64) | flags | 1u64 == leaf_pte(pa, flags),
        pte_valid(leaf_pte(pa, flags)),
        flags < 1024 && pa < 0x100_0000_0000_0000 ==> pte_address(leaf_pte(pa, flags)) == pa - pa
            % 4096,
{
    assert(((pa >> 12u64) << 10u64) == ((pa / 4096) * 1024) as u64) by (bit_vector);
    let l = leaf_pte(pa, flags);
    assert(l % 2 == 1) by (bit_vector)
        requires
            l == (((pa / 4096) * 1024) as u64) | flags | 1u64,
    ;
    assert(flags < 1024 && pa < 0x100_0000_0000_0000 ==> (((l / 1024) % 0x1000_0000_0000) * 4096)
        as u64 == pa - pa % 4096) by (bit_vector)
        requires
            l == (((pa / 4096) * 1024) as u64) | flags | 1u64,
    ;
}

impl PageTableEntry {
    pub fn new(entry: u64) -> (e: Self)
        ensures
            e.entry == entry,
    {
        Self { entry }
    }

    /// Whether the valid bit is set.
    pub fn is_valid(&self) -> (b: bool)
        ensures
            b == pte_valid(self.entry),
    {
        proof {
            lemma_bits(self.entry);
        }
        (self.entry & PageTableEntryFlags::VALID) != 0
    }

    /// Whether the read bit is set.
    pub fn is_readable(&self) -> (b: bool)
        ensures
            b == pte_readable(self.entry),
    {
        proof {
            lemma_bits(self.entry);
        }
        (self.entry & PageTableEntryFlags::READ) != 0
    }

    /// Whether the write bit is set.
    pub fn is_writeable(&self) -> (b: bool)
        ensures
            b == pte_writeable(self.entry),
    {
        proof {
            lemma_bits(self.entry);
        }
        (self.entry & PageTableEntryFlags::WRITE) != 0
    }

    /// Whether the execute bit is set.
    pub fn is_executable(&self) -> (b: bool)
        ensures
            b == pte_executable(self.entry),
    {
        proof {
            lemma_bits(self.entry);
        }
        (self.entry & PageTableEntryFlags::EXECUTE) != 0
    }

    /// The physical address the entry holds.
    pub fn physical_address(&self) -> (a: u64)
        ensures
            a == pte_address(self.entry),
            a % 4096 == 0,
    {
        proof {
            lemma_bits(self.entry);
        }
        assert(1u64 << 44u64 == 0x1000_0000_0000u64) by (bit_vector);
        let mask: u64 = (1u64 << 44u64) - 1;
        let ppn: u64 = (self.entry >> 10) & mask;
        ppn << 12
    }
}

impl PageTable {
    /// A table with every entry zero.
    pub fn new() -> (t: Self)
        ensures
            t@ == zero_table(),
    {
        let t = Self { entries: [PageTableEntry { entry: 0 }; 512] };
        proof {
            assert(t@ =~= zero_table());
        }
        t
    }
    /// The next-level table for entry `index`: the address a valid entry holds;
    /// for an invalid entry, a page from `allocator`, zeroed in memory and
    /// entered at `index` as a table pointer; `None` when no page can be had.
    pub fn next_table_create(
        &mut self,
        index: usize,
        allocator: &mut PhysicalMemoryManager,
        mem: &mut PhysMemory,
    ) -> (r: Option<u64>)
        requires
            index < 512,
            step_alloc_ok(old(self)@[index as int], old(allocator)@),
        ensures
            (final(self)@, final(mem)@, final(allocator)@, r) == root_step(
                old(self)@,
                old(mem)@,
                old(allocator)@,
                index as int,
            ),
    {
        let entry: PageTableEntry = self.entries[index];
        if entry.is_valid() {
            Some(entry.physical_address())
        } else {
            let new_page_addr: u64 = allocator.alloc_page()?;
            mem.write_table(new_page_addr, PageTable::new());
            proof {
                lemma_table_pte(new_page_addr);
            }
            let pfn: u64 = (new_page_addr >> 12) << 10;
            let ghost before = self@;
            self.entries[index] = PageTableEntry { entry: pfn | PageTableEntryFlags::VALID };
            proof {
                assert(self@ =~= before.update(index as int, table_pte(new_page_addr)));
            }
            Some(new_page_addr)
        }
    }

    /// Whether `map` for `va` finds or creates both tables (see `map_ok`);
    /// nothing is changed.
    pub fn map_check(&self, allocator: &PhysicalMemoryManager, mem: &PhysMemory, va: u64) -> (b:
        bool)
        ensures
            b == map_ok(self@, mem@, allocator@, va),
    {
        proof {
            lemma_va_bits(va);
        }
        let vpn2: usize = ((va >> 30) & 0x1FF) as usize;
        let vpn1: usize = ((va >> 21) & 0x1FF) as usize;
        let e2: PageTableEntry = self.entries[vpn2];
        if e2.is_valid() {
            let t1 = mem.read_table(e2.physical_address());
            let e1: PageTableEntry = t1.entries[vpn1];
            e1.is_valid() || allocator.can_alloc()
        } else {
            if !allocator.can_alloc() {
                return false;
            }
            let mut p = allocator.clone();
            let a = p.alloc_page();
            proof {
                let m1 = mem@.insert(a.unwrap(), zero_table());
                assert(table_at(m1, a.unwrap())[vpn1 as int] == 0);
                assert(!pte_valid(0));
            }
            p.can_alloc()
        }
    }

    /// Maps the page of `va` to the page of `pa` with `flags`: finds or creates
    /// the second-level table through the root entry and the last-level table
    /// through the second-level entry, then writes `(pa >> 12) << 10 | flags | VALID`
    /// into the last-level entry. The caller provides enough free pages for the
    /// tables that have to be created.
    pub fn map(
        &mut self,
        allocator: &mut PhysicalMemoryManager,
        mem: &mut PhysMemory,
        va: u64,
        pa: u64,
        flags: u64,
    )
        requires
            map_ok(old(self)@, old(mem)@, old(allocator)@, va),
        ensures
            (final(self)@, final(mem)@, final(allocator)@) == map_result(
                old(self)@,
                old(mem)@,
                old(allocator)@,
                va,
                pa,
                flags,
            ),
    {
        proof {
            lemma_va_bits(va);
        }
        let vpn2: usize = ((va >> 30) & 0x1FF) as usize;
        let vpn1: usize = ((va >> 21) & 0x1FF) as usize;
        let vpn0: usize = ((va >> 12) & 0x1FF) as usize;
        let table1: u64 = self.next_table_create(vpn2, allocator, mem).expect(
            "Failed to allocate Level 1 Table",
        );
        let table0: u64 = mem.next_table_create_at(table1, vpn1, allocator).expect(
            "Failed to allocate Level 0 Table",
        );
        let mut t0 = mem.read_table(table0);
        proof {
            lemma_leaf_pte(pa, flags);
        }
        let ppn: u64 = (pa >> 12) << 10;
        let ghost before = t0@;
        t0.entries[vpn0] = PageTableEntry { entry: ppn | flags | PageTableEntryFlags::VALID };
        proof {
            assert(t0@ =~= before.update(vpn0 as int, leaf_pte(pa, flags)));
        }
        mem.write_table(table0, t0);
    }

    /// Translates `va` (see `walk_result`).
    pub fn walk(&mut self, mem: &PhysMemory, va: u64) -> (r: Option<u64>)
        ensures
            *final(self) == *old(self),
            r == walk_result(old(self)@, mem@, va),
    {
        proof {
            lemma_va_bits(va);
        }
        let vpn2: usize = ((va >> 30) & 0x1FF) as usize;
        let vpn1: usize = ((va >> 21) & 0x1FF) as usize;
        let vpn0: usize = ((va >> 12) & 0x1FF) as usize;
        let offset: u64 = va & 0xFFF;
        let l2_entry: PageTableEntry = self.entries[vpn2];
        let mut ppn: u64 = PageTableEntry::physical_address(&l2_entry);
        if !PageTableEntry::is_valid(&l2_entry) {
            return None;
        }
        if PageTableEntry::is_readable(&l2_entry) || PageTableEntry::is_writeable(&l2_entry)
            || PageTableEntry::is_executable(&l2_entry) {
            proof {
                lemma_page_or_offset(ppn, offset);
            }
            return Some(ppn | offset);
        } else {
            let l1_table: PageTable = mem.read_table(ppn);
            let l1_entry: PageTableEntry = l1_table.entries[vpn1];
            if !PageTableEntry::is_valid(&l1_entry) {
                return None;
            }
            if PageTableEntry::is_readable(&l1_entry) || PageTableEntry::is_writeable(&l1_entry)
                || PageTableEntry::is_executable(&l1_entry) {
                ppn = PageTableEntry::physical_address(&l1_entry);
                proof {
                    lemma_page_or_offset(ppn, offset);
                }
                return Some(ppn | offset);
            } else {
                let l0_table: PageTable = mem.read_table(ppn);
                let l0_entry: PageTableEntry = l0_table.entries[vpn0];
                if !PageTableEntry::is_valid(&l0_entry) {
                    return None;
                }
                if PageTableEntry::is_readable(&l0_entry) || PageTableEntry::is_writeable(&l0_entry)
                    || PageTableEntry::is_executable(&l0_entry) {
                    ppn = PageTableEntry::physical_address(&l0_entry);
                    proof {
                        lemma_page_or_offset(ppn, offset);
                    }
                    return Some(ppn | offset);
                }
            }
        }
        None
    }
}

} // verus!
