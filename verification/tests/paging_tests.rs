use rvkernel::paging::{PageTable, PageTableEntry, PageTableEntryFlags, PhysMemory};
use rvkernel::pmm::PhysicalMemoryManager;

/// Follows valid entries from the root for `va` the way `map` does and
/// returns the last-level entry.
fn lookup(root: &PageTable, mem: &PhysMemory, va: u64) -> Option<u64> {
    let e2 = root.entries[((va >> 30) & 0x1FF) as usize];
    if !e2.is_valid() {
        return None;
    }
    let t1 = mem.read_table(e2.physical_address());
    let e1 = t1.entries[((va >> 21) & 0x1FF) as usize];
    if !e1.is_valid() {
        return None;
    }
    let t0 = mem.read_table(e1.physical_address());
    Some(t0.entries[((va >> 12) & 0x1FF) as usize].entry)
}

#[test]
fn flag_constants() {
    assert_eq!(PageTableEntryFlags::VALID, 1);
    assert_eq!(PageTableEntryFlags::READ, 2);
    assert_eq!(PageTableEntryFlags::WRITE, 4);
    assert_eq!(PageTableEntryFlags::EXECUTE, 8);
    assert_eq!(PageTableEntryFlags::USER, 16);
    assert_eq!(PageTableEntryFlags::ACCESS, 64);
    assert_eq!(PageTableEntryFlags::DIRTY, 128);
    assert_eq!(PageTableEntryFlags::RWX, 0xCF);
}

#[test]
fn entry_flag_bits() {
    let e = PageTableEntry::new(0b1011);
    assert_eq!(e.entry, 0b1011);
    assert!(e.is_valid());
    assert!(e.is_readable());
    assert!(!e.is_writeable());
    assert!(e.is_executable());
    let z = PageTableEntry::new(0);
    assert!(!z.is_valid() && !z.is_readable() && !z.is_writeable() && !z.is_executable());
    let w = PageTableEntry::new(4);
    assert!(!w.is_valid() && w.is_writeable());
}

#[test]
fn entry_physical_address() {
    let e = PageTableEntry::new((0x80000 << 10) | 0xF);
    assert_eq!(e.physical_address(), 0x8000_0000);
    // Only the 44-bit page number (bits 10..54) counts.
    let all = PageTableEntry::new(u64::MAX);
    assert_eq!(all.physical_address(), ((1u64 << 44) - 1) << 12);
    assert_eq!(PageTableEntry::new(0x3FF).physical_address(), 0);
}

#[test]
fn new_table_is_zero() {
    let t = PageTable::new();
    assert!(t.entries.iter().all(|e| e.entry == 0));
}

#[test]
fn next_table_create_allocates_for_invalid_entry() {
    let mut root = PageTable::new();
    let mut mem = PhysMemory::new();
    let mut pmm = PhysicalMemoryManager::new(0x10_0000, 0x20_0000);
    let a = root.next_table_create(5, &mut pmm, &mut mem);
    assert_eq!(a, Some(0x10_0000));
    assert_eq!(root.entries[5].entry, ((0x10_0000u64 >> 12) << 10) | 1);
    assert!(mem.frames.contains_key(&0x10_0000));
    // A valid entry is followed without allocating.
    let b = root.next_table_create(5, &mut pmm, &mut mem);
    assert_eq!(b, Some(0x10_0000));
    assert_eq!(pmm.alloc_page(), Some(0x10_1000));
}

#[test]
fn next_table_create_fails_without_pages() {
    let mut root = PageTable::new();
    let mut mem = PhysMemory::new();
    let mut pmm = PhysicalMemoryManager::new(0x10_0000, 0x10_0000);
    assert_eq!(root.next_table_create(0, &mut pmm, &mut mem), None);
    assert_eq!(root.entries[0].entry, 0);
    assert!(mem.frames.is_empty());
}

#[test]
fn next_table_create_follows_leaf_entry_too() {
    let mut root = PageTable::new();
    let mut mem = PhysMemory::new();
    let mut pmm = PhysicalMemoryManager::new(0x10_0000, 0x10_0000);
    root.entries[3] = PageTableEntry::new((0x12345 << 10) | 0xF);
    assert_eq!(root.next_table_create(3, &mut pmm, &mut mem), Some(0x1234_5000));
}

#[test]
fn map_then_lookup_finds_mapping() {
    let mut root = PageTable::new();
    let mut mem = PhysMemory::new();
    let mut pmm = PhysicalMemoryManager::new(0x8000_0000, 0x8010_0000);
    let va = 0x4000_3123u64;
    let pa = 0x8765_4321u64;
    root.map(&mut pmm, &mut mem, va, pa, PageTableEntryFlags::RWX);
    let expected = ((pa >> 12) << 10) | PageTableEntryFlags::RWX | 1;
    assert_eq!(lookup(&root, &mem, va), Some(expected));
    // Two new tables were taken from the allocator.
    assert_eq!(mem.frames.len(), 2);
    assert_eq!(pmm.alloc_page(), Some(0x8000_2000));
    // A second page in the same 2 MiB region reuses both tables.
    root.map(&mut pmm, &mut mem, va + 0x1000, pa + 0x1000, PageTableEntryFlags::READ);
    assert_eq!(mem.frames.len(), 2);
    assert_eq!(
        lookup(&root, &mem, va + 0x1000),
        Some((((pa + 0x1000) >> 12) << 10) | PageTableEntryFlags::READ | 1)
    );
    assert_eq!(lookup(&root, &mem, va), Some(expected));
}

#[test]
fn walk_root_leaf_gives_address_plus_offset() {
    let mut root = PageTable::new();
    let mem = PhysMemory::new();
    // vpn2 = 2, a leaf (read bit set) pointing at 0x8000_0000.
    root.entries[2] = PageTableEntry::new((0x80000 << 10) | 0b11);
    assert_eq!(root.walk(&mem, 0x8000_0abc), Some(0x8000_0abc));
    assert_eq!(root.walk(&mem, 0x4000_0000), None);
}

#[test]
fn walk_second_level_leaf() {
    let mut root = PageTable::new();
    let mut mem = PhysMemory::new();
    let mut t1 = PageTable::new();
    t1.entries[1] = PageTableEntry::new((0x90000 << 10) | 0b111);
    mem.write_table(0x5000, t1);
    root.entries[0] = PageTableEntry::new((0x5 << 10) | 1);
    assert_eq!(root.walk(&mem, 0x20_0123), Some(0x9000_0123));
}

#[test]
fn walk_reads_last_level_from_second_level_table() {
    // After `map`, the third level is read from the second-level table, so
    // the fresh mapping is not found.
    let mut root = PageTable::new();
    let mut mem = PhysMemory::new();
    let mut pmm = PhysicalMemoryManager::new(0x8000_0000, 0x8010_0000);
    root.map(&mut pmm, &mut mem, 0, 0x8020_0000, PageTableEntryFlags::RWX);
    assert_eq!(root.walk(&mem, 0), None);
    // When the second-level table holds a leaf at index vpn0, that leaf is used.
    let mut t1 = mem.read_table(0x8000_0000);
    t1.entries[7] = PageTableEntry::new((0x12345 << 10) | 0b11);
    mem.write_table(0x8000_0000, t1);
    assert_eq!(root.walk(&mem, 0x7042), Some(0x1234_5042));
}
