use rvkernel::heap::HeapAllocator;
use rvkernel::paging::{PageTable, PageTableEntryFlags, PhysMemory};
use rvkernel::pmm::PhysicalMemoryManager;

fn lookup(root: &PageTable, mem: &PhysMemory, va: u64) -> Option<u64> {
    let e2 = root.entries[((va >> 30) & 0x1FF) as usize];
    if !e2.is_valid() {
        return None;
    }
    let t1 = mem.read_table(e2.physical_address());
    let e1 = t1.entries[((va >> 21) & 0x1FF) as usize];
    if !e1.is_valid() {
        return None;
    }
    let t0 = mem.read_table(e1.physical_address());
    Some(t0.entries[((va >> 12) & 0x1FF) as usize].entry)
}

#[test]
fn cursor_starts_at_heap_start() {
    assert_eq!(HeapAllocator::new().next_va, 0x4000_0000);
}

#[test]
fn without_page_table_only_the_cursor_moves() {
    let mut h = HeapAllocator::new();
    let mut pmm = PhysicalMemoryManager::new(0x8000_0000, 0x8000_0000);
    let mut root: Option<PageTable> = None;
    let mut mem = PhysMemory::new();
    assert_eq!(h.allocate(&mut pmm, &mut root, &mut mem, 5000), 0x4000_0000);
    assert_eq!(h.next_va, 0x4000_2000);
    assert_eq!(h.allocate(&mut pmm, &mut root, &mut mem, 0), 0x4000_2000);
    assert_eq!(h.next_va, 0x4000_2000);
    assert_eq!(h.allocate(&mut pmm, &mut root, &mut mem, 4096), 0x4000_2000);
    assert_eq!(h.next_va, 0x4000_3000);
    assert!(mem.frames.is_empty());
}

#[test]
fn pages_are_backed_and_mapped() {
    let mut h = HeapAllocator::new();
    let mut pmm = PhysicalMemoryManager::new(0x8000_0000, 0x8010_0000);
    let mut root = Some(PageTable::new());
    let mut mem = PhysMemory::new();
    let va = h.allocate(&mut pmm, &mut root, &mut mem, 8192);
    assert_eq!(va, 0x4000_0000);
    assert_eq!(h.next_va, 0x4000_2000);
    let rt = root.as_ref().unwrap();
    // The first data page is taken before the two tables, the second after.
    let rwx = PageTableEntryFlags::RWX | 1;
    assert_eq!(lookup(rt, &mem, 0x4000_0000), Some(((0x8000_0000u64 >> 12) << 10) | rwx));
    assert_eq!(lookup(rt, &mem, 0x4000_1000), Some(((0x8000_3000u64 >> 12) << 10) | rwx));
}

#[test]
fn failed_backing_returns_zero() {
    let mut h = HeapAllocator::new();
    let mut pmm = PhysicalMemoryManager::new(0x8000_0000, 0x8000_3000);
    let mut root = Some(PageTable::new());
    let mut mem = PhysMemory::new();
    assert_eq!(h.allocate(&mut pmm, &mut root, &mut mem, 8192), 0);
    assert_eq!(h.next_va, 0x4000_2000);
    assert!(root.is_some());
}
