use rvkernel::boot::{build_kernel_space, kernel_space_ok, RAM_END};
use rvkernel::heap::HeapAllocator;
use rvkernel::paging::{PageTable, PageTableEntryFlags, PhysMemory};
use rvkernel::pmm::PhysicalMemoryManager;

#[test]
fn map_check_needs_pages_for_missing_tables() {
    let root = PageTable::new();
    let mem = PhysMemory::new();
    let none = PhysicalMemoryManager::new(0x8000_0000, 0x8000_0000);
    assert!(!root.map_check(&none, &mem, 0x4000_0000));
    let one = PhysicalMemoryManager::new(0x8000_0000, 0x8000_1000);
    assert!(!root.map_check(&one, &mem, 0x4000_0000));
    let two = PhysicalMemoryManager::new(0x8000_0000, 0x8000_2000);
    assert!(root.map_check(&two, &mem, 0x4000_0000));
}

#[test]
fn map_check_with_existing_tables_needs_nothing() {
    let mut root = PageTable::new();
    let mut mem = PhysMemory::new();
    let mut pmm = PhysicalMemoryManager::new(0x8000_0000, 0x8000_2000);
    root.map(&mut pmm, &mut mem, 0x4000_0000, 0x9000_0000, PageTableEntryFlags::RWX);
    assert!(!pmm.can_alloc());
    assert!(root.map_check(&pmm, &mem, 0x4000_1000));
    assert!(!root.map_check(&pmm, &mem, 0x4020_0000));
}

#[test]
fn pmm_queries() {
    let mut p = PhysicalMemoryManager::new(0x1234, 0x4000);
    assert_eq!(p.next_free_page(), 0x2000);
    assert!(p.can_alloc());
    let q = p.clone();
    assert_eq!(p.alloc_page(), Some(0x2000));
    assert_eq!(p.next_free_page(), 0x3000);
    assert_eq!(q.next_free_page(), 0x2000);
    assert_eq!(p.alloc_page(), Some(0x3000));
    assert!(!p.can_alloc());
}

#[test]
fn allocate_ok_predicts_failures_in_map() {
    let h = HeapAllocator::new();
    let mem = PhysMemory::new();
    // Room for the data page and its two tables: the second data page is
    // then missing, which makes `allocate` return 0 but not fail.
    let p3 = PhysicalMemoryManager::new(0x8000_0000, 0x8000_3000);
    assert!(h.allocate_ok(&p3, &Some(PageTable::new()), &mem, 8192));
    // Room for the data page and one table only: `map` would fail.
    let p2 = PhysicalMemoryManager::new(0x8000_0000, 0x8000_2000);
    assert!(!h.allocate_ok(&p2, &Some(PageTable::new()), &mem, 8192));
    // Without a page table nothing is mapped.
    assert!(h.allocate_ok(&p2, &None, &mem, 8192));
}

#[test]
fn kernel_space_ok_matches_build() {
    assert!(kernel_space_ok(0x8030_0000, 0x8020_0000, 0x8020_0fff));
    assert!(build_kernel_space(0x8030_0000, 0x8020_0000, 0x8020_0fff).is_some());
    // A root page but no page for any other table.
    assert!(!kernel_space_ok(RAM_END - 0x1000, 0x8020_0000, 0x8020_0fff));
    // No root page: nothing is mapped, so nothing fails.
    assert!(kernel_space_ok(RAM_END, 0x8020_0000, 0x8020_0fff));
}
