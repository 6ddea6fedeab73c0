use rvkernel::pmm::PhysicalMemoryManager;

#[test]
fn new_rounds_start_up() {
    let mut p = PhysicalMemoryManager::new(0x1001, 0x10_0000);
    assert_eq!(p.alloc_page(), Some(0x2000));
    let mut q = PhysicalMemoryManager::new(0x3000, 0x10_0000);
    assert_eq!(q.alloc_page(), Some(0x3000));
}

#[test]
fn bump_pages_are_adjacent() {
    let mut p = PhysicalMemoryManager::new(0x8000_0000, 0x8000_3000);
    assert_eq!(p.alloc_page(), Some(0x8000_0000));
    assert_eq!(p.alloc_page(), Some(0x8000_1000));
    assert_eq!(p.alloc_page(), Some(0x8000_2000));
    assert_eq!(p.alloc_page(), None);
}

#[test]
fn dealloc_then_alloc_returns_same_page() {
    let mut p = PhysicalMemoryManager::new(0x8000_0000, 0x8001_0000);
    let a = p.alloc_page().unwrap();
    let b = p.alloc_page().unwrap();
    p.dealloc_page(a);
    p.dealloc_page(b);
    assert_eq!(p.alloc_page(), Some(b));
    assert_eq!(p.alloc_page(), Some(a));
    assert_eq!(p.alloc_page(), Some(0x8000_2000));
}

#[test]
fn freed_pages_are_not_used_once_bump_is_exhausted() {
    let mut p = PhysicalMemoryManager::new(0x8000_0000, 0x8000_1000);
    assert_eq!(p.alloc_page(), Some(0x8000_0000));
    p.dealloc_page(0x8000_0000);
    assert_eq!(p.alloc_page(), None);
}

#[test]
fn zero_limit_gives_nothing() {
    let mut p = PhysicalMemoryManager::new(0, 0);
    assert_eq!(p.alloc_page(), None);
}

#[test]
fn no_page_is_handed_out_twice() {
    let mut p = PhysicalMemoryManager::new(0x1000, 0x20_000);
    let mut held: Vec<u64> = Vec::new();
    // Take five pages, give back the second and fourth, take three more.
    for _ in 0..5 {
        held.push(p.alloc_page().unwrap());
    }
    let second = held.remove(1);
    let fourth = held.remove(2);
    p.dealloc_page(second);
    p.dealloc_page(fourth);
    for _ in 0..3 {
        let q = p.alloc_page().unwrap();
        assert!(!held.contains(&q));
        assert_eq!(q % 4096, 0);
        assert!(q >= 0x1000 && q + 4096 <= 0x20_000);
        held.push(q);
    }
    assert_eq!(held, vec![0x1000, 0x3000, 0x5000, 0x4000, 0x2000, 0x6000]);
}
