use rvkernel::boot::{build_kernel_space, to_phys, RAM_END};
use rvkernel::paging::{PageTable, PageTableEntryFlags, PhysMemory};

fn lookup(root: &PageTable, mem: &PhysMemory, va: u64) -> Option<u64> {
    let e2 = root.entries[((va >> 30) & 0x1FF) as usize];
    if !e2.is_valid() {
        return None;
    }
    let t1 = mem.read_table(e2.physical_address());
    let e1 = t1.entries[((va >> 21) & 0x1FF) as usize];
    if !e1.is_valid() {
        return None;
    }
    let t0 = mem.read_table(e1.physical_address());
    Some(t0.entries[((va >> 12) & 0x1FF) as usize].entry)
}

fn leaf(pa: u64) -> u64 {
    ((pa >> 12) << 10) | PageTableEntryFlags::RWX | 1
}

#[test]
fn to_phys_removes_kernel_offset() {
    assert_eq!(to_phys(0xFFFF_FFFF_8020_0000), 0x8020_0000);
    assert_eq!(to_phys(0x8020_0000), 0x8020_0000);
    assert_eq!(to_phys(0xFFFF_FFFF_0000_0000), 0);
}

#[test]
fn kernel_space_maps_uart_image_and_ram() {
    let ks = build_kernel_space(0x8030_0123, 0x8020_0000, 0x8020_2fff).unwrap();
    assert_eq!(ks.root_addr, 0x8030_1000);
    let off = 0xFFFF_FFFF_0000_0000u64;
    assert_eq!(lookup(&ks.root, &ks.mem, 0x1000_0000), Some(leaf(0x1000_0000)));
    assert_eq!(lookup(&ks.root, &ks.mem, 0x1000_0000 + off), Some(leaf(0x1000_0000)));
    for a in [0x8020_0000u64, 0x8020_1000, 0x8020_2000] {
        assert_eq!(lookup(&ks.root, &ks.mem, a), Some(leaf(a)));
    }
    for p in [0x8000_0000u64, 0x8400_0000, RAM_END] {
        assert_eq!(lookup(&ks.root, &ks.mem, p), Some(leaf(p)));
        assert_eq!(lookup(&ks.root, &ks.mem, p + off), Some(leaf(to_phys(p + off))));
    }
    assert_eq!(lookup(&ks.root, &ks.mem, RAM_END + 0x1000).map(|e| e & 1), Some(0));
}

#[test]
fn kernel_space_needs_a_root_page() {
    assert!(build_kernel_space(RAM_END, 0x8020_0000, 0x8020_0fff).is_none());
}
