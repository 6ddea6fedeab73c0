use rvkernel::paging::PageTableEntryFlags;
use rvkernel::vma::VMA;

fn area(start: usize, end: usize, types: usize) -> VMA {
    VMA { start, end, flags: PageTableEntryFlags, types, left: None, right: None, height: 1 }
}

/// Three areas, 0x2000 at the root with 0x1000 left and 0x3000 right.
fn three() -> Vec<VMA> {
    let mut v = vec![area(0x2000, 0x3000, 2), area(0x1000, 0x2000, 1), area(0x3000, 0x4000, 3)];
    v[0].left = Some(1);
    v[0].right = Some(2);
    v[0].height = 2;
    v
}

#[test]
fn insert_into_empty_and_below() {
    let mut v = vec![area(0x3000, 0x4000, 3), area(0x2000, 0x3000, 2)];
    let root = VMA::insert(&mut v, None, 0);
    assert_eq!(root, Some(0));
    let root = VMA::insert(&mut v, root, 1);
    assert_eq!(root, Some(0));
    assert_eq!(v[0].left, Some(1));
    assert_eq!(v[0].height, 2);
}

#[test]
fn insert_three_descending_rotation_links_nodes_both_ways() {
    let mut v = vec![area(0x3000, 0x4000, 3), area(0x2000, 0x3000, 2), area(0x1000, 0x2000, 1)];
    let mut root = VMA::insert(&mut v, None, 0);
    root = VMA::insert(&mut v, root, 1);
    root = VMA::insert(&mut v, root, 2);
    assert_eq!(root, Some(1));
    // The new top points down to the old root, which still points back up.
    assert_eq!(v[1].right, Some(0));
    assert_eq!(v[0].left, Some(1));
    assert_eq!(v[0].right, None);
    assert_eq!(v[1].left, Some(2));
    // The top's height is computed from the old root's height before it is updated.
    assert_eq!(v[1].height, 4);
    assert_eq!(v[0].height, 5);
}

#[test]
fn insert_duplicate_start_adds_no_link() {
    let mut v = three();
    v.push(area(0x1000, 0x9000, 7));
    let root = VMA::insert(&mut v, Some(0), 3);
    assert_eq!(root, Some(0));
    assert_eq!(v[1].left, None);
    assert_eq!(v[1].right, None);
    assert_eq!(v[1].end, 0x2000);
}

#[test]
fn rotate_right_keeps_left_link_and_drops_right_subtree() {
    let mut v = vec![area(5, 6, 0), area(3, 4, 0), area(7, 8, 0), area(4, 5, 0)];
    v[0].left = Some(1);
    v[0].right = Some(2);
    v[0].height = 3;
    v[1].right = Some(3);
    v[1].height = 2;
    let x = VMA::rotate_right(&mut v, 0);
    assert_eq!(x, 1);
    assert_eq!(v[1].right, Some(0));
    assert_eq!(v[0].left, Some(1));
    assert_eq!(v[0].right, Some(3));
    assert_eq!(v[1].height, 4);
    assert_eq!(v[0].height, 5);
}

#[test]
fn rotate_left_mirrors_rotate_right() {
    let mut v = vec![area(5, 6, 0), area(3, 4, 0), area(7, 8, 0), area(6, 7, 0)];
    v[0].left = Some(1);
    v[0].right = Some(2);
    v[0].height = 3;
    v[2].left = Some(3);
    v[2].height = 2;
    let x = VMA::rotate_left(&mut v, 0);
    assert_eq!(x, 2);
    assert_eq!(v[2].left, Some(0));
    assert_eq!(v[0].right, Some(2));
    assert_eq!(v[0].left, Some(3));
    assert_eq!(v[2].height, 4);
    assert_eq!(v[0].height, 5);
}

#[test]
fn search_descends_only_to_the_left() {
    let v = three();
    assert_eq!(VMA::search(&v, Some(0), 0x2500), Some(0));
    assert_eq!(VMA::search(&v, Some(0), 0x1500), Some(1));
    // The area above the root is not reached.
    assert_eq!(VMA::search(&v, Some(0), 0x3500), None);
    assert_eq!(VMA::search(&v, None, 0x3500), None);
}

#[test]
fn find_successor_is_leftmost_of_right() {
    let mut v = three();
    v.push(area(0x2800, 0x2900, 4));
    v[2].left = Some(3);
    assert_eq!(VMA::find_successor(&v, 0), Some(3));
    assert_eq!(VMA::find_successor(&v, 1), None);
    assert!(VMA::is_leaf(&v, 1));
    assert!(!VMA::is_leaf(&v, 0));
}

#[test]
fn delete_node_with_two_children_takes_successor() {
    let mut v = three();
    let root = VMA::delete(&mut v, Some(0), 0x2000);
    assert_eq!(root, Some(0));
    assert_eq!(v[0].start, 0x3000);
    assert_eq!(v[0].end, 0x4000);
    assert_eq!(v[0].types, 3);
    assert_eq!(v[0].left, Some(1));
    assert_eq!(v[0].right, None);
    assert_eq!(v[0].height, 2);
}

#[test]
fn delete_leaf_single_child_and_missing() {
    let mut v = three();
    let root = VMA::delete(&mut v, Some(0), 0x5000);
    assert_eq!(root, Some(0));
    assert_eq!(v[0].right, Some(2));
    let root = VMA::delete(&mut v, Some(0), 0x3000);
    assert_eq!(v[0].right, None);
    let root = VMA::delete(&mut v, root, 0x2000);
    assert_eq!(root, Some(1));
    let root = VMA::delete(&mut v, root, 0x1000);
    assert_eq!(root, None);
    assert_eq!(VMA::delete(&mut v, None, 0), None);
}

#[test]
fn delete_that_rotates() {
    let mut v = three();
    v.push(area(0x500, 0x600, 0));
    v[1].left = Some(3);
    v[1].height = 2;
    v[0].height = 3;
    let root = VMA::delete(&mut v, Some(0), 0x3000);
    assert_eq!(root, Some(1));
    assert_eq!(v[1].right, Some(0));
    assert_eq!(v[0].left, Some(1));
    assert_eq!(v[1].height, 4);
    assert_eq!(v[0].height, 5);
}

#[test]
fn heights_and_balance() {
    let mut v = three();
    assert_eq!(VMA::height(&v, Some(0)), 2);
    assert_eq!(VMA::height(&v, None), 0);
    assert_eq!(VMA::balance_factor(&v, None), 0);
    assert_eq!(VMA::balance_factor(&v, Some(0)), 0);
    v[0].height = 9;
    VMA::update_height(&mut v, 0);
    assert_eq!(v[0].height, 2);
    v[0].right = None;
    assert_eq!(VMA::balance_factor(&v, Some(0)), 1);
}

#[test]
fn balanced_inserts_keep_true_heights() {
    // 0x4000, then 0x2000 and 0x6000, then 0x1000: no node is ever out of balance.
    let mut v = vec![
        area(0x4000, 0x5000, 4),
        area(0x2000, 0x3000, 2),
        area(0x6000, 0x7000, 6),
        area(0x1000, 0x2000, 1),
    ];
    let mut root = None;
    for i in 0..4 {
        root = VMA::insert(&mut v, root, i);
    }
    assert_eq!(root, Some(0));
    assert_eq!((v[0].left, v[0].right, v[0].height), (Some(1), Some(2), 3));
    assert_eq!((v[1].left, v[1].right, v[1].height), (Some(3), None, 2));
    assert_eq!((v[2].left, v[2].right, v[2].height), (None, None, 1));
    assert_eq!((v[3].left, v[3].right, v[3].height), (None, None, 1));
    assert_eq!(v[3].start, 0x1000);
}

#[test]
fn balanced_delete_keeps_true_heights() {
    let mut v = vec![
        area(0x4000, 0x5000, 4),
        area(0x2000, 0x3000, 2),
        area(0x6000, 0x7000, 6),
        area(0x1000, 0x2000, 1),
    ];
    let mut root = None;
    for i in 0..4 {
        root = VMA::insert(&mut v, root, i);
    }
    // Removing 0x1000 leaves every node in balance.
    root = VMA::delete(&mut v, root, 0x1000);
    assert_eq!(root, Some(0));
    assert_eq!((v[0].left, v[0].right, v[0].height), (Some(1), Some(2), 2));
    assert_eq!((v[1].left, v[1].right, v[1].height), (None, None, 1));
    // Removing the root, which has two children, moves its successor's area up.
    root = VMA::delete(&mut v, root, 0x4000);
    assert_eq!(root, Some(0));
    assert_eq!((v[0].start, v[0].end, v[0].types), (0x6000, 0x7000, 6));
    assert_eq!((v[0].left, v[0].right, v[0].height), (Some(1), None, 2));
}
