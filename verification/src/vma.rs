//! Virtual memory areas kept in a tree ordered by their start address, with
//! AVL rebalancing.
//!
//! The nodes live in a `Vec<VMA>`; a node is named by its index, and a child
//! link holds the index of the child. Links may form any graph, so every
//! contract below states exactly which fields each call writes, in order.
//!
//! Two things about the rebalancing are worth knowing:
//! - `rotate_right(n)` makes the left child `x` of `n` the top of the subtree
//!   and `n` the right child of `x`, but then stores `x`'s old right subtree
//!   as the *right* child of `n`: `n` keeps `x` as its left child (so `x` and
//!   `n` point to each other) and loses its old right subtree. `rotate_left`
//!   is the mirror image. Every rotation therefore leaves a cycle.
//! - A rotation recomputes the height of the node moving up before that of
//!   the node moving down.
//!
//! Operations that may walk around such a cycle forever are only specified
//! on inputs where they stop: each one comes with a step budget (`fuel`), and
//! its `requires` asks that some budget suffices.
use vstd::prelude::*;
use crate::paging::PageTableEntryFlags;

verus! {

/// A virtual memory area `[start, end)`, a node of the tree.
#[derive(Clone, Copy)]
pub struct VMA {
    pub start: usize,
    pub end: usize,
    pub flags: PageTableEntryFlags,
    pub types: usize,
    pub left: Option<usize>,
    pub right: Option<usize>,
    pub height: isize,
}

/// `o` names no node or a node of `s`.
pub open spec fn link_ok(s: Seq<VMA>, o: Option<usize>) -> bool {
    match o {
        None => true,
        Some(i) => i < s.len(),
    }
}

/// Every link of every node names a node of `s`.
pub open spec fn closed(s: Seq<VMA>) -> bool {
    &&& forall|i: int| 0 <= i < s.len() ==> link_ok(s, #[trigger] s[i].left)
    &&& forall|i: int| 0 <= i < s.len() ==> link_ok(s, #[trigger] s[i].right)
}

/// The stored height of a subtree (0 for none).
pub open spec fn sh(s: Seq<VMA>, o: Option<usize>) -> int {
    match o {
        None => 0,
        Some(i) => s[i as int].height as int,
    }
}

pub open spec fn max_int(a: int, b: int) -> int {
    if a >= b {
        a
    } else {
        b
    }
}

/// `v` is an `isize`.
pub open spec fn fits(v: int) -> bool {
    isize::MIN <= v <= isize::MAX
}

/// `update_height(i)` does not overflow.
pub open spec fn height_update_ok(s: Seq<VMA>, i: usize) -> bool {
    fits(1 + max_int(sh(s, s[i as int].left), sh(s, s[i as int].right)))
}

/// The nodes after `update_height(i)`: one more than the larger stored height
/// of the children.
pub open spec fn with_height_updated(s: Seq<VMA>, i: usize) -> Seq<VMA> {
    s.update(
        i as int,
        VMA {
            height: (1 + max_int(sh(s, s[i as int].left), sh(s, s[i as int].right))) as isize,
            ..s[i as int]
        },
    )
}

/// The links written by `rotate_right(n)`, with `x` the left child of `n`:
/// `x.right = n`, then `n.right = ` the old `x.right`.
pub open spec fn right_relinked(s: Seq<VMA>, n: usize) -> Seq<VMA> {
    let x = s[n as int].left.unwrap();
    let t2 = s[x as int].right;
    let s1 = s.update(x as int, VMA { right: Some(n), ..s[x as int] });
    s1.update(n as int, VMA { right: t2, ..s1[n as int] })
}

/// `rotate_right(n)` does not fail: `n` has a left child and neither height
/// update overflows.
pub open spec fn rotate_right_ok(s: Seq<VMA>, n: usize) -> bool {
    &&& s[n as int].left is Some
    &&& {
        let x = s[n as int].left.unwrap();
        let s2 = right_relinked(s, n);
        height_update_ok(s2, x) && height_update_ok(with_height_updated(s2, x), n)
    }
}

/// The nodes after `rotate_right(n)`: relinked, then the height of the left
/// child `x` updated, then that of `n`.
pub open spec fn rotated_right(s: Seq<VMA>, n: usize) -> Seq<VMA> {
    let x = s[n as int].left.unwrap();
    with_height_updated(with_height_updated(right_relinked(s, n), x), n)
}

/// The links written by `rotate_left(n)`, with `x` the right child of `n`:
/// `x.left = n`, then `n.left = ` the old `x.left`.
pub open spec fn left_relinked(s: Seq<VMA>, n: usize) -> Seq<VMA> {
    let x = s[n as int].right.unwrap();
    let t2 = s[x as int].left;
    let s1 = s.update(x as int, VMA { left: Some(n), ..s[x as int] });
    s1.update(n as int, VMA { left: t2, ..s1[n as int] })
}

/// `rotate_left(n)` does not fail.
pub open spec fn rotate_left_ok(s: Seq<VMA>, n: usize) -> bool {
    &&& s[n as int].right is Some
    &&& {
        let x = s[n as int].right.unwrap();
        let s2 = left_relinked(s, n);
        height_update_ok(s2, x) && height_update_ok(with_height_updated(s2, x), n)
    }
}

/// The nodes after `rotate_left(n)`.
pub open spec fn rotated_left(s: Seq<VMA>, n: usize) -> Seq<VMA> {
    let x = s[n as int].right.unwrap();
    with_height_updated(with_height_updated(left_relinked(s, n), x), n)
}

/// What the rebalancing step of `insert` gives at `r` (whose height has just
/// been updated) for the inserted `node`: the nodes, the root of the subtree,
/// and whether the step completes.
pub open spec fn rebalanced_insert(s: Seq<VMA>, r: usize, node: usize) -> (
    Seq<VMA>,
    Option<usize>,
    bool,
) {
    let l = s[r as int].left;
    let rt = s[r as int].right;
    let key = s[node as int].start;
    if !fits(sh(s, l) - sh(s, rt)) {
        (s, None, false)
    } else {
        let bal = sh(s, l) - sh(s, rt);
        if bal > 1 && l is None {
            (s, None, false)
        } else if bal > 1 && key < s[l.unwrap() as int].start {
            (rotated_right(s, r), l, rotate_right_ok(s, r))
        } else if bal < -1 && rt is None {
            (s, None, false)
        } else if bal < -1 && key > s[rt.unwrap() as int].start {
            (rotated_left(s, r), rt, rotate_left_ok(s, r))
        } else if bal > 1 && key > s[l.unwrap() as int].start {
            let li = l.unwrap();
            if !rotate_left_ok(s, li) {
                (s, None, false)
            } else {
                let y = s[li as int].right;
                let s3 = rotated_left(s, li);
                let s4 = s3.update(r as int, VMA { left: y, ..s3[r as int] });
                (rotated_right(s4, r), y, rotate_right_ok(s4, r))
            }
        } else if bal < -1 && key < s[rt.unwrap() as int].start {
            let ri = rt.unwrap();
            if !rotate_right_ok(s, ri) {
                (s, None, false)
            } else {
                let y = s[ri as int].left;
                let s3 = rotated_right(s, ri);
                let s4 = s3.update(r as int, VMA { right: y, ..s3[r as int] });
                (rotated_left(s4, r), y, rotate_left_ok(s4, r))
            }
        } else {
            (s, Some(r), true)
        }
    }
}

/// What `insert(root, node)` does within `fuel` levels of recursion: the
/// nodes, the returned root, and whether it completes (no recursion deeper
/// than `fuel`, no overflow, no missing child).
pub open spec fn insert_steps(s: Seq<VMA>, root: Option<usize>, node: usize, fuel: nat) -> (
    Seq<VMA>,
    Option<usize>,
    bool,
)
    decreases fuel,
{
    match root {
        None => (s, Some(node), true),
        Some(r) => if fuel == 0 {
            (s, None, false)
        } else {
            let key = s[node as int].start;
            let (s1, ok1) = if key < s[r as int].start {
                let (t, c, ok) = insert_steps(s, s[r as int].left, node, (fuel - 1) as nat);
                (t.update(r as int, VMA { left: c, ..t[r as int] }), ok)
            } else if key > s[r as int].start {
                let (t, c, ok) = insert_steps(s, s[r as int].right, node, (fuel - 1) as nat);
                (t.update(r as int, VMA { right: c, ..t[r as int] }), ok)
            } else {
                (s, true)
            };
            if !ok1 || !height_update_ok(s1, r) {
                (s1, None, false)
            } else {
                rebalanced_insert(with_height_updated(s1, r), r, node)
            }
        },
    }
}

/// Some recursion budget lets `insert(root, node)` complete.
pub open spec fn insert_ok(s: Seq<VMA>, root: Option<usize>, node: usize) -> bool {
    exists|fuel: nat| (#[trigger] insert_steps(s, root, node, fuel)).2
}

/// The nodes and the returned root after `insert(root, node)`.
pub open spec fn insert_result(s: Seq<VMA>, root: Option<usize>, node: usize) -> (
    Seq<VMA>,
    Option<usize>,
) {
    let fuel = choose|fuel: nat| (#[trigger] insert_steps(s, root, node, fuel)).2;
    let (t, r, ok) = insert_steps(s, root, node, fuel);
    (t, r)
}

/// Following left links from `cur` within `fuel` steps: the node without a
/// left child that is reached, or `None` when `fuel` runs out.
pub open spec fn leftmost_from(s: Seq<VMA>, cur: usize, fuel: nat) -> Option<usize>
    decreases fuel,
{
    if fuel == 0 {
        None
    } else {
        match s[cur as int].left {
            None => Some(cur),
            Some(l) => leftmost_from(s, l, (fuel - 1) as nat),
        }
    }
}

/// Some budget lets `find_successor(n)` stop.
pub open spec fn successor_ok(s: Seq<VMA>, n: usize) -> bool {
    match s[n as int].right {
        None => true,
        Some(r) => exists|fuel: nat| (#[trigger] leftmost_from(s, r, fuel)) is Some,
    }
}

/// What `find_successor(n)` returns: the end of the left links from the
/// right child of `n`.
pub open spec fn successor(s: Seq<VMA>, n: usize) -> Option<usize> {
    match s[n as int].right {
        None => None,
        Some(r) => leftmost_from(
            s,
            r,
            choose|fuel: nat| (#[trigger] leftmost_from(s, r, fuel)) is Some,
        ),
    }
}

/// Stored height of the left minus that of the right child of `o` (0 for none).
pub open spec fn balance_of(s: Seq<VMA>, o: Option<usize>) -> int {
    match o {
        None => 0,
        Some(i) => sh(s, s[i as int].left) - sh(s, s[i as int].right),
    }
}

/// `balance_factor(o)` does not overflow.
pub open spec fn balance_ok(s: Seq<VMA>, o: Option<usize>) -> bool {
    fits(balance_of(s, o))
}

/// The rebalancing step of `delete` at `n`, the node that takes the place of
/// the visited one: its height set from its children, then rotations.
pub open spec fn rebalanced_delete(s: Seq<VMA>, n: usize) -> (Seq<VMA>, Option<usize>, bool) {
    if !height_update_ok(s, n) {
        (s, None, false)
    } else {
        let s2 = with_height_updated(s, n);
        let l = s2[n as int].left;
        let rt = s2[n as int].right;
        if !fits(sh(s2, l) - sh(s2, rt)) {
            (s2, None, false)
        } else {
            let bal = sh(s2, l) - sh(s2, rt);
            if bal > 1 && !balance_ok(s2, l) {
                (s2, None, false)
            } else if bal > 1 && balance_of(s2, l) >= 0 {
                (rotated_right(s2, n), l, rotate_right_ok(s2, n))
            } else if bal > 1 && balance_of(s2, l) < 0 {
                let li = l.unwrap();
                if !rotate_left_ok(s2, li) {
                    (s2, None, false)
                } else {
                    let y = s2[li as int].right;
                    let s3 = rotated_left(s2, li);
                    let s4 = s3.update(n as int, VMA { left: y, ..s3[n as int] });
                    (rotated_right(s4, n), y, rotate_right_ok(s4, n))
                }
            } else if bal < -1 && !balance_ok(s2, rt) {
                (s2, None, false)
            } else if bal < -1 && balance_of(s2, rt) <= 0 {
                (rotated_left(s2, n), rt, rotate_left_ok(s2, n))
            } else if bal < -1 && balance_of(s2, rt) > 0 {
                let ri = rt.unwrap();
                if !rotate_right_ok(s2, ri) {
                    (s2, None, false)
                } else {
                    let y = s2[ri as int].left;
                    let s3 = rotated_right(s2, ri);
                    let s4 = s3.update(n as int, VMA { right: y, ..s3[n as int] });
                    (rotated_left(s4, n), y, rotate_left_ok(s4, n))
                }
            } else {
                (s2, Some(n), true)
            }
        }
    }
}

/// What `delete(root, k)` does within `fuel` levels of recursion (and `fuel`
/// steps of each successor search): the nodes, the returned root, and
/// whether it completes.
pub open spec fn delete_steps(s: Seq<VMA>, root: Option<usize>, k: usize, fuel: nat) -> (
    Seq<VMA>,
    Option<usize>,
    bool,
)
    decreases fuel,
{
    match root {
        None => (s, None, true),
        Some(r) => if fuel == 0 {
            (s, None, false)
        } else {
            let n = s[r as int];
            let (s1, nr, ok1) = if k < n.start {
                let (t, c, ok) = delete_steps(s, n.left, k, (fuel - 1) as nat);
                (t.update(r as int, VMA { left: c, ..t[r as int] }), Some(r), ok)
            } else if k > n.start {
                let (t, c, ok) = delete_steps(s, n.right, k, (fuel - 1) as nat);
                (t.update(r as int, VMA { right: c, ..t[r as int] }), Some(r), ok)
            } else if n.left is None && n.right is None {
                (s, None, true)
            } else if n.left is None {
                (s, n.right, true)
            } else if n.right is None {
                (s, n.left, true)
            } else {
                match leftmost_from(s, n.right.unwrap(), (fuel - 1) as nat) {
                    None => (s, None, false),
                    Some(m) => {
                        let t = s.update(
                            r as int,
                            VMA {
                                start: s[m as int].start,
                                end: s[m as int].end,
                                flags: s[m as int].flags,
                                types: s[m as int].types,
                                ..n
                            },
                        );
                        let (t2, c, ok) = delete_steps(
                            t,
                            t[r as int].right,
                            t[m as int].start,
                            (fuel - 1) as nat,
                        );
                        (t2.update(r as int, VMA { right: c, ..t2[r as int] }), Some(r), ok)
                    },
                }
            };
            if !ok1 {
                (s1, None, false)
            } else {
                match nr {
                    None => (s1, None, true),
                    Some(x) => rebalanced_delete(s1, x),
                }
            }
        },
    }
}

/// Some budget lets `delete(root, k)` complete.
pub open spec fn delete_ok(s: Seq<VMA>, root: Option<usize>, k: usize) -> bool {
    exists|fuel: nat| (#[trigger] delete_steps(s, root, k, fuel)).2
}

/// The nodes and the returned root after `delete(root, k)`.
pub open spec fn delete_result(s: Seq<VMA>, root: Option<usize>, k: usize) -> (
    Seq<VMA>,
    Option<usize>,
) {
    let fuel = choose|fuel: nat| (#[trigger] delete_steps(s, root, k, fuel)).2;
    let (t, r, ok) = delete_steps(s, root, k, fuel);
    (t, r)
}

/// What `search(cur, addr)` returns within `fuel` steps, and whether it
/// returns: at each node it stops when `start <= addr < end`, and otherwise
/// moves to the left child when `addr > end` or `addr < start`; when neither
/// holds (`addr == end`) it stays where it is.
pub open spec fn search_steps(s: Seq<VMA>, cur: Option<usize>, addr: usize, fuel: nat) -> (
    Option<usize>,
    bool,
)
    decreases fuel,
{
    match cur {
        None => (None, true),
        Some(n) => if fuel == 0 {
            (None, false)
        } else if s[n as int].start <= addr && addr < s[n as int].end {
            (Some(n), true)
        } else {
            let next1 = if addr > s[n as int].end {
                s[n as int].left
            } else {
                cur
            };
            let next2 = if addr < s[n as int].start {
                s[n as int].left
            } else {
                next1
            };
            search_steps(s, next2, addr, (fuel - 1) as nat)
        },
    }
}

/// Some budget lets `search(root, addr)` return.
pub open spec fn search_ok(s: Seq<VMA>, root: Option<usize>, addr: usize) -> bool {
    exists|fuel: nat| (#[trigger] search_steps(s, root, addr, fuel)).1
}

/// What `search(root, addr)` returns.
pub open spec fn search_result(s: Seq<VMA>, root: Option<usize>, addr: usize) -> Option<usize> {
    search_steps(s, root, addr, choose|fuel: nat| (#[trigger] search_steps(s, root, addr, fuel)).1).0
}

/// The nodes of the subtree at `o`, read with height budget `h`: a child is
/// visited when its stored height is below its parent's budget.
pub open spec fn nodes(s: Seq<VMA>, o: Option<usize>, h: nat) -> Set<usize>
    decreases h,
{
    match o {
        None => Set::empty(),
        Some(i) => if h == 0 {
            Set::empty()
        } else {
            let hl = sh(s, s[i as int].left);
            let hr = sh(s, s[i as int].right);
            let nl = if 0 <= hl < h {
                nodes(s, s[i as int].left, hl as nat)
            } else {
                Set::empty()
            };
            let nr = if 0 <= hr < h {
                nodes(s, s[i as int].right, hr as nat)
            } else {
                Set::empty()
            };
            nl.union(nr).insert(i)
        },
    }
}

/// The subtree at `o` is an AVL search tree of height `h`: no node occurs
/// twice, every stored height is the true height, the two children's heights
/// differ by at most one, and every start in a left subtree is smaller, and
/// every start in a right subtree larger, than the start of the node.
pub open spec fn avl(s: Seq<VMA>, o: Option<usize>, h: nat) -> bool
    decreases h,
{
    match o {
        None => h == 0,
        Some(i) => {
            &&& i < s.len()
            &&& h >= 1
            &&& s[i as int].height == h
            &&& {
                let l = s[i as int].left;
                let r = s[i as int].right;
                let hl = sh(s, l);
                let hr = sh(s, r);
                &&& 0 <= hl < h
                &&& 0 <= hr < h
                &&& avl(s, l, hl as nat)
                &&& avl(s, r, hr as nat)
                &&& h == 1 + max_int(hl, hr)
                &&& -1 <= hl - hr <= 1
                &&& forall|j: usize| #[trigger]
                    nodes(s, l, hl as nat).contains(j) ==> s[j as int].start < s[i as int].start
                &&& forall|j: usize| #[trigger]
                    nodes(s, r, hr as nat).contains(j) ==> s[i as int].start < s[j as int].start
                &&& nodes(s, l, hl as nat).disjoint(nodes(s, r, hr as nat))
                &&& !nodes(s, l, hl as nat).contains(i)
                &&& !nodes(s, r, hr as nat).contains(i)
            }
        },
    }
}

/// What a node holds besides its links and height: its end, flags and type.
pub open spec fn payload(v: VMA) -> (usize, PageTableEntryFlags, usize) {
    (v.end, v.flags, v.types)
}

/// The areas of the subtree at `o` (read as `nodes` reads it), by start.
pub open spec fn areas(s: Seq<VMA>, o: Option<usize>, h: nat) -> Map<
    usize,
    (usize, PageTableEntryFlags, usize),
>
    decreases h,
{
    match o {
        None => Map::empty(),
        Some(i) => if h == 0 {
            Map::empty()
        } else {
            let hl = sh(s, s[i as int].left);
            let hr = sh(s, s[i as int].right);
            let ml = if 0 <= hl < h {
                areas(s, s[i as int].left, hl as nat)
            } else {
                Map::empty()
            };
            let mr = if 0 <= hr < h {
                areas(s, s[i as int].right, hr as nat)
            } else {
                Map::empty()
            };
            ml.union_prefer_right(mr).insert(s[i as int].start, payload(s[i as int]))
        },
    }
}

proof fn lemma_areas_bounded(s: Seq<VMA>, o: Option<usize>, h: nat, lo: int, hi: int)
    requires
        avl(s, o, h),
        forall|j: usize| #[trigger] nodes(s, o, h).contains(j) ==> lo < s[j as int].start < hi,
    ensures
        forall|k: usize| #[trigger] areas(s, o, h).contains_key(k) ==> lo < k < hi,
    decreases h,
{
    if let Some(i) = o {
        let l = s[i as int].left;
        let r = s[i as int].right;
        let hl = sh(s, l);
        let hr = sh(s, r);
        assert(nodes(s, o, h).contains(i));
        assert forall|j: usize| #[trigger] nodes(s, l, hl as nat).contains(j) implies lo < s[j as int].start < hi by {
            assert(nodes(s, o, h).contains(j));
        }
        assert forall|j: usize| #[trigger] nodes(s, r, hr as nat).contains(j) implies lo < s[j as int].start < hi by {
            assert(nodes(s, o, h).contains(j));
        }
        lemma_areas_bounded(s, l, hl as nat, lo, hi);
        lemma_areas_bounded(s, r, hr as nat, lo, hi);
        let ml = areas(s, l, hl as nat);
        let mr = areas(s, r, hr as nat);
        assert(areas(s, o, h) == ml.union_prefer_right(mr).insert(s[i as int].start, payload(s[i as int])));
        assert forall|k: usize| #[trigger] areas(s, o, h).contains_key(k) implies lo < k < hi by {
            if k != s[i as int].start && !ml.contains_key(k) {
                assert(mr.contains_key(k));
            }
        }
    }
}

proof fn lemma_areas_has_nodes(s: Seq<VMA>, o: Option<usize>, h: nat)
    requires
        avl(s, o, h),
    ensures
        forall|j: usize| #[trigger] nodes(s, o, h).contains(j) ==> areas(s, o, h).contains_key(s[j as int].start)
            && areas(s, o, h)[s[j as int].start] == payload(s[j as int]),
    decreases h,
{
    if let Some(i) = o {
        let l = s[i as int].left;
        let r = s[i as int].right;
        let hl = sh(s, l);
        let hr = sh(s, r);
        lemma_areas_has_nodes(s, l, hl as nat);
        lemma_areas_has_nodes(s, r, hr as nat);
        lemma_areas_bounded(s, l, hl as nat, -1, s[i as int].start as int);
        lemma_areas_bounded(s, r, hr as nat, s[i as int].start as int, usize::MAX + 1);
        let ml = areas(s, l, hl as nat);
        let mr = areas(s, r, hr as nat);
        assert forall|j: usize| #[trigger] nodes(s, o, h).contains(j) implies areas(s, o, h).contains_key(s[j as int].start)
            && areas(s, o, h)[s[j as int].start] == payload(s[j as int]) by {
            if nodes(s, l, hl as nat).contains(j) {
                assert(ml.contains_key(s[j as int].start));
                assert(!mr.contains_key(s[j as int].start));
            } else if nodes(s, r, hr as nat).contains(j) {
                assert(mr.contains_key(s[j as int].start));
            }
        }
    }
}

/// The end of the left links from the root of an AVL search tree is its
/// node with the smallest start, and has no left child.
proof fn lemma_leftmost_min(s: Seq<VMA>, i: usize, h: nat, f: nat)
    requires
        avl(s, Some(i), h),
        leftmost_from(s, i, f) is Some,
    ensures
        ({
            let m = leftmost_from(s, i, f).unwrap();
            &&& nodes(s, Some(i), h).contains(m)
            &&& s[m as int].left is None
            &&& forall|j: usize| #[trigger] nodes(s, Some(i), h).contains(j) ==> s[m as int].start <= s[j as int].start
        }),
    decreases f,
{
    let l = s[i as int].left;
    let r = s[i as int].right;
    let hl = sh(s, l);
    let hr = sh(s, r);
    let m = leftmost_from(s, i, f).unwrap();
    let tree = nodes(s, Some(i), h);
    assert(tree == nodes(s, l, hl as nat).union(nodes(s, r, hr as nat)).insert(i));
    if let Some(li) = l {
        lemma_leftmost_min(s, li, hl as nat, (f - 1) as nat);
        assert forall|j: usize| #[trigger] tree.contains(j) implies s[m as int].start <= s[j as int].start by {
            if nodes(s, r, hr as nat).contains(j) {
                assert(nodes(s, l, hl as nat).contains(m));
            }
        }
    } else {
        assert(nodes(s, l, hl as nat) == Set::<usize>::empty());
    }
}

/// Every node that `insert(root, node)` visits keeps its two children's
/// stored heights within one of each other once its height is updated, so
/// that no rotation is done.
pub open spec fn insert_keeps_balance(s: Seq<VMA>, root: Option<usize>, node: usize, fuel: nat) -> bool
    decreases fuel,
{
    match root {
        None => true,
        Some(r) => fuel > 0 && {
            let key = s[node as int].start;
            let (s1, inner) = if key < s[r as int].start {
                let (t, c, ok) = insert_steps(s, s[r as int].left, node, (fuel - 1) as nat);
                (
                    t.update(r as int, VMA { left: c, ..t[r as int] }),
                    insert_keeps_balance(s, s[r as int].left, node, (fuel - 1) as nat),
                )
            } else if key > s[r as int].start {
                let (t, c, ok) = insert_steps(s, s[r as int].right, node, (fuel - 1) as nat);
                (
                    t.update(r as int, VMA { right: c, ..t[r as int] }),
                    insert_keeps_balance(s, s[r as int].right, node, (fuel - 1) as nat),
                )
            } else {
                (s, true)
            };
            let s2 = with_height_updated(s1, r);
            &&& inner
            &&& -1 <= sh(s2, s2[r as int].left) - sh(s2, s2[r as int].right) <= 1
        },
    }
}

proof fn lemma_avl_frame(s: Seq<VMA>, t: Seq<VMA>, o: Option<usize>, h: nat)
    requires
        avl(s, o, h),
        t.len() == s.len(),
        forall|j: usize| #[trigger] nodes(s, o, h).contains(j) ==> t[j as int] == s[j as int],
    ensures
        avl(t, o, h),
        nodes(t, o, h) == nodes(s, o, h),
        areas(t, o, h) == areas(s, o, h),
    decreases h,
{
    if let Some(i) = o {
        assert(nodes(s, o, h).contains(i));
        let l = s[i as int].left;
        let r = s[i as int].right;
        let hl = sh(s, l);
        let hr = sh(s, r);
        assert forall|j: usize| #[trigger] nodes(s, l, hl as nat).contains(j) implies t[j as int]
            == s[j as int] by {
            assert(nodes(s, o, h).contains(j));
        }
        assert forall|j: usize| #[trigger] nodes(s, r, hr as nat).contains(j) implies t[j as int]
            == s[j as int] by {
            assert(nodes(s, o, h).contains(j));
        }
        lemma_avl_frame(s, t, l, hl as nat);
        lemma_avl_frame(s, t, r, hr as nat);
        if let Some(li) = l {
            assert(nodes(s, l, hl as nat).contains(li));
        }
        if let Some(ri) = r {
            assert(nodes(s, r, hr as nat).contains(ri));
        }
        assert(sh(t, l) == hl);
        assert(sh(t, r) == hr);
        assert(nodes(t, o, h) =~= nodes(s, o, h));
        assert(areas(t, o, h) =~= areas(s, o, h));
    }
}

/// `t` holds as many nodes as `s`, and each keeps its area, flags and type.
pub open spec fn same_payload(s: Seq<VMA>, t: Seq<VMA>) -> bool {
    &&& t.len() == s.len()
    &&& forall|j: int|
        0 <= j < s.len() ==> {
            &&& (#[trigger] t[j]).start == s[j].start
            &&& t[j].end == s[j].end
            &&& t[j].flags == s[j].flags
            &&& t[j].types == s[j].types
        }
}

/// What inserting `node` into the AVL search tree at `root` (height `h`) of
/// `s` should give as the nodes `t` and the new root `r`: an AVL search tree
/// of the same height or one more, holding the old nodes and `node`, with no
/// area changed and no node outside the old tree changed.
pub open spec fn avl_insert_post(
    s: Seq<VMA>,
    root: Option<usize>,
    h: nat,
    node: usize,
    t: Seq<VMA>,
    r: Option<usize>,
) -> bool {
    let h2 = sh(t, r);
    &&& h2 == h || h2 == h + 1
    &&& avl(t, r, h2 as nat)
    &&& nodes(t, r, h2 as nat) == nodes(s, root, h).insert(node)
    &&& same_payload(s, t)
    &&& forall|j: usize|
        j < s.len() && !nodes(s, root, h).contains(j) ==> #[trigger] t[j as int] == s[j as int]
}

proof fn lemma_avl_in_range(s: Seq<VMA>, o: Option<usize>, h: nat)
    requires
        avl(s, o, h),
    ensures
        forall|j: usize| #[trigger] nodes(s, o, h).contains(j) ==> j < s.len(),
    decreases h,
{
    if let Some(i) = o {
        let l = s[i as int].left;
        let r = s[i as int].right;
        lemma_avl_in_range(s, l, sh(s, l) as nat);
        lemma_avl_in_range(s, r, sh(s, r) as nat);
    }
}

/// The step of the insertion law at a node `r` whose left subtree received
/// `node`: linking the new left subtree `c` and updating the height of `r`.
proof fn lemma_insert_join_left(
    s: Seq<VMA>,
    r: usize,
    node: usize,
    h: nat,
    t: Seq<VMA>,
    c: Option<usize>,
)
    requires
        avl(s, Some(r), h),
        node < s.len(),
        !nodes(s, Some(r), h).contains(node),
        s[node as int].start < s[r as int].start,
        avl_insert_post(s, s[r as int].left, sh(s, s[r as int].left) as nat, node, t, c),
        height_update_ok(t.update(r as int, VMA { left: c, ..t[r as int] }), r),
        ({
            let s2 = with_height_updated(t.update(r as int, VMA { left: c, ..t[r as int] }), r);
            -1 <= sh(s2, s2[r as int].left) - sh(s2, s2[r as int].right) <= 1
        }),
    ensures
        ({
            let s2 = with_height_updated(t.update(r as int, VMA { left: c, ..t[r as int] }), r);
            &&& rebalanced_insert(s2, r, node) == (s2, Some(r), true)
            &&& avl_insert_post(s, Some(r), h, node, s2, Some(r))
        }),
{
    let l = s[r as int].left;
    let rt = s[r as int].right;
    let hl = sh(s, l);
    let hr = sh(s, rt);
    let hc = sh(t, c);
    let s1 = t.update(r as int, VMA { left: c, ..t[r as int] });
    let s2 = with_height_updated(s1, r);
    lemma_avl_in_range(s, Some(r), h);
    lemma_avl_in_range(t, c, hc as nat);
    let nl = nodes(s, l, hl as nat);
    let nr = nodes(s, rt, hr as nat);
    let nc = nodes(t, c, hc as nat);
    let tree = nodes(s, Some(r), h);
    assert(tree == nl.union(nr).insert(r));
    assert(tree.contains(r));
    assert(t[r as int] == s[r as int]);
    assert(!nc.contains(r)) by {
        if nc.contains(r) {
            assert(nl.insert(node).contains(r));
        }
    }
    assert forall|j: usize| #[trigger] nc.contains(j) implies s2[j as int] == t[j as int] by {
        assert(j < t.len());
        assert(j != r);
    }
    lemma_avl_frame(t, s2, c, hc as nat);
    assert forall|j: usize| #[trigger] nr.contains(j) implies s2[j as int] == s[j as int] by {
        assert(tree.contains(j));
        assert(!nl.contains(j));
        assert(j != r);
        assert(t[j as int] == s[j as int]);
    }
    lemma_avl_frame(s, s2, rt, hr as nat);
    if let Some(ci) = c {
        assert(nc.contains(ci));
    }
    if let Some(ri) = rt {
        assert(nr.contains(ri));
    }
    assert(sh(s1, c) == hc);
    assert(sh(s1, rt) == hr);
    assert(sh(s2, c) == hc);
    assert(sh(s2, rt) == hr);
    assert(s2[r as int].left == c);
    assert(s2[r as int].right == rt);
    let hh = 1 + max_int(hc, hr);
    assert(s2[r as int].height == hh);
    assert forall|j: usize| #[trigger] nc.contains(j) implies s2[j as int].start
        < s2[r as int].start by {
        assert(j < s.len());
        if j != node {
            assert(nl.contains(j));
        }
    }
    assert forall|j: usize| #[trigger] nr.contains(j) implies s2[r as int].start
        < s2[j as int].start by {}
    assert(nc.disjoint(nr)) by {
        assert forall|j: usize| nc.contains(j) implies !nr.contains(j) by {
            if j != node {
                assert(nl.contains(j));
            } else {
                assert(!tree.contains(node));
            }
        }
    }
    assert(!nr.contains(r));
    assert(avl(s2, Some(r), hh as nat));
    assert(nodes(s2, Some(r), hh as nat) =~= tree.insert(node));
    assert forall|j: int| 0 <= j < s.len() implies {
        &&& (#[trigger] s2[j]).start == s[j].start
        &&& s2[j].end == s[j].end
        &&& s2[j].flags == s[j].flags
        &&& s2[j].types == s[j].types
    } by {
        assert(t[j].start == s[j].start);
    }
    assert forall|j: usize| j < s.len() && !tree.contains(j) implies #[trigger] s2[j as int]
        == s[j as int] by {
        assert(!nl.contains(j));
        assert(j != r);
    }
}

/// The mirror image of `lemma_insert_join_left`.
proof fn lemma_insert_join_right(
    s: Seq<VMA>,
    r: usize,
    node: usize,
    h: nat,
    t: Seq<VMA>,
    c: Option<usize>,
)
    requires
        avl(s, Some(r), h),
        node < s.len(),
        !nodes(s, Some(r), h).contains(node),
        s[r as int].start < s[node as int].start,
        avl_insert_post(s, s[r as int].right, sh(s, s[r as int].right) as nat, node, t, c),
        height_update_ok(t.update(r as int, VMA { right: c, ..t[r as int] }), r),
        ({
            let s2 = with_height_updated(t.update(r as int, VMA { right: c, ..t[r as int] }), r);
            -1 <= sh(s2, s2[r as int].left) - sh(s2, s2[r as int].right) <= 1
        }),
    ensures
        ({
            let s2 = with_height_updated(t.update(r as int, VMA { right: c, ..t[r as int] }), r);
            &&& rebalanced_insert(s2, r, node) == (s2, Some(r), true)
            &&& avl_insert_post(s, Some(r), h, node, s2, Some(r))
        }),
{
    let l = s[r as int].left;
    let rt = s[r as int].right;
    let hl = sh(s, l);
    let hr = sh(s, rt);
    let hc = sh(t, c);
    let s1 = t.update(r as int, VMA { right: c, ..t[r as int] });
    let s2 = with_height_updated(s1, r);
    lemma_avl_in_range(s, Some(r), h);
    lemma_avl_in_range(t, c, hc as nat);
    let nl = nodes(s, l, hl as nat);
    let nr = nodes(s, rt, hr as nat);
    let nc = nodes(t, c, hc as nat);
    let tree = nodes(s, Some(r), h);
    assert(tree == nl.union(nr).insert(r));
    assert(tree.contains(r));
    assert(t[r as int] == s[r as int]);
    assert(!nc.contains(r)) by {
        if nc.contains(r) {
            assert(nr.insert(node).contains(r));
        }
    }
    assert forall|j: usize| #[trigger] nc.contains(j) implies s2[j as int] == t[j as int] by {
        assert(j < t.len());
        assert(j != r);
    }
    lemma_avl_frame(t, s2, c, hc as nat);
    assert forall|j: usize| #[trigger] nl.contains(j) implies s2[j as int] == s[j as int] by {
        assert(tree.contains(j));
        assert(!nr.contains(j));
        assert(j != r);
        assert(t[j as int] == s[j as int]);
    }
    lemma_avl_frame(s, s2, l, hl as nat);
    if let Some(ci) = c {
        assert(nc.contains(ci));
    }
    if let Some(li) = l {
        assert(nl.contains(li));
    }
    assert(sh(s1, c) == hc);
    assert(sh(s1, l) == hl);
    assert(sh(s2, c) == hc);
    assert(sh(s2, l) == hl);
    assert(s2[r as int].right == c);
    assert(s2[r as int].left == l);
    let hh = 1 + max_int(hl, hc);
    assert(s2[r as int].height == hh);
    assert forall|j: usize| #[trigger] nc.contains(j) implies s2[r as int].start
        < s2[j as int].start by {
        assert(j < s.len());
        if j != node {
            assert(nr.contains(j));
        }
    }
    assert forall|j: usize| #[trigger] nl.contains(j) implies s2[j as int].start
        < s2[r as int].start by {}
    assert(nl.disjoint(nc)) by {
        assert forall|j: usize| nl.contains(j) implies !nc.contains(j) by {
            assert(!nr.contains(j));
            assert(tree.contains(j));
        }
    }
    assert(!nl.contains(r));
    assert(avl(s2, Some(r), hh as nat));
    assert(nodes(s2, Some(r), hh as nat) =~= tree.insert(node));
    assert forall|j: int| 0 <= j < s.len() implies {
        &&& (#[trigger] s2[j]).start == s[j].start
        &&& s2[j].end == s[j].end
        &&& s2[j].flags == s[j].flags
        &&& s2[j].types == s[j].types
    } by {
        assert(t[j].start == s[j].start);
    }
    assert forall|j: usize| j < s.len() && !tree.contains(j) implies #[trigger] s2[j as int]
        == s[j as int] by {
        assert(!nr.contains(j));
        assert(j != r);
    }
}

/// On an AVL search tree, inserting a fresh leaf whose start is not yet in
/// the tree, when every visited node stays balanced (so no rotation is done),
/// gives an AVL search tree of the same height or one more, whose nodes are
/// the old ones and the new leaf; no area changes, and no node outside the
/// old tree changes. This is what `insert` gives (`insert_result`).
pub proof fn law_insert_keeps_avl(s: Seq<VMA>, root: Option<usize>, node: usize, h: nat, fuel: nat)
    requires
        avl(s, root, h),
        node < s.len(),
        !nodes(s, root, h).contains(node),
        s[node as int].left is None,
        s[node as int].right is None,
        s[node as int].height == 1,
        forall|j: usize| #[trigger]
            nodes(s, root, h).contains(j) ==> s[j as int].start != s[node as int].start,
        insert_steps(s, root, node, fuel).2,
        insert_keeps_balance(s, root, node, fuel),
    ensures
        ({
            let (t, r, ok) = insert_steps(s, root, node, fuel);
            avl_insert_post(s, root, h, node, t, r)
        }),
        insert_ok(s, root, node),
        insert_result(s, root, node) == (insert_steps(s, root, node, fuel).0, insert_steps(
            s,
            root,
            node,
            fuel,
        ).1),
    decreases fuel,
{
    let f = choose|f: nat| (#[trigger] insert_steps(s, root, node, f)).2;
    lemma_insert_steps_fuel(s, root, node, f, fuel);
    match root {
        None => {
            assert(nodes(s, None, 0) == Set::<usize>::empty());
            assert(nodes(s, Some(node), 1) =~= Set::<usize>::empty().insert(node));
            assert(avl(s, Some(node), 1));
        },
        Some(r) => {
            let key = s[node as int].start;
            let l = s[r as int].left;
            let rt = s[r as int].right;
            let hl = sh(s, l);
            let hr = sh(s, rt);
            let tree = nodes(s, root, h);
            assert(tree == nodes(s, l, hl as nat).union(nodes(s, rt, hr as nat)).insert(r));
            assert(tree.contains(r));
            if key < s[r as int].start {
                assert forall|j: usize| #[trigger] nodes(s, l, hl as nat).contains(j) implies s[j as int].start
                    != key by {
                    assert(tree.contains(j));
                }
                law_insert_keeps_avl(s, l, node, hl as nat, (fuel - 1) as nat);
                let (t, c, ok) = insert_steps(s, l, node, (fuel - 1) as nat);
                lemma_insert_join_left(s, r, node, h, t, c);
            } else {
                assert forall|j: usize| #[trigger] nodes(s, rt, hr as nat).contains(j) implies s[j as int].start
                    != key by {
                    assert(tree.contains(j));
                }
                law_insert_keeps_avl(s, rt, node, hr as nat, (fuel - 1) as nat);
                let (t, c, ok) = insert_steps(s, rt, node, (fuel - 1) as nat);
                lemma_insert_join_right(s, r, node, h, t, c);
            }
        },
    }
}

/// Every node at which `delete(root, k)` rebalances keeps its two children's
/// stored heights within one of each other once its height is updated, so
/// that no rotation is done.
pub open spec fn delete_keeps_balance(s: Seq<VMA>, root: Option<usize>, k: usize, fuel: nat) -> bool
    decreases fuel,
{
    match root {
        None => true,
        Some(r) => fuel > 0 && {
            let n = s[r as int];
            let (s1, nr, inner) = if k < n.start {
                let (t, c, ok) = delete_steps(s, n.left, k, (fuel - 1) as nat);
                (
                    t.update(r as int, VMA { left: c, ..t[r as int] }),
                    Some(r),
                    delete_keeps_balance(s, n.left, k, (fuel - 1) as nat),
                )
            } else if k > n.start {
                let (t, c, ok) = delete_steps(s, n.right, k, (fuel - 1) as nat);
                (
                    t.update(r as int, VMA { right: c, ..t[r as int] }),
                    Some(r),
                    delete_keeps_balance(s, n.right, k, (fuel - 1) as nat),
                )
            } else if n.left is None && n.right is None {
                (s, None, true)
            } else if n.left is None {
                (s, n.right, true)
            } else if n.right is None {
                (s, n.left, true)
            } else {
                match leftmost_from(s, n.right.unwrap(), (fuel - 1) as nat) {
                    None => (s, None, true),
                    Some(m) => {
                        let t = s.update(
                            r as int,
                            VMA {
                                start: s[m as int].start,
                                end: s[m as int].end,
                                flags: s[m as int].flags,
                                types: s[m as int].types,
                                ..n
                            },
                        );
                        let (t2, c, ok) = delete_steps(
                            t,
                            t[r as int].right,
                            t[m as int].start,
                            (fuel - 1) as nat,
                        );
                        (
                            t2.update(r as int, VMA { right: c, ..t2[r as int] }),
                            Some(r),
                            delete_keeps_balance(t, t[r as int].right, t[m as int].start, (fuel - 1) as nat),
                        )
                    },
                }
            };
            &&& inner
            &&& match nr {
                None => true,
                Some(x) => {
                    let s2 = with_height_updated(s1, x);
                    -1 <= sh(s2, s2[x as int].left) - sh(s2, s2[x as int].right) <= 1
                },
            }
        },
    }
}

/// What deleting the area that starts at `k` from the AVL search tree at
/// `root` (height `h`) of `s` should give as the nodes `t` and the new root
/// `r`: an AVL search tree of the same height or one less, holding the old
/// areas but the one at `k`, built from old nodes only, with no node outside
/// the old tree changed.
pub open spec fn avl_delete_post(
    s: Seq<VMA>,
    root: Option<usize>,
    h: nat,
    k: usize,
    t: Seq<VMA>,
    r: Option<usize>,
) -> bool {
    let h2 = sh(t, r);
    &&& h2 == h || h2 + 1 == h
    &&& avl(t, r, h2 as nat)
    &&& areas(t, r, h2 as nat) == areas(s, root, h).remove(k)
    &&& nodes(t, r, h2 as nat).subset_of(nodes(s, root, h))
    &&& t.len() == s.len()
    &&& forall|j: usize|
        j < s.len() && !nodes(s, root, h).contains(j) ==> #[trigger] t[j as int] == s[j as int]
}

/// The step of the deletion law at a node `r` whose left subtree lost the
/// area at `k`: linking the new left subtree `c` and updating the height.
proof fn lemma_delete_join_left(
    s: Seq<VMA>,
    r: usize,
    k: usize,
    h: nat,
    t: Seq<VMA>,
    c: Option<usize>,
)
    requires
        avl(s, Some(r), h),
        k < s[r as int].start,
        avl_delete_post(s, s[r as int].left, sh(s, s[r as int].left) as nat, k, t, c),
        height_update_ok(t.update(r as int, VMA { left: c, ..t[r as int] }), r),
        ({
            let s2 = with_height_updated(t.update(r as int, VMA { left: c, ..t[r as int] }), r);
            -1 <= sh(s2, s2[r as int].left) - sh(s2, s2[r as int].right) <= 1
        }),
    ensures
        ({
            let s1 = t.update(r as int, VMA { left: c, ..t[r as int] });
            let s2 = with_height_updated(s1, r);
            &&& rebalanced_delete(s1, r) == (s2, Some(r), true)
            &&& avl_delete_post(s, Some(r), h, k, s2, Some(r))
        }),
{
    let l = s[r as int].left;
    let rt = s[r as int].right;
    let hl = sh(s, l);
    let hr = sh(s, rt);
    let hc = sh(t, c);
    let s1 = t.update(r as int, VMA { left: c, ..t[r as int] });
    let s2 = with_height_updated(s1, r);
    lemma_avl_in_range(s, Some(r), h);
    lemma_avl_in_range(t, c, hc as nat);
    let nl = nodes(s, l, hl as nat);
    let nr = nodes(s, rt, hr as nat);
    let nc = nodes(t, c, hc as nat);
    let ml = areas(s, l, hl as nat);
    let mr = areas(s, rt, hr as nat);
    let tree = nodes(s, Some(r), h);
    let sr = s[r as int].start;
    assert(tree == nl.union(nr).insert(r));
    assert(areas(s, Some(r), h) == ml.union_prefer_right(mr).insert(sr, payload(s[r as int])));
    assert(tree.contains(r));
    assert(t[r as int] == s[r as int]);
    assert(!nc.contains(r));
    assert forall|j: usize| #[trigger] nc.contains(j) implies s2[j as int] == t[j as int] by {
        assert(j < t.len());
        assert(j != r);
    }
    lemma_avl_frame(t, s2, c, hc as nat);
    assert forall|j: usize| #[trigger] nr.contains(j) implies s2[j as int] == s[j as int] by {
        assert(tree.contains(j));
        assert(!nl.contains(j));
        assert(j != r);
        assert(t[j as int] == s[j as int]);
    }
    lemma_avl_frame(s, s2, rt, hr as nat);
    if let Some(ci) = c {
        assert(nc.contains(ci));
    }
    if let Some(ri) = rt {
        assert(nr.contains(ri));
    }
    assert(sh(s1, c) == hc);
    assert(sh(s1, rt) == hr);
    assert(sh(s2, c) == hc);
    assert(sh(s2, rt) == hr);
    assert(s2[r as int].left == c);
    assert(s2[r as int].right == rt);
    let hh = 1 + max_int(hc, hr);
    assert(s2[r as int].height == hh);
    lemma_areas_has_nodes(t, c, hc as nat);
    lemma_areas_bounded(s, l, hl as nat, -1, sr as int);
    lemma_areas_bounded(s, rt, hr as nat, sr as int, usize::MAX + 1);
    assert forall|j: usize| #[trigger] nc.contains(j) implies s2[j as int].start < s2[r as int].start by {
        assert(areas(t, c, hc as nat).contains_key(t[j as int].start));
        assert(ml.contains_key(t[j as int].start));
    }
    assert forall|j: usize| #[trigger] nr.contains(j) implies s2[r as int].start < s2[j as int].start by {}
    assert(nc.disjoint(nr)) by {
        assert forall|j: usize| nc.contains(j) implies !nr.contains(j) by {
            assert(nl.contains(j));
        }
    }
    assert(!nr.contains(r));
    assert(avl(s2, Some(r), hh as nat));
    assert(nodes(s2, Some(r), hh as nat) == nc.union(nr).insert(r));
    assert(areas(s2, Some(r), hh as nat) == areas(t, c, hc as nat).union_prefer_right(mr).insert(
        sr,
        payload(s[r as int]),
    ));
    assert(!mr.contains_key(k));
    assert(areas(s2, Some(r), hh as nat) =~= areas(s, Some(r), h).remove(k));
    assert(nodes(s2, Some(r), hh as nat).subset_of(tree));
    assert forall|j: usize| j < s.len() && !tree.contains(j) implies #[trigger] s2[j as int]
        == s[j as int] by {
        assert(!nl.contains(j));
        assert(j != r);
    }
}

/// The step of the deletion law at a node `r` of `s0` whose right subtree
/// lost the area at `key`: linking the new right subtree `c` and updating
/// the height. `r` itself need not be ordered against its old right subtree
/// (it may hold the area of that subtree's smallest node), only against what
/// remains of it.
proof fn lemma_delete_join_right(s0: Seq<VMA>, r: usize, key: usize, t: Seq<VMA>, c: Option<usize>)
    requires
        r < s0.len(),
        ({
            let l = s0[r as int].left;
            let rt = s0[r as int].right;
            let hl = sh(s0, l);
            let hr = sh(s0, rt);
            &&& 0 <= hl
            &&& 0 <= hr
            &&& avl(s0, l, hl as nat)
            &&& avl(s0, rt, hr as nat)
            &&& -1 <= hl - hr <= 1
            &&& forall|j: usize| #[trigger]
                nodes(s0, l, hl as nat).contains(j) ==> s0[j as int].start < s0[r as int].start
            &&& forall|k2: usize| #[trigger]
                areas(s0, rt, hr as nat).remove(key).contains_key(k2) ==> s0[r as int].start < k2
            &&& nodes(s0, l, hl as nat).disjoint(nodes(s0, rt, hr as nat))
            &&& !nodes(s0, l, hl as nat).contains(r)
            &&& !nodes(s0, rt, hr as nat).contains(r)
            &&& avl_delete_post(s0, rt, hr as nat, key, t, c)
        }),
        height_update_ok(t.update(r as int, VMA { right: c, ..t[r as int] }), r),
        ({
            let s2 = with_height_updated(t.update(r as int, VMA { right: c, ..t[r as int] }), r);
            -1 <= sh(s2, s2[r as int].left) - sh(s2, s2[r as int].right) <= 1
        }),
    ensures
        ({
            let s1 = t.update(r as int, VMA { right: c, ..t[r as int] });
            let s2 = with_height_updated(s1, r);
            let l = s0[r as int].left;
            let rt = s0[r as int].right;
            let hl = sh(s0, l);
            let hr = sh(s0, rt);
            let h = 1 + max_int(hl, hr);
            let hh = sh(s2, Some(r));
            &&& rebalanced_delete(s1, r) == (s2, Some(r), true)
            &&& hh == h || hh + 1 == h
            &&& avl(s2, Some(r), hh as nat)
            &&& areas(s2, Some(r), hh as nat) == areas(s0, l, hl as nat).union_prefer_right(
                areas(s0, rt, hr as nat).remove(key),
            ).insert(s0[r as int].start, payload(s0[r as int]))
            &&& nodes(s2, Some(r), hh as nat).subset_of(
                nodes(s0, l, hl as nat).union(nodes(s0, rt, hr as nat)).insert(r),
            )
            &&& s2.len() == s0.len()
            &&& forall|j: usize|
                j < s0.len() && !nodes(s0, l, hl as nat).contains(j) && !nodes(
                    s0,
                    rt,
                    hr as nat,
                ).contains(j) && j != r ==> #[trigger] s2[j as int] == s0[j as int]
        }),
{
    let l = s0[r as int].left;
    let rt = s0[r as int].right;
    let hl = sh(s0, l);
    let hr = sh(s0, rt);
    let hc = sh(t, c);
    let s1 = t.update(r as int, VMA { right: c, ..t[r as int] });
    let s2 = with_height_updated(s1, r);
    lemma_avl_in_range(s0, l, hl as nat);
    lemma_avl_in_range(s0, rt, hr as nat);
    lemma_avl_in_range(t, c, hc as nat);
    let nl = nodes(s0, l, hl as nat);
    let nr = nodes(s0, rt, hr as nat);
    let nc = nodes(t, c, hc as nat);
    let ml = areas(s0, l, hl as nat);
    let mr = areas(s0, rt, hr as nat);
    let sr = s0[r as int].start;
    assert(t[r as int] == s0[r as int]);
    assert(!nc.contains(r));
    assert forall|j: usize| #[trigger] nc.contains(j) implies s2[j as int] == t[j as int] by {
        assert(j < t.len());
        assert(j != r);
    }
    lemma_avl_frame(t, s2, c, hc as nat);
    assert forall|j: usize| #[trigger] nl.contains(j) implies s2[j as int] == s0[j as int] by {
        assert(!nr.contains(j));
        assert(j != r);
        assert(t[j as int] == s0[j as int]);
    }
    lemma_avl_frame(s0, s2, l, hl as nat);
    if let Some(ci) = c {
        assert(nc.contains(ci));
    }
    if let Some(li) = l {
        assert(nl.contains(li));
    }
    assert(sh(s1, c) == hc);
    assert(sh(s1, l) == hl);
    assert(sh(s2, c) == hc);
    assert(sh(s2, l) == hl);
    assert(s2[r as int].right == c);
    assert(s2[r as int].left == l);
    let hh = 1 + max_int(hl, hc);
    assert(s2[r as int].height == hh);
    lemma_areas_has_nodes(t, c, hc as nat);
    assert forall|j: usize| #[trigger] nc.contains(j) implies s2[r as int].start < s2[j as int].start by {
        assert(areas(t, c, hc as nat).contains_key(t[j as int].start));
        assert(mr.remove(key).contains_key(t[j as int].start));
    }
    assert forall|j: usize| #[trigger] nl.contains(j) implies s2[j as int].start < s2[r as int].start by {}
    assert(nl.disjoint(nc)) by {
        assert forall|j: usize| nl.contains(j) implies !nc.contains(j) by {
            assert(!nr.contains(j));
        }
    }
    assert(!nl.contains(r));
    assert(avl(s2, Some(r), hh as nat));
    assert(nodes(s2, Some(r), hh as nat) == nl.union(nc).insert(r));
    assert(areas(s2, Some(r), hh as nat) =~= ml.union_prefer_right(mr.remove(key)).insert(
        sr,
        payload(s0[r as int]),
    ));
    assert forall|j: usize|
        j < s0.len() && !nl.contains(j) && !nr.contains(j) && j != r implies #[trigger] s2[j as int]
        == s0[j as int] by {}
}

/// `s` with the area, flags and type of node `m` copied into node `r`, as
/// `delete` does before it removes `m`, the successor of `r`.
pub open spec fn with_successor_area(s: Seq<VMA>, r: usize, m: usize) -> Seq<VMA> {
    s.update(
        r as int,
        VMA {
            start: s[m as int].start,
            end: s[m as int].end,
            flags: s[m as int].flags,
            types: s[m as int].types,
            ..s[r as int]
        },
    )
}

proof fn lemma_avl_leaf(s: Seq<VMA>, i: usize)
    requires
        avl(s, Some(i), 1),
    ensures
        s[i as int].left is None,
        s[i as int].right is None,
{
    let l = s[i as int].left;
    let r = s[i as int].right;
    assert(avl(s, l, sh(s, l) as nat));
    assert(avl(s, r, sh(s, r) as nat));
}

/// The step of the deletion law at a node `r` whose right subtree lost the
/// area at `k`.
proof fn lemma_delete_right_step(s: Seq<VMA>, r: usize, k: usize, h: nat, t: Seq<VMA>, c: Option<usize>)
    requires
        avl(s, Some(r), h),
        s[r as int].start < k,
        avl_delete_post(s, s[r as int].right, sh(s, s[r as int].right) as nat, k, t, c),
        height_update_ok(t.update(r as int, VMA { right: c, ..t[r as int] }), r),
        ({
            let s2 = with_height_updated(t.update(r as int, VMA { right: c, ..t[r as int] }), r);
            -1 <= sh(s2, s2[r as int].left) - sh(s2, s2[r as int].right) <= 1
        }),
    ensures
        ({
            let s1 = t.update(r as int, VMA { right: c, ..t[r as int] });
            let s2 = with_height_updated(s1, r);
            &&& rebalanced_delete(s1, r) == (s2, Some(r), true)
            &&& avl_delete_post(s, Some(r), h, k, s2, Some(r))
        }),
{
    let n = s[r as int];
    let l = n.left;
    let rt = n.right;
    let hl = sh(s, l);
    let hr = sh(s, rt);
    let nl = nodes(s, l, hl as nat);
    let nr = nodes(s, rt, hr as nat);
    let ml = areas(s, l, hl as nat);
    let mr = areas(s, rt, hr as nat);
    let tree = nodes(s, Some(r), h);
    assert(tree == nl.union(nr).insert(r));
    assert(areas(s, Some(r), h) == ml.union_prefer_right(mr).insert(n.start, payload(n)));
    lemma_avl_in_range(s, Some(r), h);
    lemma_areas_bounded(s, l, hl as nat, -1, n.start as int);
    lemma_areas_bounded(s, rt, hr as nat, n.start as int, usize::MAX + 1);
    assert forall|k2: usize| #[trigger] mr.remove(k).contains_key(k2) implies n.start < k2 by {
        assert(mr.contains_key(k2));
    }
    lemma_delete_join_right(s, r, k, t, c);
    let s2 = with_height_updated(t.update(r as int, VMA { right: c, ..t[r as int] }), r);
    let hh = sh(s2, Some(r));
    assert(!ml.contains_key(k));
    assert(areas(s2, Some(r), hh as nat) =~= areas(s, Some(r), h).remove(k));
}

/// The deletion law at a leaf holding the area at `k`.
proof fn lemma_delete_found_leaf(s: Seq<VMA>, r: usize, h: nat)
    requires
        avl(s, Some(r), h),
        s[r as int].left is None,
        s[r as int].right is None,
    ensures
        avl_delete_post(s, Some(r), h, s[r as int].start, s, None),
{
    let n = s[r as int];
    let e = areas(s, None, 0);
    assert(e == Map::<usize, (usize, PageTableEntryFlags, usize)>::empty());
    assert(e.union_prefer_right(e) =~= e);
    assert(areas(s, Some(r), h) == e.union_prefer_right(e).insert(n.start, payload(n)));
    assert(areas(s, Some(r), h) =~= e.insert(n.start, payload(n)));
    assert(areas(s, None, 0) =~= areas(s, Some(r), h).remove(n.start));
    assert(nodes(s, None, 0).subset_of(nodes(s, Some(r), h)));
}

/// The deletion law at a node holding the area at `k` with only a right child.
proof fn lemma_delete_found_right_only(s: Seq<VMA>, r: usize, h: nat)
    requires
        avl(s, Some(r), h),
        s[r as int].left is None,
        s[r as int].right is Some,
    ensures
        ({
            let ri = s[r as int].right.unwrap();
            &&& rebalanced_delete(s, ri) == (s, Some(ri), true)
            &&& avl_delete_post(s, Some(r), h, s[r as int].start, s, Some(ri))
        }),
{
    let n = s[r as int];
    let rt = n.right;
    let ri = rt.unwrap();
    let hr = sh(s, rt);
    let nr = nodes(s, rt, hr as nat);
    let mr = areas(s, rt, hr as nat);
    assert(nodes(s, Some(r), h) == nodes(s, None, 0).union(nr).insert(r));
    assert(areas(s, Some(r), h) == areas(s, None, 0).union_prefer_right(mr).insert(n.start, payload(n)));
    assert(sh(s, n.left) == 0);
    assert(avl(s, rt, hr as nat));
    assert(hr == 1);
    lemma_avl_leaf(s, ri);
    assert(with_height_updated(s, ri) =~= s);
    lemma_areas_bounded(s, rt, 1, n.start as int, usize::MAX + 1);
    assert(!mr.contains_key(n.start));
    assert(mr =~= areas(s, Some(r), h).remove(n.start));
}

/// The deletion law at a node holding the area at `k` with only a left child.
proof fn lemma_delete_found_left_only(s: Seq<VMA>, r: usize, h: nat)
    requires
        avl(s, Some(r), h),
        s[r as int].left is Some,
        s[r as int].right is None,
    ensures
        ({
            let li = s[r as int].left.unwrap();
            &&& rebalanced_delete(s, li) == (s, Some(li), true)
            &&& avl_delete_post(s, Some(r), h, s[r as int].start, s, Some(li))
        }),
{
    let n = s[r as int];
    let l = n.left;
    let li = l.unwrap();
    let hl = sh(s, l);
    let nl = nodes(s, l, hl as nat);
    let ml = areas(s, l, hl as nat);
    assert(nodes(s, Some(r), h) == nl.union(nodes(s, None, 0)).insert(r));
    assert(areas(s, Some(r), h) == ml.union_prefer_right(areas(s, None, 0)).insert(n.start, payload(n)));
    assert(sh(s, n.right) == 0);
    assert(avl(s, l, hl as nat));
    assert(hl == 1);
    lemma_avl_leaf(s, li);
    assert(with_height_updated(s, li) =~= s);
    lemma_areas_bounded(s, l, 1, -1, n.start as int);
    assert(!ml.contains_key(n.start));
    assert(ml =~= areas(s, Some(r), h).remove(n.start));
}

/// Before the successor `m` of `r` is removed from the right subtree of `r`,
/// that subtree is still an AVL search tree once `r` takes the area of `m`.
proof fn lemma_delete_successor_prep(s: Seq<VMA>, r: usize, h: nat, f: nat)
    requires
        avl(s, Some(r), h),
        s[r as int].left is Some,
        s[r as int].right is Some,
        leftmost_from(s, s[r as int].right.unwrap(), f) is Some,
    ensures
        ({
            let m = leftmost_from(s, s[r as int].right.unwrap(), f).unwrap();
            let t0 = with_successor_area(s, r, m);
            &&& avl(t0, t0[r as int].right, sh(s, s[r as int].right) as nat)
            &&& t0[m as int].start == s[m as int].start
        }),
{
    let n = s[r as int];
    let rt = n.right;
    let ri = rt.unwrap();
    let hr = sh(s, rt);
    let nr = nodes(s, rt, hr as nat);
    let tree = nodes(s, Some(r), h);
    assert(tree == nodes(s, n.left, sh(s, n.left) as nat).union(nr).insert(r));
    lemma_avl_in_range(s, Some(r), h);
    lemma_leftmost_min(s, ri, hr as nat, f);
    let m = leftmost_from(s, ri, f).unwrap();
    let t0 = with_successor_area(s, r, m);
    assert(nr.contains(m));
    assert forall|j: usize| #[trigger] nr.contains(j) implies t0[j as int] == s[j as int] by {
        assert(tree.contains(j));
        assert(j != r);
    }
    lemma_avl_frame(s, t0, rt, hr as nat);
}

/// The step of the deletion law at a node `r` with two children whose area
/// was at `k`: `r` took the area of its successor `m`, and `m` was deleted
/// from the right subtree, giving `c`.
proof fn lemma_delete_successor_join(s: Seq<VMA>, r: usize, h: nat, f: nat, t2: Seq<VMA>, c: Option<usize>)
    requires
        avl(s, Some(r), h),
        s[r as int].left is Some,
        s[r as int].right is Some,
        leftmost_from(s, s[r as int].right.unwrap(), f) is Some,
        ({
            let m = leftmost_from(s, s[r as int].right.unwrap(), f).unwrap();
            let t0 = with_successor_area(s, r, m);
            avl_delete_post(t0, t0[r as int].right, sh(s, s[r as int].right) as nat, t0[m as int].start, t2, c)
        }),
        height_update_ok(t2.update(r as int, VMA { right: c, ..t2[r as int] }), r),
        ({
            let s2 = with_height_updated(t2.update(r as int, VMA { right: c, ..t2[r as int] }), r);
            -1 <= sh(s2, s2[r as int].left) - sh(s2, s2[r as int].right) <= 1
        }),
    ensures
        ({
            let s1 = t2.update(r as int, VMA { right: c, ..t2[r as int] });
            let s2 = with_height_updated(s1, r);
            &&& rebalanced_delete(s1, r) == (s2, Some(r), true)
            &&& avl_delete_post(s, Some(r), h, s[r as int].start, s2, Some(r))
        }),
{
    let n = s[r as int];
    let k = n.start;
    let l = n.left;
    let rt = n.right;
    let li = l.unwrap();
    let ri = rt.unwrap();
    let hl = sh(s, l);
    let hr = sh(s, rt);
    let nl = nodes(s, l, hl as nat);
    let nr = nodes(s, rt, hr as nat);
    let ml = areas(s, l, hl as nat);
    let mr = areas(s, rt, hr as nat);
    let tree = nodes(s, Some(r), h);
    assert(tree == nl.union(nr).insert(r));
    assert(areas(s, Some(r), h) == ml.union_prefer_right(mr).insert(k, payload(n)));
    lemma_avl_in_range(s, Some(r), h);
    lemma_areas_bounded(s, l, hl as nat, -1, k as int);
    lemma_areas_bounded(s, rt, hr as nat, k as int, usize::MAX + 1);
    lemma_leftmost_min(s, ri, hr as nat, f);
    let m = leftmost_from(s, ri, f).unwrap();
    assert(nr.contains(m));
    let sm = s[m as int].start;
    let t0 = with_successor_area(s, r, m);
    assert forall|j: usize| #[trigger] nr.contains(j) implies t0[j as int] == s[j as int] by {
        assert(tree.contains(j));
        assert(j != r);
    }
    lemma_avl_frame(s, t0, rt, hr as nat);
    assert forall|j: usize| #[trigger] nl.contains(j) implies t0[j as int] == s[j as int] by {
        assert(tree.contains(j));
        assert(j != r);
    }
    lemma_avl_frame(s, t0, l, hl as nat);
    assert(t0[m as int].start == sm);
    assert(t0[r as int].right == rt);
    assert(t0[r as int].left == l);
    assert(nl.contains(li));
    assert(nr.contains(ri));
    assert(sh(t0, l) == hl);
    assert(sh(t0, rt) == hr);
    lemma_areas_bounded(s, rt, hr as nat, sm - 1, usize::MAX + 1);
    assert forall|k2: usize| #[trigger] mr.remove(sm).contains_key(k2) implies sm < k2 by {
        assert(mr.contains_key(k2));
    }
    assert forall|j: usize| #[trigger] nl.contains(j) implies t0[j as int].start < t0[r as int].start by {
        assert(s[j as int].start < k);
    }
    lemma_delete_join_right(t0, r, sm, t2, c);
    let s2 = with_height_updated(t2.update(r as int, VMA { right: c, ..t2[r as int] }), r);
    let hh = sh(s2, Some(r));
    lemma_areas_has_nodes(s, rt, hr as nat);
    assert(mr.contains_key(sm));
    assert(mr[sm] == payload(s[m as int]));
    assert(payload(t0[r as int]) == payload(s[m as int]));
    assert(!ml.contains_key(k));
    assert(!mr.contains_key(k));
    assert(!ml.contains_key(sm));
    assert(areas(s2, Some(r), hh as nat) =~= areas(s, Some(r), h).remove(k));
    assert forall|j: usize| j < s.len() && !tree.contains(j) implies #[trigger] s2[j as int]
        == s[j as int] by {
        assert(j != r);
        assert(t0[j as int] == s[j as int]);
    }
}

/// On an AVL search tree, deleting the area that starts at `k`, when every
/// node at which the tree is rebalanced stays balanced (so no rotation is
/// done), gives an AVL search tree of the same height or one less, holding
/// every old area but the one at `k` and no other, built from old nodes
/// only; no node outside the old tree changes. This is what `delete` gives
/// (`delete_result`).
#[verifier::spinoff_prover]
#[verifier::rlimit(100)]
pub proof fn law_delete_keeps_avl(s: Seq<VMA>, root: Option<usize>, k: usize, h: nat, fuel: nat)
    requires
        avl(s, root, h),
        delete_steps(s, root, k, fuel).2,
        delete_keeps_balance(s, root, k, fuel),
    ensures
        ({
            let (t, r, ok) = delete_steps(s, root, k, fuel);
            avl_delete_post(s, root, h, k, t, r)
        }),
        delete_ok(s, root, k),
        delete_result(s, root, k) == (delete_steps(s, root, k, fuel).0, delete_steps(
            s,
            root,
            k,
            fuel,
        ).1),
    decreases fuel,
{
    let f = choose|f: nat| (#[trigger] delete_steps(s, root, k, f)).2;
    lemma_delete_steps_fuel(s, root, k, f, fuel);
    match root {
        None => {
            assert(areas(s, None, 0) =~= areas(s, None, 0).remove(k));
        },
        Some(r) => {
            let n = s[r as int];
            let l = n.left;
            let rt = n.right;
            if k < n.start {
                law_delete_keeps_avl(s, l, k, sh(s, l) as nat, (fuel - 1) as nat);
                let (t, c, ok) = delete_steps(s, l, k, (fuel - 1) as nat);
                lemma_delete_join_left(s, r, k, h, t, c);
            } else if k > n.start {
                law_delete_keeps_avl(s, rt, k, sh(s, rt) as nat, (fuel - 1) as nat);
                let (t, c, ok) = delete_steps(s, rt, k, (fuel - 1) as nat);
                lemma_delete_right_step(s, r, k, h, t, c);
            } else if l is None && rt is None {
                lemma_delete_found_leaf(s, r, h);
            } else if l is None {
                lemma_delete_found_right_only(s, r, h);
            } else if rt is None {
                lemma_delete_found_left_only(s, r, h);
            } else {
                let f = (fuel - 1) as nat;
                let m = leftmost_from(s, rt.unwrap(), f).unwrap();
                let t0 = with_successor_area(s, r, m);
                lemma_delete_successor_prep(s, r, h, f);
                law_delete_keeps_avl(t0, t0[r as int].right, t0[m as int].start, sh(s, rt) as nat, f);
                let (t2, c, ok) = delete_steps(t0, t0[r as int].right, t0[m as int].start, f);
                lemma_delete_successor_join(s, r, h, f, t2, c);
            }
        },
    }
}

/// Once `insert(root, node)` completes, more recursion budget changes nothing.
proof fn lemma_insert_steps_fuel(s: Seq<VMA>, root: Option<usize>, node: usize, f1: nat, f2: nat)
    requires
        insert_steps(s, root, node, f1).2,
        insert_steps(s, root, node, f2).2,
    ensures
        insert_steps(s, root, node, f1).0 == insert_steps(s, root, node, f2).0,
        insert_steps(s, root, node, f1).1 == insert_steps(s, root, node, f2).1,
    decreases f1,
{
    if let Some(r) = root {
        let key = s[node as int].start;
        if key < s[r as int].start {
            lemma_insert_steps_fuel(s, s[r as int].left, node, (f1 - 1) as nat, (f2 - 1) as nat);
        } else if key > s[r as int].start {
            lemma_insert_steps_fuel(s, s[r as int].right, node, (f1 - 1) as nat, (f2 - 1) as nat);
        }
    }
}

/// Once `delete(root, k)` completes, more budget changes nothing.
proof fn lemma_delete_steps_fuel(s: Seq<VMA>, root: Option<usize>, k: usize, f1: nat, f2: nat)
    requires
        delete_steps(s, root, k, f1).2,
        delete_steps(s, root, k, f2).2,
    ensures
        delete_steps(s, root, k, f1).0 == delete_steps(s, root, k, f2).0,
        delete_steps(s, root, k, f1).1 == delete_steps(s, root, k, f2).1,
    decreases f1,
{
    if let Some(r) = root {
        let n = s[r as int];
        if k < n.start {
            lemma_delete_steps_fuel(s, n.left, k, (f1 - 1) as nat, (f2 - 1) as nat);
        } else if k > n.start {
            lemma_delete_steps_fuel(s, n.right, k, (f1 - 1) as nat, (f2 - 1) as nat);
        } else if n.left is Some && n.right is Some {
            let ri = n.right.unwrap();
            lemma_leftmost_unique(s, ri, (f1 - 1) as nat, (f2 - 1) as nat);
            let m = leftmost_from(s, ri, (f1 - 1) as nat).unwrap();
            let t = s.update(
                r as int,
                VMA {
                    start: s[m as int].start,
                    end: s[m as int].end,
                    flags: s[m as int].flags,
                    types: s[m as int].types,
                    ..n
                },
            );
            lemma_delete_steps_fuel(t, t[r as int].right, t[m as int].start, (f1 - 1) as nat, (f2 - 1) as nat);
        }
    }
}

/// Every node that `insert` passes on its way down is rebalanced on the way
/// back: the subtree returned at `r` is what the rebalancing step gives at `r`
/// once the subtree returned for the side the new start went to is linked in
/// and the height of `r` is updated (see
/// `law_insert_rebalance_rotates_unbalanced`).
pub proof fn law_insert_rebalances_each_visited_node(s: Seq<VMA>, r: usize, node: usize, fuel: nat)
    requires
        insert_steps(s, Some(r), node, fuel).2,
        s[node as int].start != s[r as int].start,
    ensures
        ({
            let key = s[node as int].start;
            let goes_left = key < s[r as int].start;
            let child = if goes_left {
                s[r as int].left
            } else {
                s[r as int].right
            };
            let (t, c, ok) = insert_steps(s, child, node, (fuel - 1) as nat);
            let s1 = if goes_left {
                t.update(r as int, VMA { left: c, ..t[r as int] })
            } else {
                t.update(r as int, VMA { right: c, ..t[r as int] })
            };
            let s2 = with_height_updated(s1, r);
            &&& ok
            &&& rebalanced_insert(s2, r, node).2
            &&& insert_steps(s, Some(r), node, fuel).0 == rebalanced_insert(s2, r, node).0
            &&& insert_steps(s, Some(r), node, fuel).1 == rebalanced_insert(s2, r, node).1
        }),
{
}

/// Every node that `delete` passes on its way down keeps its place and is
/// rebalanced on the way back, when the start to delete lies on one side of
/// it: the subtree returned at `r` is what the rebalancing step gives at `r`
/// once the subtree returned for that side is linked in (see
/// `law_delete_rebalance_rotates_unbalanced`).
pub proof fn law_delete_rebalances_each_visited_node(s: Seq<VMA>, r: usize, k: usize, fuel: nat)
    requires
        delete_steps(s, Some(r), k, fuel).2,
        k != s[r as int].start,
    ensures
        ({
            let goes_left = k < s[r as int].start;
            let child = if goes_left {
                s[r as int].left
            } else {
                s[r as int].right
            };
            let (t, c, ok) = delete_steps(s, child, k, (fuel - 1) as nat);
            let s1 = if goes_left {
                t.update(r as int, VMA { left: c, ..t[r as int] })
            } else {
                t.update(r as int, VMA { right: c, ..t[r as int] })
            };
            &&& ok
            &&& rebalanced_delete(s1, r).2
            &&& delete_steps(s, Some(r), k, fuel).0 == rebalanced_delete(s1, r).0
            &&& delete_steps(s, Some(r), k, fuel).1 == rebalanced_delete(s1, r).1
        }),
{
}

proof fn lemma_rotated_left_top(s: Seq<VMA>, n: usize)
    requires
        n < s.len(),
        s[n as int].right is Some,
        s[n as int].right.unwrap() < s.len(),
        s[n as int].right != Some(n),
    ensures
        rotated_left(s, n)[s[n as int].right.unwrap() as int].left == Some(n),
        rotated_left(s, n).len() == s.len(),
{
    let x = s[n as int].right.unwrap();
    let sa = left_relinked(s, n);
    assert(sa[x as int].left == Some(n));
    assert(sa.len() == s.len());
    let sb = with_height_updated(sa, x);
    assert(sb[x as int].left == Some(n));
    let sc = with_height_updated(sb, n);
    assert(sc[x as int] == sb[x as int]);
}

proof fn lemma_rotated_right_top(s: Seq<VMA>, n: usize)
    requires
        n < s.len(),
        s[n as int].left is Some,
        s[n as int].left.unwrap() < s.len(),
        s[n as int].left != Some(n),
    ensures
        rotated_right(s, n)[s[n as int].left.unwrap() as int].right == Some(n),
        rotated_right(s, n).len() == s.len(),
{
    let x = s[n as int].left.unwrap();
    let sa = right_relinked(s, n);
    assert(sa[x as int].right == Some(n));
    assert(sa.len() == s.len());
    let sb = with_height_updated(sa, x);
    assert(sb[x as int].right == Some(n));
    let sc = with_height_updated(sb, n);
    assert(sc[x as int] == sb[x as int]);
}

proof fn lemma_rotated_lengths(s: Seq<VMA>, n: usize)
    requires
        closed(s),
        n < s.len(),
    ensures
        s[n as int].right is Some ==> rotated_left(s, n).len() == s.len(),
        s[n as int].left is Some ==> rotated_right(s, n).len() == s.len(),
{
    assert(link_ok(s, s[n as int].left));
    assert(link_ok(s, s[n as int].right));
}

/// How the rebalancing step of `insert` treats the node `r` (its height just
/// updated) on the way back from inserting `node`: a node whose children's
/// heights differ by at most one is left as it is and stays the top; a node
/// out of balance is always rotated away. Right-heavy with the new start
/// beyond the right child: the right child comes up, with `r` as its left
/// child. Left-heavy with the new start below the left child: the left child
/// comes up, with `r` as its right child. In the two zig-zag cases the inner
/// grandchild comes up, with `r` below it on the heavy side.
pub proof fn law_insert_rebalance_rotates_unbalanced(s: Seq<VMA>, r: usize, node: usize)
    requires
        closed(s),
        r < s.len(),
        rebalanced_insert(s, r, node).2,
    ensures
        ({
            let l = s[r as int].left;
            let rt = s[r as int].right;
            let bal = sh(s, l) - sh(s, rt);
            let key = s[node as int].start;
            let (t, top, ok) = rebalanced_insert(s, r, node);
            &&& -1 <= bal <= 1 ==> t == s && top == Some(r)
            &&& bal < -1 ==> rt is Some
            &&& bal > 1 ==> l is Some
            &&& bal < -1 && key > s[rt.unwrap() as int].start ==> top == rt && (rt != Some(r)
                ==> t[rt.unwrap() as int].left == Some(r))
            &&& bal > 1 && key < s[l.unwrap() as int].start ==> top == l && (l != Some(r)
                ==> t[l.unwrap() as int].right == Some(r))
            &&& bal > 1 && key > s[l.unwrap() as int].start ==> {
                let y = s[l.unwrap() as int].right;
                &&& y is Some
                &&& top == y
                &&& y != Some(r) ==> t[y.unwrap() as int].right == Some(r)
            }
            &&& bal < -1 && key < s[rt.unwrap() as int].start ==> {
                let y = s[rt.unwrap() as int].left;
                &&& y is Some
                &&& top == y
                &&& y != Some(r) ==> t[y.unwrap() as int].left == Some(r)
            }
        }),
{
    let l = s[r as int].left;
    let rt = s[r as int].right;
    let bal = sh(s, l) - sh(s, rt);
    let key = s[node as int].start;
    assert(link_ok(s, l));
    assert(link_ok(s, rt));
    if bal < -1 {
        let ri = rt.unwrap();
        if key > s[ri as int].start {
            if rt != Some(r) {
                lemma_rotated_left_top(s, r);
            }
        } else if key < s[ri as int].start {
            let y = s[ri as int].left;
            assert(link_ok(s, y));
            lemma_rotated_lengths(s, ri);
            let s3 = rotated_right(s, ri);
            let s4 = s3.update(r as int, VMA { right: y, ..s3[r as int] });
            assert(s4[r as int].right == y);
            if y != Some(r) {
                lemma_rotated_left_top(s4, r);
            }
        }
    } else if bal > 1 {
        let li = l.unwrap();
        if key < s[li as int].start {
            if l != Some(r) {
                lemma_rotated_right_top(s, r);
            }
        } else if key > s[li as int].start {
            let y = s[li as int].right;
            assert(link_ok(s, y));
            lemma_rotated_lengths(s, li);
            let s3 = rotated_left(s, li);
            let s4 = s3.update(r as int, VMA { left: y, ..s3[r as int] });
            assert(s4[r as int].left == y);
            if y != Some(r) {
                lemma_rotated_right_top(s4, r);
            }
        }
    }
}

/// How the rebalancing step of `delete` treats the node `n` that takes the
/// place of a visited one, once its height is updated: in balance, `n` stays
/// the top; right-heavy by two with a right child that does not lean left,
/// the right child comes up with `n` as its left child; right-heavy with a
/// right child leaning left, that child's left child comes up with `n` as
/// its left child; and the mirror images for left-heavy.
pub proof fn law_delete_rebalance_rotates_unbalanced(s: Seq<VMA>, n: usize)
    requires
        closed(s),
        n < s.len(),
        rebalanced_delete(s, n).2,
    ensures
        ({
            let s2 = with_height_updated(s, n);
            let l = s2[n as int].left;
            let rt = s2[n as int].right;
            let bal = sh(s2, l) - sh(s2, rt);
            let (t, top, ok) = rebalanced_delete(s, n);
            &&& l == s[n as int].left && rt == s[n as int].right
            &&& -1 <= bal <= 1 ==> top == Some(n) && t == s2
            &&& bal < -1 ==> rt is Some
            &&& bal > 1 ==> l is Some
            &&& bal < -1 && sh(s2, s2[rt.unwrap() as int].left) <= sh(s2, s2[rt.unwrap() as int].right)
                ==> top == rt && (rt != Some(n) ==> t[rt.unwrap() as int].left == Some(n))
            &&& bal < -1 && sh(s2, s2[rt.unwrap() as int].left) > sh(s2, s2[rt.unwrap() as int].right)
                ==> {
                let y = s2[rt.unwrap() as int].left;
                &&& y is Some
                &&& top == y
                &&& y != Some(n) ==> t[y.unwrap() as int].left == Some(n)
            }
            &&& bal > 1 && sh(s2, s2[l.unwrap() as int].left) >= sh(s2, s2[l.unwrap() as int].right)
                ==> top == l && (l != Some(n) ==> t[l.unwrap() as int].right == Some(n))
            &&& bal > 1 && sh(s2, s2[l.unwrap() as int].left) < sh(s2, s2[l.unwrap() as int].right)
                ==> {
                let y = s2[l.unwrap() as int].right;
                &&& y is Some
                &&& top == y
                &&& y != Some(n) ==> t[y.unwrap() as int].right == Some(n)
            }
        }),
{
    let s2 = with_height_updated(s, n);
    assert(link_ok(s, s[n as int].left));
    assert(link_ok(s, s[n as int].right));
    lemma_update_closed(s, n, s2[n as int]);
    assert(closed(s2));
    let l = s2[n as int].left;
    let rt = s2[n as int].right;
    let bal = sh(s2, l) - sh(s2, rt);
    if bal < -1 {
        let ri = rt.unwrap();
        if balance_of(s2, rt) <= 0 {
            if rt != Some(n) {
                lemma_rotated_left_top(s2, n);
            }
        } else {
            let y = s2[ri as int].left;
            assert(link_ok(s2, y));
            lemma_rotated_lengths(s2, ri);
            let s3 = rotated_right(s2, ri);
            let s4 = s3.update(n as int, VMA { right: y, ..s3[n as int] });
            assert(s4[n as int].right == y);
            if y != Some(n) {
                lemma_rotated_left_top(s4, n);
            }
        }
    } else if bal > 1 {
        let li = l.unwrap();
        if balance_of(s2, l) >= 0 {
            if l != Some(n) {
                lemma_rotated_right_top(s2, n);
            }
        } else {
            let y = s2[li as int].right;
            assert(link_ok(s2, y));
            lemma_rotated_lengths(s2, li);
            let s3 = rotated_left(s2, li);
            let s4 = s3.update(n as int, VMA { left: y, ..s3[n as int] });
            assert(s4[n as int].left == y);
            if y != Some(n) {
                lemma_rotated_right_top(s4, n);
            }
        }
    }
}

proof fn lemma_update_closed(s: Seq<VMA>, i: usize, v: VMA)
    requires
        closed(s),
        i < s.len(),
        link_ok(s, v.left),
        link_ok(s, v.right),
    ensures
        closed(s.update(i as int, v)),
{
    let t = s.update(i as int, v);
    assert forall|j: int| 0 <= j < t.len() implies link_ok(t, #[trigger] t[j].left) by {
        if j != i {
            assert(t[j] == s[j]);
        }
    }
    assert forall|j: int| 0 <= j < t.len() implies link_ok(t, #[trigger] t[j].right) by {
        if j != i {
            assert(t[j] == s[j]);
        }
    }
}

proof fn lemma_leftmost_unique(s: Seq<VMA>, c: usize, f1: nat, f2: nat)
    requires
        leftmost_from(s, c, f1) is Some,
        leftmost_from(s, c, f2) is Some,
    ensures
        leftmost_from(s, c, f1) == leftmost_from(s, c, f2),
    decreases f1,
{
    if let Some(l) = s[c as int].left {
        lemma_leftmost_unique(s, l, (f1 - 1) as nat, (f2 - 1) as nat);
    }
}

proof fn lemma_leftmost_in_range(s: Seq<VMA>, c: usize, f: nat)
    requires
        closed(s),
        c < s.len(),
    ensures
        leftmost_from(s, c, f) matches Some(m) ==> m < s.len(),
    decreases f,
{
    if f > 0 {
        if let Some(l) = s[c as int].left {
            assert(link_ok(s, s[c as int].left));
            lemma_leftmost_in_range(s, l, (f - 1) as nat);
        }
    }
}

/// What `search` returns contains `addr`.
pub proof fn law_search_finds_containing_area(
    s: Seq<VMA>,
    cur: Option<usize>,
    addr: usize,
    fuel: nat,
)
    ensures
        search_steps(s, cur, addr, fuel).0 matches Some(n) ==> s[n as int].start <= addr < s[
            n as int
        ].end,
    decreases fuel,
{
    if let Some(n) = cur {
        if fuel > 0 && !(s[n as int].start <= addr && addr < s[n as int].end) {
            let next1 = if addr > s[n as int].end {
                s[n as int].left
            } else {
                cur
            };
            let next2 = if addr < s[n as int].start {
                s[n as int].left
            } else {
                next1
            };
            law_search_finds_containing_area(s, next2, addr, (fuel - 1) as nat);
        }
    }
}

impl VMA {
    /// The stored height of a subtree, 0 for none.
    pub fn height(nodes: &Vec<VMA>, node: Option<usize>) -> (h: isize)
        requires
            link_ok(nodes@, node),
        ensures
            h == sh(nodes@, node),
    {
        match node {
            Some(n) => nodes[n].height,
            None => 0,
        }
    }

    /// Stored height of the left child minus that of the right child of
    /// `node` (0 for none).
    pub fn balance_factor(nodes: &Vec<VMA>, node: Option<usize>) -> (b: isize)
        requires
            closed(nodes@),
            link_ok(nodes@, node),
            balance_ok(nodes@, node),
        ensures
            b == balance_of(nodes@, node),
    {
        match node {
            None => 0,
            Some(n) => {
                proof {
                    assert(link_ok(nodes@, nodes@[n as int].left));
                }
                VMA::height(nodes, nodes[n].left) - VMA::height(nodes, nodes[n].right)
            },
        }
    }

    /// Sets the stored height of `node` to one more than the larger stored
    /// height of its children.
    pub fn update_height(nodes: &mut Vec<VMA>, node: usize)
        requires
            closed(old(nodes)@),
            node < old(nodes)@.len(),
            height_update_ok(old(nodes)@, node),
        ensures
            final(nodes)@ == with_height_updated(old(nodes)@, node),
            closed(final(nodes)@),
    {
        proof {
            assert(link_ok(nodes@, nodes@[node as int].left));
        }
        let lh: isize = VMA::height(nodes, nodes[node].left);
        let rh: isize = VMA::height(nodes, nodes[node].right);
        let m: isize = if lh >= rh {
            lh
        } else {
            rh
        };
        let mut n = nodes[node];
        n.height = 1 + m;
        proof {
            lemma_update_closed(nodes@, node, n);
        }
        nodes.set(node, n);
    }

    /// Whether `node` has no children.
    pub fn is_leaf(nodes: &Vec<VMA>, node: usize) -> (b: bool)
        requires
            node < nodes@.len(),
        ensures
            b == (nodes@[node as int].left is None && nodes@[node as int].right is None),
    {
        nodes[node].left.is_none() && nodes[node].right.is_none()
    }

    /// Right rotation at `node` (see the module documentation); returns the
    /// former left child.
    pub fn rotate_right(nodes: &mut Vec<VMA>, node: usize) -> (x: usize)
        requires
            closed(old(nodes)@),
            node < old(nodes)@.len(),
            rotate_right_ok(old(nodes)@, node),
        ensures
            x == old(nodes)@[node as int].left.unwrap(),
            final(nodes)@ == rotated_right(old(nodes)@, node),
            closed(final(nodes)@),
    {
        proof {
            assert(link_ok(nodes@, nodes@[node as int].left));
        }
        let x: usize = nodes[node].left.unwrap();
        proof {
            assert(link_ok(nodes@, nodes@[x as int].right));
        }
        let t2 = nodes[x].right;
        let mut xn = nodes[x];
        xn.right = Some(node);
        proof {
            lemma_update_closed(nodes@, x, xn);
        }
        nodes.set(x, xn);
        let mut nn = nodes[node];
        nn.right = t2;
        proof {
            lemma_update_closed(nodes@, node, nn);
        }
        nodes.set(node, nn);
        VMA::update_height(nodes, x);
        VMA::update_height(nodes, node);
        x
    }

    /// Left rotation at `node` (see the module documentation); returns the
    /// former right child.
    pub fn rotate_left(nodes: &mut Vec<VMA>, node: usize) -> (x: usize)
        requires
            closed(old(nodes)@),
            node < old(nodes)@.len(),
            rotate_left_ok(old(nodes)@, node),
        ensures
            x == old(nodes)@[node as int].right.unwrap(),
            final(nodes)@ == rotated_left(old(nodes)@, node),
            closed(final(nodes)@),
    {
        proof {
            assert(link_ok(nodes@, nodes@[node as int].right));
        }
        let x: usize = nodes[node].right.unwrap();
        proof {
            assert(link_ok(nodes@, nodes@[x as int].left));
        }
        let t2 = nodes[x].left;
        let mut xn = nodes[x];
        xn.left = Some(node);
        proof {
            lemma_update_closed(nodes@, x, xn);
        }
        nodes.set(x, xn);
        let mut nn = nodes[node];
        nn.left = t2;
        proof {
            lemma_update_closed(nodes@, node, nn);
        }
        nodes.set(node, nn);
        VMA::update_height(nodes, x);
        VMA::update_height(nodes, node);
        x
    }
    /// Looks for an area containing `addr` from `root`: returns the node when
    /// `start <= addr < end`, and otherwise moves to the left child when
    /// `addr > end` or `addr < start` (see `search_steps`).
    pub fn search(nodes: &Vec<VMA>, root: Option<usize>, addr: usize) -> (r: Option<usize>)
        requires
            closed(nodes@),
            link_ok(nodes@, root),
            search_ok(nodes@, root, addr),
        ensures
            r == search_result(nodes@, root, addr),
    {
        let ghost fuel = choose|f: nat| (#[trigger] search_steps(nodes@, root, addr, f)).1;
        let ghost mut f: nat = fuel;
        let mut current: Option<usize> = root;
        loop
            invariant
                closed(nodes@),
                link_ok(nodes@, current),
                search_steps(nodes@, root, addr, fuel).1,
                search_result(nodes@, root, addr) == search_steps(nodes@, root, addr, fuel).0,
                search_steps(nodes@, current, addr, f) == search_steps(nodes@, root, addr, fuel),
            decreases f,
        {
            match current {
                None => {
                    return None;
                },
                Some(node) => {
                    let n = nodes[node];
                    proof {
                        assert(link_ok(nodes@, nodes@[node as int].left));
                    }
                    if addr >= n.start && addr < n.end {
                        return Some(node);
                    }
                    if addr > n.end {
                        current = n.left;
                    }
                    if addr < n.start {
                        current = n.left;
                    }
                    proof {
                        f = (f - 1) as nat;
                    }
                },
            }
        }
    }

    /// The end of the left links from the right child of `node`, or `None`
    /// when `node` has no right child.
    pub fn find_successor(nodes: &Vec<VMA>, node: usize) -> (r: Option<usize>)
        requires
            closed(nodes@),
            node < nodes@.len(),
            successor_ok(nodes@, node),
        ensures
            r == successor(nodes@, node),
    {
        proof {
            assert(link_ok(nodes@, nodes@[node as int].right));
        }
        let current = nodes[node].right;
        if current.is_none() {
            return None;
        }
        let mut cur: usize = current.unwrap();
        let ghost r0 = cur;
        let ghost fuel = choose|f: nat| (#[trigger] leftmost_from(nodes@, r0, f)) is Some;
        let ghost mut f: nat = fuel;
        loop
            invariant
                closed(nodes@),
                cur < nodes@.len(),
                leftmost_from(nodes@, r0, fuel) is Some,
                leftmost_from(nodes@, cur, f) == leftmost_from(nodes@, r0, fuel),
            ensures
                leftmost_from(nodes@, r0, fuel) == Some(cur),
            decreases f,
        {
            proof {
                assert(link_ok(nodes@, nodes@[cur as int].left));
            }
            match nodes[cur].left {
                Some(l) => {
                    cur = l;
                    proof {
                        f = (f - 1) as nat;
                    }
                },
                None => {
                    break ;
                },
            }
        }
        Some(cur)
    }

    /// The rebalancing step of `insert` at `r`, whose height has just been
    /// updated (see `rebalanced_insert`).
    fn rebalance_after_insert(nodes: &mut Vec<VMA>, r: usize, node: usize) -> (ret: Option<usize>)
        requires
            closed(old(nodes)@),
            r < old(nodes)@.len(),
            node < old(nodes)@.len(),
            rebalanced_insert(old(nodes)@, r, node).2,
        ensures
            final(nodes)@ == rebalanced_insert(old(nodes)@, r, node).0,
            ret == rebalanced_insert(old(nodes)@, r, node).1,
            closed(final(nodes)@),
            final(nodes)@.len() == old(nodes)@.len(),
            link_ok(final(nodes)@, ret),
    {
        proof {
            assert(link_ok(nodes@, nodes@[r as int].left));
            assert(link_ok(nodes@, nodes@[r as int].right));
        }
        let l = nodes[r].left;
        let rt = nodes[r].right;
        let balance: isize = VMA::balance_factor(nodes, Some(r));
        let key = nodes[node].start;
        if balance > 1 && key < nodes[l.unwrap()].start {
            return Some(VMA::rotate_right(nodes, r));
        }
        if balance < -1 && key > nodes[rt.unwrap()].start {
            return Some(VMA::rotate_left(nodes, r));
        }
        if balance > 1 && key > nodes[l.unwrap()].start {
            let y = VMA::rotate_left(nodes, l.unwrap());
            let mut rn = nodes[r];
            rn.left = Some(y);
            proof {
                lemma_update_closed(nodes@, r, rn);
            }
            nodes.set(r, rn);
            return Some(VMA::rotate_right(nodes, r));
        }
        if balance < -1 && key < nodes[rt.unwrap()].start {
            let y = VMA::rotate_right(nodes, rt.unwrap());
            let mut rn = nodes[r];
            rn.right = Some(y);
            proof {
                lemma_update_closed(nodes@, r, rn);
            }
            nodes.set(r, rn);
            return Some(VMA::rotate_left(nodes, r));
        }
        Some(r)
    }

    /// `insert` with a recursion budget (see `insert_steps`).
    fn insert_within(nodes: &mut Vec<VMA>, root: Option<usize>, node: usize, Ghost(fuel): Ghost<nat>) -> (ret: Option<usize>)
        requires
            closed(old(nodes)@),
            link_ok(old(nodes)@, root),
            node < old(nodes)@.len(),
            insert_steps(old(nodes)@, root, node, fuel).2,
        ensures
            final(nodes)@ == insert_steps(old(nodes)@, root, node, fuel).0,
            ret == insert_steps(old(nodes)@, root, node, fuel).1,
            closed(final(nodes)@),
            final(nodes)@.len() == old(nodes)@.len(),
            link_ok(final(nodes)@, ret),
        decreases fuel,
    {
        match root {
            None => Some(node),
            Some(r) => {
                proof {
                    assert(link_ok(nodes@, nodes@[r as int].left));
                    assert(link_ok(nodes@, nodes@[r as int].right));
                }
                if nodes[node].start < nodes[r].start {
                    let c = VMA::insert_within(nodes, nodes[r].left, node, Ghost((fuel - 1) as nat));
                    let mut rn = nodes[r];
                    rn.left = c;
                    proof {
                        lemma_update_closed(nodes@, r, rn);
                    }
                    nodes.set(r, rn);
                } else if nodes[node].start > nodes[r].start {
                    let c = VMA::insert_within(nodes, nodes[r].right, node, Ghost((fuel - 1) as nat));
                    let mut rn = nodes[r];
                    rn.right = c;
                    proof {
                        lemma_update_closed(nodes@, r, rn);
                    }
                    nodes.set(r, rn);
                }
                VMA::update_height(nodes, r);
                VMA::rebalance_after_insert(nodes, r, node)
            },
        }
    }

    /// Inserts `node` below `root` and returns the new root: down the search
    /// path by start (an equal start inserts nothing), then on the way back
    /// each visited node gets its height updated and is rebalanced by single
    /// or double rotations (see `insert_steps`).
    pub fn insert(nodes: &mut Vec<VMA>, root: Option<usize>, node: usize) -> (ret: Option<usize>)
        requires
            closed(old(nodes)@),
            link_ok(old(nodes)@, root),
            node < old(nodes)@.len(),
            insert_ok(old(nodes)@, root, node),
        ensures
            (final(nodes)@, ret) == insert_result(old(nodes)@, root, node),
            closed(final(nodes)@),
            final(nodes)@.len() == old(nodes)@.len(),
    {
        let ghost fuel = choose|f: nat| (#[trigger] insert_steps(nodes@, root, node, f)).2;
        VMA::insert_within(nodes, root, node, Ghost(fuel))
    }

    /// The rebalancing step of `delete` at `n` (see `rebalanced_delete`).
    fn rebalance_after_delete(nodes: &mut Vec<VMA>, n: usize) -> (ret: Option<usize>)
        requires
            closed(old(nodes)@),
            n < old(nodes)@.len(),
            rebalanced_delete(old(nodes)@, n).2,
        ensures
            final(nodes)@ == rebalanced_delete(old(nodes)@, n).0,
            ret == rebalanced_delete(old(nodes)@, n).1,
            closed(final(nodes)@),
            final(nodes)@.len() == old(nodes)@.len(),
            link_ok(final(nodes)@, ret),
    {
        proof {
            assert(link_ok(nodes@, nodes@[n as int].left));
            assert(link_ok(nodes@, nodes@[n as int].right));
        }
        let lh: isize = VMA::height(nodes, nodes[n].left);
        let rh: isize = VMA::height(nodes, nodes[n].right);
        let mut nn = nodes[n];
        nn.height = 1 + if lh >= rh {
            lh
        } else {
            rh
        };
        proof {
            lemma_update_closed(nodes@, n, nn);
        }
        nodes.set(n, nn);
        let l = nodes[n].left;
        let rt = nodes[n].right;
        let balance: isize = VMA::height(nodes, l) - VMA::height(nodes, rt);
        if balance > 1 && VMA::balance_factor(nodes, l) >= 0 {
            return Some(VMA::rotate_right(nodes, n));
        }
        if balance > 1 && VMA::balance_factor(nodes, l) < 0 {
            let y = VMA::rotate_left(nodes, l.unwrap());
            let mut n2 = nodes[n];
            n2.left = Some(y);
            proof {
                lemma_update_closed(nodes@, n, n2);
            }
            nodes.set(n, n2);
            return Some(VMA::rotate_right(nodes, n));
        }
        if balance < -1 && VMA::balance_factor(nodes, rt) <= 0 {
            return Some(VMA::rotate_left(nodes, n));
        }
        if balance < -1 && VMA::balance_factor(nodes, rt) > 0 {
            let y = VMA::rotate_right(nodes, rt.unwrap());
            let mut n2 = nodes[n];
            n2.right = Some(y);
            proof {
                lemma_update_closed(nodes@, n, n2);
            }
            nodes.set(n, n2);
            return Some(VMA::rotate_left(nodes, n));
        }
        Some(n)
    }

    /// `delete` with a recursion budget (see `delete_steps`).
    fn delete_within(nodes: &mut Vec<VMA>, root: Option<usize>, start_addr: usize, Ghost(fuel): Ghost<nat>) -> (ret: Option<usize>)
        requires
            closed(old(nodes)@),
            link_ok(old(nodes)@, root),
            delete_steps(old(nodes)@, root, start_addr, fuel).2,
        ensures
            final(nodes)@ == delete_steps(old(nodes)@, root, start_addr, fuel).0,
            ret == delete_steps(old(nodes)@, root, start_addr, fuel).1,
            closed(final(nodes)@),
            final(nodes)@.len() == old(nodes)@.len(),
            link_ok(final(nodes)@, ret),
        decreases fuel,
    {
        match root {
            None => None,
            Some(r) => {
                proof {
                    assert(link_ok(nodes@, nodes@[r as int].left));
                    assert(link_ok(nodes@, nodes@[r as int].right));
                }
                let new_root: Option<usize>;
                if start_addr < nodes[r].start {
                    let c = VMA::delete_within(nodes, nodes[r].left, start_addr, Ghost((fuel - 1) as nat));
                    let mut rn = nodes[r];
                    rn.left = c;
                    proof {
                        lemma_update_closed(nodes@, r, rn);
                    }
                    nodes.set(r, rn);
                    new_root = Some(r);
                } else if start_addr > nodes[r].start {
                    let c = VMA::delete_within(nodes, nodes[r].right, start_addr, Ghost((fuel - 1) as nat));
                    let mut rn = nodes[r];
                    rn.right = c;
                    proof {
                        lemma_update_closed(nodes@, r, rn);
                    }
                    nodes.set(r, rn);
                    new_root = Some(r);
                } else if VMA::is_leaf(nodes, r) {
                    new_root = None;
                } else if nodes[r].left.is_none() {
                    new_root = nodes[r].right;
                } else if nodes[r].right.is_none() {
                    new_root = nodes[r].left;
                } else {
                    let ghost s0 = nodes@;
                    proof {
                        let rr = s0[r as int].right.unwrap();
                        let m = leftmost_from(s0, rr, (fuel - 1) as nat);
                        assert(m is Some);
                        assert(successor_ok(s0, r));
                        lemma_leftmost_unique(
                            s0,
                            rr,
                            (fuel - 1) as nat,
                            choose|f: nat| (#[trigger] leftmost_from(s0, rr, f)) is Some,
                        );
                    }
                    let successor = VMA::find_successor(nodes, r).unwrap();
                    proof {
                        lemma_leftmost_in_range(s0, s0[r as int].right.unwrap(), (fuel - 1) as nat);
                    }
                    let sn = nodes[successor];
                    let mut rn = nodes[r];
                    rn.start = sn.start;
                    rn.end = sn.end;
                    rn.flags = sn.flags;
                    rn.types = sn.types;
                    proof {
                        lemma_update_closed(nodes@, r, rn);
                    }
                    nodes.set(r, rn);
                    let succ_start = nodes[successor].start;
                    proof {
                        assert(link_ok(nodes@, nodes@[r as int].right));
                    }
                    let c = VMA::delete_within(nodes, nodes[r].right, succ_start, Ghost((fuel - 1) as nat));
                    let mut rn2 = nodes[r];
                    rn2.right = c;
                    proof {
                        lemma_update_closed(nodes@, r, rn2);
                    }
                    nodes.set(r, rn2);
                    new_root = Some(r);
                }
                match new_root {
                    None => None,
                    Some(n) => VMA::rebalance_after_delete(nodes, n),
                }
            },
        }
    }

    /// Removes the area starting at `start_addr` below `root` and returns the
    /// new root: a leaf goes, a node with one child is replaced by it, and a
    /// node with two children takes the area of its successor, which is then
    /// deleted from the right subtree; on the way back each node that takes
    /// the place of a visited one is rebalanced (see `delete_steps`).
    pub fn delete(nodes: &mut Vec<VMA>, root: Option<usize>, start_addr: usize) -> (ret: Option<usize>)
        requires
            closed(old(nodes)@),
            link_ok(old(nodes)@, root),
            delete_ok(old(nodes)@, root, start_addr),
        ensures
            (final(nodes)@, ret) == delete_result(old(nodes)@, root, start_addr),
            closed(final(nodes)@),
            final(nodes)@.len() == old(nodes)@.len(),
    {
        let ghost fuel = choose|f: nat| (#[trigger] delete_steps(nodes@, root, start_addr, f)).2;
        VMA::delete_within(nodes, root, start_addr, Ghost(fuel))
    }
}

} // verus!
