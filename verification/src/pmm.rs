//! The physical page allocator: a bump pointer over `[start, limit)` in
//! 4 KiB pages, in front of a last-in first-out list of freed pages.
use vstd::prelude::*;

verus! {

/// The size of a page, in bytes.
pub const PAGE_SIZE: u64 = 4096;

/// The state of the allocator: the next page the bump pointer hands out, the
/// freed pages (the last one is handed out first) and the end of memory.
pub struct PmmView {
    pub next_free_page: u64,
    pub free_list: Seq<u64>,
    pub limit: u64,
}

/// The smallest multiple of the page size that is at least `a`.
pub open spec fn page_round_up(a: u64) -> int {
    ((a + 4095) / 4096) * 4096
}

/// A page can be handed out: the page at the bump pointer ends within the limit.
/// (This is checked before the free list is looked at.)
pub open spec fn can_alloc(p: PmmView) -> bool {
    p.next_free_page + PAGE_SIZE <= p.limit
}

/// The allocator after one allocation, and the page handed out.
pub open spec fn alloc_result(p: PmmView) -> (PmmView, Option<u64>) {
    if !can_alloc(p) {
        (p, None)
    } else if p.free_list.len() > 0 {
        (PmmView { free_list: p.free_list.drop_last(), ..p }, Some(p.free_list.last()))
    } else {
        (
            PmmView { next_free_page: (p.next_free_page + PAGE_SIZE) as u64, ..p },
            Some(p.next_free_page),
        )
    }
}

/// The allocator after `ptr` is given back.
pub open spec fn dealloc_result(p: PmmView, ptr: u64) -> PmmView {
    PmmView { free_list: p.free_list.push(ptr), ..p }
}

/// The physical memory manager.
pub struct PhysicalMemoryManager {
    next_free_page: u64,
    free_list: Vec<u64>,
    limit: u64,
}

impl View for PhysicalMemoryManager {
    type V = PmmView;

    closed spec fn view(&self) -> PmmView {
        PmmView { next_free_page: self.next_free_page, free_list: self.free_list@, limit: self.limit }
    }
}

impl Clone for PhysicalMemoryManager {
    fn clone(&self) -> (p: Self)
        ensures
            p@ == self@,
    {
        let free_list = self.free_list.clone();
        proof {
            assert(free_list@ =~= self.free_list@);
        }
        PhysicalMemoryManager { next_free_page: self.next_free_page, free_list, limit: self.limit }
    }
}

impl PhysicalMemoryManager {
    /// An allocator whose bump pointer starts at `start` rounded up to a page
    /// boundary, with no freed pages, handing out pages below `limit`.
    pub fn new(start: u64, limit: u64) -> (p: Self)
        requires
            page_round_up(start) <= u64::MAX,
        ensures
            p@ == (PmmView { next_free_page: page_round_up(start) as u64, free_list: seq![], limit }),
    {
        let mut start = start;
        if start % 4096 != 0 {
            start += 4096 - (start % 4096);
        }
        Self { next_free_page: start, free_list: Vec::new(), limit }
    }

    /// Hands out a page: `None` when the page at the bump pointer would end
    /// beyond the limit; otherwise the most recently freed page if there is
    /// one, else the page at the bump pointer, which then moves on by a page.
    pub fn alloc_page(&mut self) -> (r: Option<u64>)
        requires
            old(self)@.next_free_page + PAGE_SIZE <= u64::MAX,
        ensures
            (final(self)@, r) == alloc_result(old(self)@),
    {
        if self.next_free_page + 4096 > self.limit {
            return None;
        }
        if self.free_list.len() > 0 {
            let page_ptr = self.free_list.pop();
            return page_ptr;
        }
        let address: u64 = self.next_free_page;
        self.next_free_page += 4096;
        Some(address)
    }

    /// The page the bump pointer hands out next.
    pub fn next_free_page(&self) -> (a: u64)
        ensures
            a == self@.next_free_page,
    {
        self.next_free_page
    }

    /// Whether a page can be handed out (see `can_alloc`).
    pub fn can_alloc(&self) -> (b: bool)
        ensures
            b == can_alloc(self@),
    {
        self.next_free_page <= self.limit && self.limit - self.next_free_page >= 4096
    }

    /// Gives the page at `ptr` back: it goes on top of the free list.
    pub fn dealloc_page(&mut self, ptr: u64)
        ensures
            final(self)@ == dealloc_result(old(self)@, ptr),
    {
        self.free_list.push(ptr);
    }
}

/// A page given back is the next page handed out, and the allocator is then
/// as it was before; provided a page can be handed out at all.
pub proof fn law_dealloc_then_alloc(p: PmmView, ptr: u64)
    requires
        can_alloc(p),
    ensures
        alloc_result(dealloc_result(p, ptr)) == (p, Some(ptr)),
{
    assert(p.free_list.push(ptr).drop_last() =~= p.free_list);
}

/// With no freed pages, two allocations in a row that both succeed hand out
/// two adjacent, distinct pages, both ending within the limit.
pub proof fn law_bump_pages_distinct(p: PmmView)
    requires
        p.free_list.len() == 0,
        alloc_result(p).1 is Some,
        alloc_result(alloc_result(p).0).1 is Some,
    ensures
        ({
            let a = alloc_result(p).1.unwrap();
            let b = alloc_result(alloc_result(p).0).1.unwrap();
            &&& b == a + PAGE_SIZE
            &&& a != b
            &&& b + PAGE_SIZE <= p.limit
        }),
{
}

/// The bump pointer of a new allocator is page-aligned and lies within one
/// page above `start`; every page it then hands out is page-aligned.
pub proof fn law_new_aligned(start: u64, p: PmmView)
    requires
        page_round_up(start) <= u64::MAX,
        p.next_free_page == page_round_up(start),
        p.free_list.len() == 0,
    ensures
        p.next_free_page % PAGE_SIZE == 0,
        start <= p.next_free_page < start + PAGE_SIZE,
        alloc_result(p).1 matches Some(a) ==> a % PAGE_SIZE == 0 && alloc_result(p).0.next_free_page
            % PAGE_SIZE == 0,
{
}

/// `q` is a page the allocator may have handed out: page-aligned, at or
/// above `base`, below the bump pointer and ending within the limit.
pub open spec fn page_in_range(q: u64, base: int, p: PmmView) -> bool {
    &&& q % PAGE_SIZE == 0
    &&& base <= q
    &&& q + PAGE_SIZE <= p.next_free_page
    &&& q + PAGE_SIZE <= p.limit
}

/// The allocator's bookkeeping, for an allocator whose bump pointer started at
/// `base` and the set `handed` of pages handed out and not given back: the
/// bump pointer is page-aligned and at or above `base`; the free list holds no
/// page twice and no handed-out page; every free or handed-out page lies in
/// range.
pub open spec fn pmm_inv(p: PmmView, base: int, handed: Set<u64>) -> bool {
    &&& p.next_free_page % PAGE_SIZE == 0
    &&& base <= p.next_free_page
    &&& p.free_list.no_duplicates()
    &&& forall|i: int|
        0 <= i < p.free_list.len() ==> !handed.contains(#[trigger] p.free_list[i])
            && page_in_range(p.free_list[i], base, p)
    &&& forall|q: u64| #[trigger] handed.contains(q) ==> page_in_range(q, base, p)
}

/// A new allocator keeps its bookkeeping, with no page handed out.
pub proof fn law_new_keeps_bookkeeping(start: u64, limit: u64)
    requires
        page_round_up(start) <= u64::MAX,
    ensures
        pmm_inv(
            PmmView { next_free_page: page_round_up(start) as u64, free_list: seq![], limit },
            page_round_up(start),
            Set::empty(),
        ),
{
}

/// An allocation never hands out a page that is handed out already: the page
/// is page-aligned, at or above the first page, ends within the limit, and is
/// not in `handed`; the bookkeeping then holds with the page added.
pub proof fn law_alloc_hands_out_fresh_page(p: PmmView, base: int, handed: Set<u64>)
    requires
        pmm_inv(p, base, handed),
    ensures
        match alloc_result(p) {
            (p2, None) => p2 == p,
            (p2, Some(q)) => {
                &&& !handed.contains(q)
                &&& q % PAGE_SIZE == 0
                &&& base <= q
                &&& q + PAGE_SIZE <= p.limit
                &&& pmm_inv(p2, base, handed.insert(q))
            },
        },
{
    if can_alloc(p) {
        let (p2, a) = alloc_result(p);
        let q = a.unwrap();
        let handed2 = handed.insert(q);
        if p.free_list.len() > 0 {
            let n = p.free_list.len() - 1;
            assert(p.free_list[n as int] == q);
            assert forall|i: int|
                0 <= i < p2.free_list.len() implies !handed2.contains(#[trigger] p2.free_list[i])
                && page_in_range(p2.free_list[i], base, p2) by {
                assert(p2.free_list[i] == p.free_list[i]);
                assert(i != n);
            }
        } else {
            assert forall|q2: u64| #[trigger] handed2.contains(q2) implies page_in_range(
                q2,
                base,
                p2,
            ) by {
                if q2 != q {
                    assert(handed.contains(q2));
                }
            }
            assert(!handed.contains(q)) by {
                if handed.contains(q) {
                    assert(page_in_range(q, base, p));
                }
            }
        }
    }
}

/// Giving back a page that is handed out keeps the bookkeeping, with the page
/// no longer handed out.
pub proof fn law_dealloc_keeps_bookkeeping(p: PmmView, base: int, handed: Set<u64>, q: u64)
    requires
        pmm_inv(p, base, handed),
        handed.contains(q),
    ensures
        pmm_inv(dealloc_result(p, q), base, handed.remove(q)),
{
    let p2 = dealloc_result(p, q);
    let n = p.free_list.len();
    assert forall|i: int, j: int|
        0 <= i < p2.free_list.len() && 0 <= j < p2.free_list.len() && i != j implies p2.free_list[i]
        != p2.free_list[j] by {
        if i < n && j < n {
            assert(p2.free_list[i] == p.free_list[i]);
            assert(p2.free_list[j] == p.free_list[j]);
        } else if i < n {
            assert(!handed.contains(p.free_list[i]));
        } else if j < n {
            assert(!handed.contains(p.free_list[j]));
        }
    }
    assert forall|i: int|
        0 <= i < p2.free_list.len() implies !handed.remove(q).contains(#[trigger] p2.free_list[i])
        && page_in_range(p2.free_list[i], base, p2) by {
        if i < n {
            assert(p2.free_list[i] == p.free_list[i]);
        }
    }
}

} // verus!
