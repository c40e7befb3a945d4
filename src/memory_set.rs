use vstd::prelude::*;
use crate::frame_allocator::{
    PAGE_SIZE, all_allocated, free_count, is_lowest_free, lemma_free_count_update,
    lemma_free_count_zero,
};
use crate::phys::{PhysMemory, zero_page};

verus! {

/// Access rights of a memory area.
#[derive(Clone, Copy, PartialEq, Eq, Structural, Debug)]
pub struct MemoryAttr {
    pub user: bool,
    pub readonly: bool,
    pub execute: bool,
    /// Shared with another address space until a write makes a private copy.
    pub cow: bool,
    /// Pages are backed on first access instead of on insertion.
    pub lazy: bool,
}

/// A contiguous virtual range `[start_addr, end_addr)` with uniform rights.
#[derive(Clone, Copy, PartialEq, Eq, Structural, Debug)]
pub struct MemoryArea {
    pub start_addr: usize,
    pub end_addr: usize,
    pub attr: MemoryAttr,
}

/// One mapped page: virtual page number, backing frame, and whether the
/// hardware lets it be written.
#[derive(Clone, Copy, PartialEq, Eq, Structural, Debug)]
pub struct PageEntry {
    pub vpn: usize,
    pub frame: usize,
    pub writable: bool,
}

/// Why an operation on an address space did not happen.
#[derive(Clone, Copy, PartialEq, Eq, Structural, Debug)]
pub enum MemError {
    /// The area holds no byte: its end does not lie past its start.
    InvalidArea,
    /// The area overlaps one already in the address space.
    Overlap,
    /// No free frame is left.
    ResourceExhausted,
    /// The address is not mapped, or not in a way that a fault can repair.
    InvalidAccess,
}

/// `area` holds at least one byte.
pub open spec fn area_valid(area: MemoryArea) -> bool {
    area.start_addr < area.end_addr
}

/// The first virtual page that `area` touches.
pub open spec fn first_vpn(area: MemoryArea) -> int {
    area.start_addr as int / (PAGE_SIZE as int)
}

/// One past the last virtual page that a valid `area` touches.
pub open spec fn end_vpn(area: MemoryArea) -> int {
    (area.end_addr as int - 1) / (PAGE_SIZE as int) + 1
}

/// `area` holds byte `addr`.
pub open spec fn area_contains(area: MemoryArea, addr: int) -> bool {
    area.start_addr <= addr < area.end_addr
}

/// The two areas share at least one byte.
pub open spec fn areas_overlap(a: MemoryArea, b: MemoryArea) -> bool {
    a.start_addr < b.end_addr && b.start_addr < a.end_addr
}

/// A valid area touches at least one page, and the page of each of its
/// bytes is among those it touches.
pub proof fn lemma_area_pages(a: MemoryArea, x: int)
    requires
        area_valid(a),
    ensures
        first_vpn(a) < end_vpn(a),
        area_contains(a, x) ==> first_vpn(a) <= x / (PAGE_SIZE as int) < end_vpn(a),
{
    vstd::arithmetic::div_mod::lemma_div_is_ordered(a.start_addr as int, a.end_addr as int - 1, PAGE_SIZE as int);
    if area_contains(a, x) {
        vstd::arithmetic::div_mod::lemma_div_is_ordered(a.start_addr as int, x, PAGE_SIZE as int);
        vstd::arithmetic::div_mod::lemma_div_is_ordered(x, a.end_addr as int - 1, PAGE_SIZE as int);
    }
}

/// The page range of a valid area.
fn vpn_range(a: MemoryArea) -> (r: (usize, usize))
    requires
        area_valid(a),
    ensures
        r.0 == first_vpn(a),
        r.1 == end_vpn(a),
        r.0 < r.1,
{
    proof {
        lemma_area_pages(a, 0);
    }
    (a.start_addr / PAGE_SIZE, (a.end_addr - 1) / PAGE_SIZE + 1)
}

/// Some area of `areas` that may be written holds byte `addr`.
pub open spec fn writable_at(areas: Seq<MemoryArea>, addr: int) -> bool {
    exists|i: int| 0 <= i < areas.len() && area_contains(areas[i], addr) && !areas[i].attr.readonly
}

/// Some area of `areas` holds byte `addr`.
pub open spec fn readable_at(areas: Seq<MemoryArea>, addr: int) -> bool {
    exists|i: int| 0 <= i < areas.len() && area_contains(areas[i], addr)
}

/// Byte `addr` lies in an area, a writable one if `write`.
pub open spec fn allowed_at(areas: Seq<MemoryArea>, addr: int, write: bool) -> bool {
    if write {
        writable_at(areas, addr)
    } else {
        readable_at(areas, addr)
    }
}

/// Every byte of `[start, end)` lies in an area, a writable one if `write`.
pub open spec fn range_covered(areas: Seq<MemoryArea>, start: int, end: int, write: bool) -> bool {
    forall|a: int| start <= a < end ==> #[trigger] allowed_at(areas, a, write)
}

/// Some entry of `pages` maps virtual page `vpn`.
pub open spec fn vpn_mapped(pages: Seq<PageEntry>, vpn: int) -> bool {
    exists|j: int| 0 <= j < pages.len() && #[trigger] pages[j].vpn == vpn
}

/// Number of virtual pages in `[lo, hi)` that no entry of `pages` maps.
pub open spec fn unmapped_in(pages: Seq<PageEntry>, lo: int, hi: int) -> nat
    decreases hi - lo,
{
    if hi <= lo {
        0
    } else {
        unmapped_in(pages, lo, hi - 1) + if vpn_mapped(pages, hi - 1) {
            0nat
        } else {
            1nat
        }
    }
}

/// Appending an entry whose frame is free and whose page comes after all
/// entries from `base` on keeps those entries' frames distinct and their
/// pages increasing.
pub proof fn lemma_push_keeps_order(pages: Seq<PageEntry>, e: PageEntry, base: int, bits: Seq<bool>)
    requires
        0 <= base,
        forall|k1: int, k2: int|
            base <= k1 < k2 < pages.len() ==> #[trigger] pages[k1].frame != #[trigger] pages[k2].frame
                && pages[k1].vpn < pages[k2].vpn,
        forall|j: int| #![trigger pages[j]] base <= j < pages.len() ==> bits[pages[j].frame as int] && pages[j].vpn < e.vpn,
        !bits[e.frame as int],
    ensures
        forall|k1: int, k2: int|
            base <= k1 < k2 < pages.push(e).len() ==> #[trigger] pages.push(e)[k1].frame
                != #[trigger] pages.push(e)[k2].frame && pages.push(e)[k1].vpn < pages.push(e)[k2].vpn,
{
    assert forall|k1: int, k2: int| base <= k1 < k2 < pages.push(e).len() implies #[trigger] pages.push(e)[k1].frame
        != #[trigger] pages.push(e)[k2].frame && pages.push(e)[k1].vpn < pages.push(e)[k2].vpn by {
        assert(pages.push(e)[k1] == pages[k1]);
        if k2 < pages.len() {
            assert(pages.push(e)[k2] == pages[k2]);
            assert(pages[k1].frame != pages[k2].frame && pages[k1].vpn < pages[k2].vpn);
        } else {
            assert(pages.push(e)[k2] == e);
            assert(bits[pages[k1].frame as int] && pages[k1].vpn < e.vpn);
        }
    }
}

/// A shorter range holds no more unmapped pages.
pub proof fn lemma_unmapped_mono(pages: Seq<PageEntry>, lo: int, mid: int, hi: int)
    requires
        lo <= mid <= hi,
    ensures
        unmapped_in(pages, lo, mid) <= unmapped_in(pages, lo, hi),
    decreases hi - mid,
{
    if mid < hi {
        lemma_unmapped_mono(pages, lo, mid, hi - 1);
    }
}

/// Number of pages that inserting `area` beside `pages` backs at once:
/// those it touches that are not mapped yet, or none for an area whose
/// pages are mapped on first access.
pub open spec fn backed_count(pages: Seq<PageEntry>, area: MemoryArea) -> nat {
    if area.attr.lazy {
        0
    } else {
        unmapped_in(pages, first_vpn(area), end_vpn(area))
    }
}

/// Byte `addr` lies in an area whose pages are backed on first access.
pub open spec fn lazy_at(areas: Seq<MemoryArea>, addr: int) -> bool {
    exists|i: int| 0 <= i < areas.len() && area_contains(areas[i], addr) && areas[i].attr.lazy
}

/// Number of entries of `pages` backed by frame `f`.
pub open spec fn frame_uses(pages: Seq<PageEntry>, f: int) -> nat
    decreases pages.len(),
{
    if pages.len() == 0 {
        0
    } else {
        frame_uses(pages.drop_last(), f) + if pages.last().frame == f {
            1nat
        } else {
            0nat
        }
    }
}

/// A prefix of `pages` uses a frame no more often than the whole.
pub proof fn lemma_frame_uses_prefix(pages: Seq<PageEntry>, i: int, f: int)
    requires
        0 <= i <= pages.len(),
    ensures
        frame_uses(pages.take(i), f) <= frame_uses(pages, f),
    decreases pages.len(),
{
    if i < pages.len() {
        assert(pages.take(i) =~= pages.drop_last().take(i));
        lemma_frame_uses_prefix(pages.drop_last(), i, f);
    } else {
        assert(pages.take(i) =~= pages);
    }
}

/// Frame use counts after one entry of `pages` is replaced.
pub proof fn lemma_frame_uses_update(pages: Seq<PageEntry>, i: int, e: PageEntry, f: int)
    requires
        0 <= i < pages.len(),
    ensures
        frame_uses(pages.update(i, e), f) + (if pages[i].frame == f { 1int } else { 0int })
            == frame_uses(pages, f) + (if e.frame == f { 1int } else { 0int }),
    decreases pages.len(),
{
    let u = pages.update(i, e);
    if i == pages.len() - 1 {
        assert(u.drop_last() =~= pages.drop_last());
    } else {
        assert(u.drop_last() =~= pages.drop_last().update(i, e));
        lemma_frame_uses_update(pages.drop_last(), i, e, f);
    }
}

/// A page entry backed by `f` counts as a use of `f`.
pub proof fn lemma_frame_used(pages: Seq<PageEntry>, i: int)
    requires
        0 <= i < pages.len(),
    ensures
        frame_uses(pages, pages[i].frame as int) >= 1,
    decreases pages.len(),
{
    if i < pages.len() - 1 {
        lemma_frame_used(pages.drop_last(), i);
    }
}

/// Virtual page `vpn` lies in `area`.
pub open spec fn page_in_area(area: MemoryArea, vpn: int) -> bool {
    first_vpn(area) <= vpn < end_vpn(area)
}

/// Page `vpn` goes with area `ai` of `areas`: the area touches it and no
/// other area does.
pub open spec fn page_released(areas: Seq<MemoryArea>, ai: int, vpn: int) -> bool {
    &&& page_in_area(areas[ai], vpn)
    &&& forall|j: int| 0 <= j < areas.len() && j != ai ==> !page_in_area(#[trigger] areas[j], vpn)
}

/// The entries of `pages` that stay when area `ai` of `areas` goes, in order.
pub open spec fn pages_outside(pages: Seq<PageEntry>, areas: Seq<MemoryArea>, ai: int) -> Seq<PageEntry>
    decreases pages.len(),
{
    if pages.len() == 0 {
        pages
    } else if page_released(areas, ai, pages.last().vpn as int) {
        pages_outside(pages.drop_last(), areas, ai)
    } else {
        pages_outside(pages.drop_last(), areas, ai).push(pages.last())
    }
}

/// The entries of `pages` that go with area `ai` of `areas`, in order.
pub open spec fn pages_inside(pages: Seq<PageEntry>, areas: Seq<MemoryArea>, ai: int) -> Seq<PageEntry>
    decreases pages.len(),
{
    if pages.len() == 0 {
        pages
    } else if page_released(areas, ai, pages.last().vpn as int) {
        pages_inside(pages.drop_last(), areas, ai).push(pages.last())
    } else {
        pages_inside(pages.drop_last(), areas, ai)
    }
}

/// Splitting pages by an area splits each frame's use count.
pub proof fn lemma_frame_uses_split(pages: Seq<PageEntry>, areas: Seq<MemoryArea>, ai: int, f: int)
    ensures
        frame_uses(pages_outside(pages, areas, ai), f) + frame_uses(pages_inside(pages, areas, ai), f)
            == frame_uses(pages, f),
    decreases pages.len(),
{
    if pages.len() > 0 {
        lemma_frame_uses_split(pages.drop_last(), areas, ai, f);
        let o = pages_outside(pages.drop_last(), areas, ai);
        let n = pages_inside(pages.drop_last(), areas, ai);
        assert(o.push(pages.last()).drop_last() =~= o);
        assert(n.push(pages.last()).drop_last() =~= n);
    }
}

/// The pages inside an area, within a prefix, use a frame no more often than
/// those of the whole.
pub proof fn lemma_frame_uses_inside_prefix(pages: Seq<PageEntry>, areas: Seq<MemoryArea>, ai: int, i: int, f: int)
    requires
        0 <= i <= pages.len(),
    ensures
        frame_uses(pages_inside(pages.take(i), areas, ai), f) <= frame_uses(pages_inside(pages, areas, ai), f),
    decreases pages.len(),
{
    if i < pages.len() {
        assert(pages.take(i) =~= pages.drop_last().take(i));
        lemma_frame_uses_inside_prefix(pages.drop_last(), areas, ai, i, f);
        let n = pages_inside(pages.drop_last(), areas, ai);
        assert(n.push(pages.last()).drop_last() =~= n);
    } else {
        assert(pages.take(i) =~= pages);
    }
}

/// Every entry kept outside an area is an entry of the whole.
pub proof fn lemma_pages_outside_subset(pages: Seq<PageEntry>, areas: Seq<MemoryArea>, ai: int, j: int)
    requires
        0 <= j < pages_outside(pages, areas, ai).len(),
    ensures
        exists|k: int| 0 <= k < pages.len() && pages[k] == #[trigger] pages_outside(pages, areas, ai)[j],
    decreases pages.len(),
{
    if pages.len() > 0 {
        let o = pages_outside(pages.drop_last(), areas, ai);
        if j < o.len() {
            lemma_pages_outside_subset(pages.drop_last(), areas, ai, j);
            let k = choose|k: int| 0 <= k < pages.drop_last().len() && pages.drop_last()[k] == #[trigger] o[j];
            assert(pages[k] == pages_outside(pages, areas, ai)[j]);
        } else {
            assert(pages[pages.len() - 1] == pages_outside(pages, areas, ai)[j]);
        }
    }
}

/// Removing area `i` of `s0` with its pages gave `s1`, and the frames `m0`
/// became `m1`: each removed page dropped its reference to its frame, and a
/// frame left with none returned to the allocator.
pub open spec fn area_removed(s0: MemorySet, m0: PhysMemory, i: int, s1: MemorySet, m1: PhysMemory) -> bool {
    let area = s0.areas()[i];
    let gone = pages_inside(s0.pages(), s0.areas(), i);
    &&& s1.areas() == s0.areas().remove(i)
    &&& s1.pages() == pages_outside(s0.pages(), s0.areas(), i)
    &&& m1.capacity() == m0.capacity()
    &&& m1.data() == m0.data()
    &&& forall|f: int|
        0 <= f < m0.capacity() ==> {
            let u = frame_uses(gone, f);
            &&& #[trigger] m1.refs()[f] == m0.refs()[f] - u
            &&& m1.bits()[f] == (m0.bits()[f] && !(u > 0 && m0.refs()[f] == u))
        }
}

/// Byte `addr` as a system call may read it through `s`: it lies in an
/// area and its page is mapped.
pub open spec fn user_byte(s: MemorySet, mem: PhysMemory, addr: int) -> Option<u8> {
    let vpn = addr / (PAGE_SIZE as int);
    if readable_at(s.areas(), addr) && exists|i: int| first_page(s.pages(), vpn, i) {
        let i = choose|i: int| first_page(s.pages(), vpn, i);
        Some(mem.data()[s.pages()[i].frame as int][addr % (PAGE_SIZE as int)])
    } else {
        None
    }
}

/// The `n` bytes from `ptr` are readable and none is zero.
pub open spec fn nonzero_run(s: MemorySet, mem: PhysMemory, ptr: int, n: int) -> bool {
    forall|k: int|
        0 <= k < n ==> #[trigger] user_byte(s, mem, ptr + k) is Some && user_byte(s, mem, ptr + k)
            != Some(0u8)
}

/// An entry for `vpn` at index `k` means some entry for it comes first.
pub proof fn lemma_first_page_exists(pages: Seq<PageEntry>, vpn: int, k: int)
    requires
        0 <= k < pages.len(),
        pages[k].vpn == vpn,
    ensures
        exists|i: int| first_page(pages, vpn, i),
    decreases k,
{
    if exists|j: int| 0 <= j < k && pages[j].vpn == vpn {
        let j = choose|j: int| 0 <= j < k && pages[j].vpn == vpn;
        lemma_first_page_exists(pages, vpn, j);
    } else {
        assert(first_page(pages, vpn, k));
    }
}

/// A virtual page has at most one first entry.
pub proof fn lemma_first_page_unique(pages: Seq<PageEntry>, vpn: int, i: int, j: int)
    requires
        first_page(pages, vpn, i),
        first_page(pages, vpn, j),
    ensures
        i == j,
{
    if i < j {
        assert(pages[i].vpn == vpn);
    } else if j < i {
        assert(pages[j].vpn == vpn);
    }
}

/// `area` as it stands in both address spaces after a copy-on-write
/// clone: a writable area becomes copy-on-write.
pub open spec fn cow_area(area: MemoryArea) -> MemoryArea {
    MemoryArea {
        attr: MemoryAttr { cow: area.attr.cow || !area.attr.readonly, ..area.attr },
        ..area
    }
}

/// `e` with the hardware write permission taken away.
pub open spec fn read_only(e: PageEntry) -> PageEntry {
    PageEntry { writable: false, ..e }
}

/// Taking write permission away keeps every frame's use count.
pub proof fn lemma_frame_uses_read_only(pages: Seq<PageEntry>, f: int)
    ensures
        frame_uses(pages.map_values(|e: PageEntry| read_only(e)), f) == frame_uses(pages, f),
    decreases pages.len(),
{
    if pages.len() > 0 {
        assert(pages.map_values(|e: PageEntry| read_only(e)).drop_last() =~= pages.drop_last().map_values(
            |e: PageEntry| read_only(e),
        ));
        lemma_frame_uses_read_only(pages.drop_last(), f);
    }
}

/// Byte `addr` lies in a copy-on-write area of `areas`.
pub open spec fn cow_at(areas: Seq<MemoryArea>, addr: int) -> bool {
    exists|i: int| 0 <= i < areas.len() && area_contains(areas[i], addr) && areas[i].attr.cow
}

/// A copy of a list of areas.
fn copy_areas(v: &Vec<MemoryArea>) -> (r: Vec<MemoryArea>)
    ensures
        r@ == v@,
{
    let mut r: Vec<MemoryArea> = Vec::new();
    let mut i: usize = 0;
    while i < v.len()
        invariant
            i <= v@.len(),
            r@ == v@.take(i as int),
        decreases v@.len() - i,
    {
        r.push(v[i]);
        i = i + 1;
        assert(r@ =~= v@.take(i as int));
    }
    assert(r@ =~= v@);
    r
}

/// A copy of a list of page entries.
fn copy_pages(v: &Vec<PageEntry>) -> (r: Vec<PageEntry>)
    ensures
        r@ == v@,
{
    let mut r: Vec<PageEntry> = Vec::new();
    let mut i: usize = 0;
    while i < v.len()
        invariant
            i <= v@.len(),
            r@ == v@.take(i as int),
        decreases v@.len() - i,
    {
        r.push(v[i]);
        i = i + 1;
        assert(r@ =~= v@.take(i as int));
    }
    assert(r@ =~= v@);
    r
}

/// What repairing a write fault at byte `addr` does, taking address space
/// `s0` and frames `m0` to `s1` and `m1` with result `r`.
pub open spec fn cow_fault_result(
    s0: MemorySet,
    m0: PhysMemory,
    addr: int,
    s1: MemorySet,
    m1: PhysMemory,
    r: Result<(), MemError>,
) -> bool {
    let vpn = addr / (PAGE_SIZE as int);
    let ps = s0.pages();
    &&& s1.areas() == s0.areas()
    &&& r.is_err() ==> s1 == s0 && m1 == m0
    &&& !cow_at(s0.areas(), addr) ==> r == Err::<(), MemError>(MemError::InvalidAccess)
    &&& cow_at(s0.areas(), addr) && (forall|j: int| 0 <= j < ps.len() ==> #[trigger] ps[j].vpn != vpn)
        ==> r == Err::<(), MemError>(MemError::InvalidAccess)
    &&& forall|i: int|
        cow_at(s0.areas(), addr) && #[trigger] first_page(ps, vpn, i) ==> {
            let e = ps[i];
            let rc = m0.refs()[e.frame as int];
            &&& e.writable ==> r is Ok && s1 == s0 && m1 == m0
            &&& !e.writable && all_allocated(m0.bits()) ==> r == Err::<(), MemError>(
                MemError::ResourceExhausted,
            )
            &&& !e.writable && !all_allocated(m0.bits()) ==> {
                &&& r is Ok
                &&& exists|g: int|
                    #[trigger] is_lowest_free(m0.bits(), g) && {
                        &&& s1.pages() == ps.update(
                            i,
                            PageEntry { vpn: e.vpn, frame: g as usize, writable: true },
                        )
                        &&& m1.bits() == if rc == 1 {
                            m0.bits().update(g, true).update(e.frame as int, false)
                        } else {
                            m0.bits().update(g, true)
                        }
                        &&& m1.refs() == m0.refs().update(g, 1).update(e.frame as int, (rc - 1) as usize)
                        &&& m1.data() == m0.data().update(g, m0.data()[e.frame as int])
                    }
            }
        }
}

/// Index of the first entry of `pages` for virtual page `vpn`, if any.
pub open spec fn first_page(pages: Seq<PageEntry>, vpn: int, i: int) -> bool {
    &&& 0 <= i < pages.len()
    &&& pages[i].vpn == vpn
    &&& forall|j: int| 0 <= j < i ==> pages[j].vpn != vpn
}

/// An address space: non-overlapping areas and the pages that back them.
pub struct MemorySet {
    areas: Vec<MemoryArea>,
    pages: Vec<PageEntry>,
}

impl MemorySet {
    /// Its areas, in order of insertion.
    pub closed spec fn areas(&self) -> Seq<MemoryArea> {
        self.areas@
    }

    /// Its mapped pages.
    pub closed spec fn pages(&self) -> Seq<PageEntry> {
        self.pages@
    }

    /// Every area is valid and no two areas overlap.
    pub open spec fn wf(&self) -> bool {
        &&& forall|i: int| 0 <= i < self.areas().len() ==> area_valid(#[trigger] self.areas()[i])
        &&& forall|i: int, j: int|
            0 <= i < self.areas().len() && 0 <= j < self.areas().len() && i != j
                ==> !areas_overlap(#[trigger] self.areas()[i], #[trigger] self.areas()[j])
    }

    /// Every page is backed by a frame of `mem`, and `mem` counts at least
    /// as many references to each frame as this space holds.
    pub open spec fn backed_by(&self, mem: PhysMemory) -> bool {
        &&& forall|i: int| 0 <= i < self.pages().len() ==> #[trigger] self.pages()[i].frame < mem.capacity()
        &&& forall|f: int| 0 <= f < mem.capacity() ==> frame_uses(self.pages(), f) <= #[trigger] mem.refs()[f]
    }

    /// The address space holds no area that overlaps `area`.
    pub open spec fn disjoint_from(&self, area: MemoryArea) -> bool {
        forall|i: int| 0 <= i < self.areas().len() ==> !areas_overlap(#[trigger] self.areas()[i], area)
    }

    /// Entry `k` of the pages appended from index `base` by inserting
    /// `area`: a page that the area touches and no entry before `base`
    /// maps, backed by a frame that was free before, is now referenced
    /// once, and is cleared.
    pub open spec fn fresh_page(
        &self,
        base: int,
        k: int,
        area: MemoryArea,
        before: PhysMemory,
        after: PhysMemory,
    ) -> bool {
        let e = self.pages()[base + k];
        &&& page_in_area(area, e.vpn as int)
        &&& forall|j: int| 0 <= j < base ==> #[trigger] self.pages()[j].vpn != e.vpn
        &&& e.writable == !area.attr.readonly
        &&& 0 <= e.frame < before.capacity()
        &&& !before.bits()[e.frame as int]
        &&& before.refs()[e.frame as int] == 0
        &&& after.bits()[e.frame as int]
        &&& after.refs()[e.frame as int] == 1
        &&& after.data()[e.frame as int] == zero_page()
    }

    /// Frame `f` backs one of the pages from index `base` on.
    pub open spec fn uses_frame_from(&self, base: int, f: int) -> bool {
        exists|k: int| base <= k < self.pages().len() && #[trigger] self.pages()[k].frame == f
    }

    /// An empty address space.
    pub fn new() -> (r: MemorySet)
        ensures
            r.wf(),
            r.areas() == Seq::<MemoryArea>::empty(),
            r.pages() == Seq::<PageEntry>::empty(),
    {
        MemorySet { areas: Vec::new(), pages: Vec::new() }
    }

    /// Index of the area that holds byte `addr`.
    pub fn find_area(&self, addr: usize) -> (r: Option<usize>)
        requires
            self.wf(),
        ensures
            match r {
                None => !readable_at(self.areas(), addr as int),
                Some(i) => i < self.areas().len() && area_contains(self.areas()[i as int], addr as int),
            },
    {
        let mut i: usize = 0;
        while i < self.areas.len()
            invariant
                i <= self.areas().len(),
                forall|j: int| 0 <= j < i ==> !area_contains(#[trigger] self.areas()[j], addr as int),
            decreases self.areas().len() - i,
        {
            let a = self.areas[i];
            if a.start_addr <= addr && addr < a.end_addr {
                return Some(i);
            }
            i = i + 1;
        }
        None
    }

    /// Whether every byte of `[start, end)` lies in some area, one that may
    /// be written if `write`.
    fn check_range(&self, start: usize, end: usize, write: bool) -> (r: bool)
        requires
            self.wf(),
        ensures
            r == range_covered(self.areas(), start as int, end as int, write),
    {
        let mut cur: usize = start;
        while cur < end
            invariant
                self.wf(),
                start <= cur,
                range_covered(self.areas(), start as int, cur as int, write),
            decreases usize::MAX - cur,
        {
            match self.find_area(cur) {
                None => {
                    assert(!allowed_at(self.areas(), cur as int, write));
                    return false;
                },
                Some(i) => {
                    let a = self.areas[i];
                    if write && a.attr.readonly {
                        proof {
                            assert forall|k: int|
                                0 <= k < self.areas().len() && area_contains(self.areas()[k], cur as int)
                                implies self.areas()[k].attr.readonly by {
                                if k != i {
                                    lemma_area_pages(self.areas()[k], cur as int);
                                    lemma_area_pages(self.areas()[i as int], cur as int);
                                    assert(areas_overlap(self.areas()[k], self.areas()[i as int]));
                                }
                            }
                            assert(!allowed_at(self.areas(), cur as int, write));
                        }
                        return false;
                    }
                    proof {
                        assert forall|x: int| start <= x < a.end_addr implies #[trigger] allowed_at(
                            self.areas(),
                            x,
                            write,
                        ) by {
                            if x >= cur {
                                assert(area_contains(self.areas()[i as int], x));
                            }
                        }
                    }
                    cur = a.end_addr;
                },
            }
        }
        true
    }

    /// Index of the first page entry for virtual page `vpn`.
    pub fn find_page(&self, vpn: usize) -> (r: Option<usize>)
        ensures
            match r {
                None => forall|j: int| 0 <= j < self.pages().len() ==> #[trigger] self.pages()[j].vpn != vpn,
                Some(i) => first_page(self.pages(), vpn as int, i as int),
            },
    {
        let mut i: usize = 0;
        while i < self.pages.len()
            invariant
                i <= self.pages().len(),
                forall|j: int| 0 <= j < i ==> #[trigger] self.pages()[j].vpn != vpn,
            decreases self.pages().len() - i,
        {
            if self.pages[i].vpn == vpn {
                return Some(i);
            }
            i = i + 1;
        }
        None
    }

    /// The frame that backs byte `addr`, if its page is mapped.
    pub fn translate(&self, addr: usize) -> (r: Option<usize>)
        ensures
            match r {
                None => forall|j: int|
                    0 <= j < self.pages().len() ==> #[trigger] self.pages()[j].vpn != addr as int
                        / (PAGE_SIZE as int),
                Some(f) => exists|i: int|
                    first_page(self.pages(), addr as int / (PAGE_SIZE as int), i) && #[trigger] self.pages()[i].frame == f,
            },
    {
        match self.find_page(addr / PAGE_SIZE) {
            None => None,
            Some(i) => Some(self.pages[i].frame),
        }
    }

    /// Tears the address space down: each page drops its reference to its
    /// frame, and a frame that no mapping refers to any more returns to the
    /// allocator.
    #[verifier::spinoff_prover]
    #[verifier::rlimit(40)]
    pub fn destroy(self, mem: &mut PhysMemory)
        requires
            old(mem).wf(),
            self.backed_by(*old(mem)),
        ensures
            final(mem).wf(),
            final(mem).capacity() == old(mem).capacity(),
            final(mem).data() == old(mem).data(),
            forall|f: int|
                0 <= f < old(mem).capacity() ==> {
                    let u = frame_uses(self.pages(), f);
                    &&& #[trigger] final(mem).refs()[f] == old(mem).refs()[f] - u
                    &&& final(mem).bits()[f] == (old(mem).bits()[f] && !(u > 0 && old(mem).refs()[f]
                        == u))
                },
    {
        let ghost pages = self.pages();
        let mut i: usize = 0;
        while i < self.pages.len()
            invariant
                pages == self.pages(),
                self.backed_by(*old(mem)),
                i <= pages.len(),
                mem.wf(),
                mem.capacity() == old(mem).capacity(),
                mem.data() == old(mem).data(),
                forall|f: int|
                    0 <= f < old(mem).capacity() ==> {
                        let u = frame_uses(pages.take(i as int), f);
                        &&& #[trigger] mem.refs()[f] == old(mem).refs()[f] - u
                        &&& mem.bits()[f] == (old(mem).bits()[f] && !(u > 0 && old(mem).refs()[f] == u))
                    },
            decreases pages.len() - i,
        {
            let f = self.pages[i].frame;
            let ghost before = *mem;
            proof {
                assert(pages.take(i + 1).drop_last() =~= pages.take(i as int));
                assert(pages.take(i + 1).last() == pages[i as int]);
                lemma_frame_uses_prefix(pages, i + 1, f as int);
                assert(frame_uses(pages, f as int) <= old(mem).refs()[f as int]);
            }
            mem.release(f);
            proof {
                assert forall|g: int| 0 <= g < old(mem).capacity() implies {
                    let u = frame_uses(pages.take(i + 1), g);
                    &&& #[trigger] mem.refs()[g] == old(mem).refs()[g] - u
                    &&& mem.bits()[g] == (old(mem).bits()[g] && !(u > 0 && old(mem).refs()[g] == u))
                } by {
                    assert(pages.take(i + 1).drop_last() =~= pages.take(i as int));
                    assert(before.refs()[g] == old(mem).refs()[g] - frame_uses(pages.take(i as int), g));
                }
            }
            i = i + 1;
        }
        proof {
            assert(pages.take(i as int) =~= pages);
        }
    }

    /// Makes `self` and the returned address space share every frame:
    /// both hold the same areas, with each writable area turned
    /// copy-on-write, and the same pages, none of them writable, and each
    /// frame gains one reference per page that it backs.
    #[verifier::spinoff_prover]
    #[verifier::rlimit(40)]
    pub fn clone_cow(&mut self, mem: &mut PhysMemory) -> (child: MemorySet)
        requires
            old(self).wf(),
            old(mem).wf(),
            old(self).backed_by(*old(mem)),
            forall|f: int|
                0 <= f < old(mem).capacity() ==> #[trigger] old(mem).refs()[f] + frame_uses(
                    old(self).pages(),
                    f,
                ) <= usize::MAX,
        ensures
            final(self).wf(),
            child.wf(),
            final(mem).wf(),
            final(self).areas() == old(self).areas().map_values(|a: MemoryArea| cow_area(a)),
            child.areas() == final(self).areas(),
            final(self).pages() == old(self).pages().map_values(|e: PageEntry| read_only(e)),
            child.pages() == final(self).pages(),
            final(mem).capacity() == old(mem).capacity(),
            final(mem).bits() == old(mem).bits(),
            final(mem).data() == old(mem).data(),
            forall|f: int|
                0 <= f < old(mem).capacity() ==> #[trigger] final(mem).refs()[f] == old(mem).refs()[f]
                    + frame_uses(old(self).pages(), f),
            final(self).backed_by(*final(mem)),
            child.backed_by(*final(mem)),
    {
        let ghost pages = self.pages();
        let mut new_pages: Vec<PageEntry> = Vec::new();
        let mut i: usize = 0;
        while i < self.pages.len()
            invariant
                pages == self.pages(),
                self.backed_by(*old(mem)),
                forall|f: int|
                    0 <= f < old(mem).capacity() ==> #[trigger] old(mem).refs()[f] + frame_uses(
                        pages,
                        f,
                    ) <= usize::MAX,
                i <= pages.len(),
                new_pages@ == pages.take(i as int).map_values(|e: PageEntry| read_only(e)),
                mem.wf(),
                mem.capacity() == old(mem).capacity(),
                mem.bits() == old(mem).bits(),
                mem.data() == old(mem).data(),
                forall|f: int|
                    0 <= f < old(mem).capacity() ==> #[trigger] mem.refs()[f] == old(mem).refs()[f]
                        + frame_uses(pages.take(i as int), f),
            decreases pages.len() - i,
        {
            let e = self.pages[i];
            let f = e.frame;
            let ghost before = *mem;
            proof {
                assert(pages.take(i + 1).drop_last() =~= pages.take(i as int));
                assert(pages.take(i + 1).last() == pages[i as int]);
                lemma_frame_uses_prefix(pages, i + 1, f as int);
                lemma_frame_used(pages, i as int);
                assert(old(mem).refs()[f as int] + frame_uses(pages, f as int) <= usize::MAX);
            }
            mem.share(f);
            new_pages.push(PageEntry { vpn: e.vpn, frame: f, writable: false });
            proof {
                assert(new_pages@ =~= pages.take(i + 1).map_values(|e: PageEntry| read_only(e)));
                assert forall|g: int| 0 <= g < old(mem).capacity() implies #[trigger] mem.refs()[g]
                    == old(mem).refs()[g] + frame_uses(pages.take(i + 1), g) by {
                    assert(pages.take(i + 1).drop_last() =~= pages.take(i as int));
                    assert(before.refs()[g] == old(mem).refs()[g] + frame_uses(pages.take(i as int), g));
                }
            }
            i = i + 1;
        }
        proof {
            assert(pages.take(i as int) =~= pages);
        }
        let mut areas: Vec<MemoryArea> = Vec::new();
        let mut j: usize = 0;
        while j < self.areas.len()
            invariant
                j <= self.areas().len(),
                areas@ == self.areas().take(j as int).map_values(|a: MemoryArea| cow_area(a)),
            decreases self.areas().len() - j,
        {
            let a = self.areas[j];
            let attr = MemoryAttr { cow: a.attr.cow || !a.attr.readonly, ..a.attr };
            areas.push(MemoryArea { attr, ..a });
            proof {
                assert(areas@ =~= self.areas().take(j + 1).map_values(|a: MemoryArea| cow_area(a)));
            }
            j = j + 1;
        }
        proof {
            assert(self.areas().take(j as int) =~= self.areas());
        }
        let child = MemorySet { areas: copy_areas(&areas), pages: copy_pages(&new_pages) };
        self.areas = areas;
        self.pages = new_pages;
        proof {
            assert forall|f: int| 0 <= f < mem.capacity() implies frame_uses(self.pages(), f)
                <= #[trigger] mem.refs()[f] by {
                lemma_frame_uses_read_only(pages, f);
            }
        }
        child
    }

    /// Repairs a write fault at byte `addr` of a copy-on-write area. The
    /// read-only page is given the lowest free frame, writable and holding a
    /// copy of its old frame, and the old frame loses one reference; it
    /// returns to the allocator when none is left. Fails, changing nothing,
    /// when `addr` lies in no area, in an area that is not copy-on-write, or
    /// in a page not mapped, and when no frame is free.
    #[verifier::spinoff_prover]
    #[verifier::rlimit(40)]
    pub fn resolve_cow_fault(&mut self, mem: &mut PhysMemory, addr: usize) -> (r: Result<(), MemError>)
        requires
            old(self).wf(),
            old(mem).wf(),
            old(self).backed_by(*old(mem)),
        ensures
            final(self).wf(),
            final(mem).wf(),
            final(self).backed_by(*final(mem)),
            final(self).areas() == old(self).areas(),
            cow_fault_result(*old(self), *old(mem), addr as int, *final(self), *final(mem), r),
    {
        let ai = match self.find_area(addr) {
            None => {
                return Err(MemError::InvalidAccess);
            },
            Some(ai) => ai,
        };
        if !self.areas[ai].attr.cow {
            proof {
                assert forall|k: int| 0 <= k < self.areas().len() && area_contains(self.areas()[k], addr as int)
                    implies !self.areas()[k].attr.cow by {
                    if k != ai {
                        lemma_area_pages(self.areas()[k], addr as int);
                        lemma_area_pages(self.areas()[ai as int], addr as int);
                        assert(areas_overlap(self.areas()[k], self.areas()[ai as int]));
                    }
                }
            }
            return Err(MemError::InvalidAccess);
        }
        let vpn = addr / PAGE_SIZE;
        let i = match self.find_page(vpn) {
            None => {
                return Err(MemError::InvalidAccess);
            },
            Some(i) => i,
        };
        let e = self.pages[i];
        proof {
            assert forall|k: int| #[trigger] first_page(self.pages(), vpn as int, k) implies k == i by {
                if k < i {
                    assert(self.pages()[k].vpn != vpn);
                } else if k > i {
                    assert(self.pages()[i as int].vpn != vpn);
                }
            }
        }
        if e.writable {
            return Ok(());
        }
        let old_frame = e.frame;
        proof {
            lemma_frame_used(self.pages(), i as int);
        }
        let rc = mem.ref_count(old_frame);
        let g = match mem.map_new_frame() {
            None => {
                return Err(MemError::ResourceExhausted);
            },
            Some(g) => g,
        };
        mem.copy_frame(old_frame, g);
        mem.release(old_frame);
        let ne = PageEntry { vpn: e.vpn, frame: g, writable: true };
        self.pages.set(i, ne);
        proof {
            assert(mem.refs() =~= old(mem).refs().update(g as int, 1).update(old_frame as int, (rc - 1) as usize));
            assert(mem.data() =~= old(mem).data().update(g as int, old(mem).data()[old_frame as int]));
            assert(old(mem).bits()[old_frame as int]);
            assert(frame_uses(old(self).pages(), g as int) == 0);
            assert forall|f: int| 0 <= f < mem.capacity() implies frame_uses(self.pages(), f)
                <= #[trigger] mem.refs()[f] by {
                lemma_frame_uses_update(old(self).pages(), i as int, ne, f);
            }
            assert(is_lowest_free(old(mem).bits(), g as int));
        }
        Ok(())
    }

    /// Stores `value` at byte `addr` through this address space. Fails with
    /// `InvalidAccess`, changing nothing, where the page is unmapped or the
    /// hardware would not let it be written (a write fault).
    pub fn write_byte(&self, mem: &mut PhysMemory, addr: usize, value: u8) -> (r: Result<(), MemError>)
        requires
            old(mem).wf(),
            self.backed_by(*old(mem)),
        ensures
            final(mem).wf(),
            (forall|i: int| #[trigger] first_page(self.pages(), addr as int / (PAGE_SIZE as int), i)
                ==> !self.pages()[i].writable) ==> r == Err::<(), MemError>(MemError::InvalidAccess)
                && *final(mem) == *old(mem),
            forall|i: int|
                #[trigger] first_page(self.pages(), addr as int / (PAGE_SIZE as int), i)
                    && self.pages()[i].writable ==> {
                    let f = self.pages()[i].frame as int;
                    &&& r is Ok
                    &&& final(mem).bits() == old(mem).bits()
                    &&& final(mem).refs() == old(mem).refs()
                    &&& final(mem).data() == old(mem).data().update(
                        f,
                        old(mem).data()[f].update(addr as int % (PAGE_SIZE as int), value),
                    )
                },
    {
        match self.find_page(addr / PAGE_SIZE) {
            None => Err(MemError::InvalidAccess),
            Some(i) => {
                let e = self.pages[i];
                proof {
                    assert forall|k: int| #[trigger] first_page(self.pages(), addr as int / (PAGE_SIZE as int), k)
                        implies k == i by {
                        if k < i {
                            assert(self.pages()[k].vpn != addr / PAGE_SIZE);
                        } else if k > i {
                            assert(self.pages()[i as int].vpn != addr / PAGE_SIZE);
                        }
                    }
                }
                if !e.writable {
                    return Err(MemError::InvalidAccess);
                }
                mem.write(e.frame, addr % PAGE_SIZE, value);
                Ok(())
            },
        }
    }

    /// Byte `addr` as read through this address space, or `None` where its
    /// page is unmapped.
    pub fn read_byte(&self, mem: &PhysMemory, addr: usize) -> (r: Option<u8>)
        requires
            mem.wf(),
            self.backed_by(*mem),
        ensures
            (forall|j: int| 0 <= j < self.pages().len() ==> #[trigger] self.pages()[j].vpn != addr as int
                / (PAGE_SIZE as int)) ==> r is None,
            forall|i: int|
                #[trigger] first_page(self.pages(), addr as int / (PAGE_SIZE as int), i) ==> r == Some(
                    mem.data()[self.pages()[i].frame as int][addr as int % (PAGE_SIZE as int)],
                ),
    {
        match self.find_page(addr / PAGE_SIZE) {
            None => None,
            Some(i) => {
                proof {
                    assert forall|k: int| #[trigger] first_page(self.pages(), addr as int / (PAGE_SIZE as int), k)
                        implies k == i by {
                        if k < i {
                            assert(self.pages()[k].vpn != addr / PAGE_SIZE);
                        } else if k > i {
                            assert(self.pages()[i as int].vpn != addr / PAGE_SIZE);
                        }
                    }
                }
                Some(mem.read(self.pages[i].frame, addr % PAGE_SIZE))
            },
        }
    }

    /// Whether the `len` bytes from `ptr` may all be read.
    pub fn check_array(&self, ptr: usize, len: usize) -> (r: bool)
        requires
            self.wf(),
        ensures
            r == (ptr + len <= usize::MAX && range_covered(self.areas(), ptr as int, ptr + len, false)),
    {
        if len > usize::MAX - ptr {
            return false;
        }
        self.is_readable(ptr, ptr + len)
    }

    /// Whether the `len` bytes from `ptr` may all be written.
    pub fn check_mut_array(&self, ptr: usize, len: usize) -> (r: bool)
        requires
            self.wf(),
        ensures
            r == (ptr + len <= usize::MAX && range_covered(self.areas(), ptr as int, ptr + len, true)),
    {
        if len > usize::MAX - ptr {
            return false;
        }
        self.is_writable(ptr, ptr + len)
    }

    /// Index of the area that starts at `start_addr`.
    fn find_area_at(&self, start_addr: usize) -> (r: Option<usize>)
        ensures
            match r {
                None => forall|j: int| 0 <= j < self.areas().len() ==> #[trigger] self.areas()[j].start_addr != start_addr,
                Some(i) => i < self.areas().len() && self.areas()[i as int].start_addr == start_addr,
            },
    {
        let mut i: usize = 0;
        while i < self.areas.len()
            invariant
                i <= self.areas().len(),
                forall|j: int| 0 <= j < i ==> #[trigger] self.areas()[j].start_addr != start_addr,
            decreases self.areas().len() - i,
        {
            if self.areas[i].start_addr == start_addr {
                return Some(i);
            }
            i = i + 1;
        }
        None
    }

    /// Removes the area that starts at `start_addr` with the pages that it
    /// alone touches (an edge page shared with a neighbour stays); each such
    /// page drops its reference to its frame, and a frame that no mapping
    /// refers to any more returns to the allocator. Fails with
    /// `InvalidArea`, changing nothing, when no area starts there.
    #[verifier::spinoff_prover]
    #[verifier::rlimit(40)]
    pub fn remove_area(&mut self, start_addr: usize, mem: &mut PhysMemory) -> (r: Result<(), MemError>)
        requires
            old(self).wf(),
            old(mem).wf(),
            old(self).backed_by(*old(mem)),
        ensures
            final(self).wf(),
            final(mem).wf(),
            final(self).backed_by(*final(mem)),
            (forall|j: int| 0 <= j < old(self).areas().len() ==> #[trigger] old(self).areas()[j].start_addr
                != start_addr) ==> r == Err::<(), MemError>(MemError::InvalidArea) && *final(self)
                == *old(self) && *final(mem) == *old(mem),
            forall|i: int|
                0 <= i < old(self).areas().len() && #[trigger] old(self).areas()[i].start_addr == start_addr
                    ==> r is Ok && area_removed(*old(self), *old(mem), i, *final(self), *final(mem)),
    {
        let ai = match self.find_area_at(start_addr) {
            None => {
                return Err(MemError::InvalidArea);
            },
            Some(ai) => ai,
        };
        let area = self.areas[ai];
        proof {
            assert forall|k: int|
                0 <= k < old(self).areas().len() && #[trigger] old(self).areas()[k].start_addr == start_addr
                implies k == ai by {
                if k != ai {
                    lemma_area_pages(old(self).areas()[k], 0);
                    lemma_area_pages(old(self).areas()[ai as int], 0);
                    assert(areas_overlap(old(self).areas()[k], old(self).areas()[ai as int]));
                }
            }
        }
        let (first, last) = vpn_range(area);
        let ghost pages = self.pages();
        let ghost areas0 = self.areas();
        assert(pages == old(self).pages());
        assert(area == old(self).areas()[ai as int]);
        let mut kept: Vec<PageEntry> = Vec::new();
        let mut i: usize = 0;
        while i < self.pages.len()
            invariant
                pages == self.pages(),
                areas0 == self.areas(),
                areas0 == old(self).areas(),
                self.wf(),
                ai < areas0.len(),
                area == areas0[ai as int],
                self.backed_by(*old(mem)),
                first == first_vpn(area),
                last == end_vpn(area),
                i <= pages.len(),
                kept@ == pages_outside(pages.take(i as int), areas0, ai as int),
                mem.wf(),
                mem.capacity() == old(mem).capacity(),
                mem.data() == old(mem).data(),
                forall|f: int|
                    0 <= f < old(mem).capacity() ==> {
                        let u = frame_uses(pages_inside(pages.take(i as int), areas0, ai as int), f);
                        &&& #[trigger] mem.refs()[f] == old(mem).refs()[f] - u
                        &&& mem.bits()[f] == (old(mem).bits()[f] && !(u > 0 && old(mem).refs()[f] == u))
                    },
            decreases pages.len() - i,
        {
            let e = self.pages[i];
            let ghost before = *mem;
            proof {
                assert(pages.take(i + 1).drop_last() =~= pages.take(i as int));
                assert(pages.take(i + 1).last() == pages[i as int]);
            }
            let touched = self.touched_by_other(ai, e.vpn);
            proof {
                if !touched {
                    assert forall|j: int| 0 <= j < areas0.len() && j != ai implies !page_in_area(
                        #[trigger] areas0[j],
                        e.vpn as int,
                    ) by {}
                } else {
                    let j = choose|j: int| 0 <= j < areas0.len() && j != ai && page_in_area(#[trigger] areas0[j], e.vpn as int);
                    assert(!page_released(areas0, ai as int, e.vpn as int));
                }
                assert(page_released(areas0, ai as int, e.vpn as int) == (first <= e.vpn && e.vpn < last && !touched));
            }
            if first <= e.vpn && e.vpn < last && !touched {
                proof {
                    let t1 = pages.take(i + 1);
                    let t0 = pages.take(i as int);
                    assert(pages_inside(t1, areas0, ai as int) == pages_inside(t0, areas0, ai as int).push(e));
                    assert(pages_inside(t1, areas0, ai as int).drop_last() =~= pages_inside(t0, areas0, ai as int));
                    lemma_frame_uses_prefix(pages, i + 1, e.frame as int);
                    lemma_frame_uses_split(t1, areas0, ai as int, e.frame as int);
                    lemma_frame_uses_split(pages, areas0, ai as int, e.frame as int);
                    lemma_frame_uses_inside_prefix(pages, areas0, ai as int, i + 1, e.frame as int);
                    assert(frame_uses(pages, e.frame as int) <= old(mem).refs()[e.frame as int]);
                }
                mem.release(e.frame);
                proof {
                    assert forall|g: int| 0 <= g < old(mem).capacity() implies {
                        let u = frame_uses(pages_inside(pages.take(i + 1), areas0, ai as int), g);
                        &&& #[trigger] mem.refs()[g] == old(mem).refs()[g] - u
                        &&& mem.bits()[g] == (old(mem).bits()[g] && !(u > 0 && old(mem).refs()[g] == u))
                    } by {
                        assert(pages_inside(pages.take(i + 1), areas0, ai as int).drop_last() =~= pages_inside(
                            pages.take(i as int), areas0, ai as int,
                        ));
                        assert(before.refs()[g] == old(mem).refs()[g] - frame_uses(
                            pages_inside(pages.take(i as int), areas0, ai as int),
                            g,
                        ));
                    }
                }
            } else {
                kept.push(e);
                proof {
                    assert(pages_inside(pages.take(i + 1), areas0, ai as int) == pages_inside(pages.take(i as int), areas0, ai as int));
                }
            }
            i = i + 1;
        }
        proof {
            assert(pages.take(i as int) =~= pages);
        }
        self.pages = kept;
        self.areas.remove(ai);
        proof {
            assert forall|f: int| 0 <= f < mem.capacity() implies frame_uses(self.pages(), f)
                <= #[trigger] mem.refs()[f] by {
                lemma_frame_uses_split(pages, areas0, ai as int, f);
            }
            assert forall|j: int| 0 <= j < self.pages().len() implies #[trigger] self.pages()[j].frame
                < mem.capacity() by {
                lemma_pages_outside_subset(pages, areas0, ai as int, j);
            }
            assert forall|x: int, y: int|
                0 <= x < self.areas().len() && 0 <= y < self.areas().len() && x != y
                    implies !areas_overlap(#[trigger] self.areas()[x], #[trigger] self.areas()[y]) by {
                let ox = if x < ai { x } else { x + 1 };
                let oy = if y < ai { y } else { y + 1 };
                assert(self.areas()[x] == old(self).areas()[ox]);
                assert(self.areas()[y] == old(self).areas()[oy]);
            }
            assert forall|x: int| 0 <= x < self.areas().len() implies area_valid(#[trigger] self.areas()[x]) by {
                let ox = if x < ai { x } else { x + 1 };
                assert(self.areas()[x] == old(self).areas()[ox]);
            }
            assert forall|f: int| 0 <= f < old(mem).capacity() implies {
                let u = frame_uses(pages_inside(pages, areas0, ai as int), f);
                &&& #[trigger] mem.refs()[f] == old(mem).refs()[f] - u
                &&& mem.bits()[f] == (old(mem).bits()[f] && !(u > 0 && old(mem).refs()[f] == u))
            } by {
                assert(mem.refs()[f] == old(mem).refs()[f] - frame_uses(pages_inside(pages.take(i as int), areas0, ai as int), f));
            }
            assert(pages == old(self).pages());
            assert(areas0 == old(self).areas());
            assert(self.areas() == old(self).areas().remove(ai as int));
            assert(self.pages() == pages_outside(old(self).pages(), old(self).areas(), ai as int));
            assert(mem.capacity() == old(mem).capacity());
            assert(mem.data() == old(mem).data());
            assert forall|f: int| 0 <= f < old(mem).capacity() implies {
                let u = frame_uses(pages_inside(old(self).pages(), old(self).areas(), ai as int), f);
                &&& #[trigger] mem.refs()[f] == old(mem).refs()[f] - u
                &&& mem.bits()[f] == (old(mem).bits()[f] && !(u > 0 && old(mem).refs()[f] == u))
            } by {
                assert(mem.refs()[f] == old(mem).refs()[f] - frame_uses(pages_inside(pages, areas0, ai as int), f));
            }
            assert(area_removed(*old(self), *old(mem), ai as int, *self, *mem));
        }
        Ok(())
    }

    /// Copies the zero-terminated string at user address `ptr`, without its
    /// terminator. `None` when a byte before the terminator cannot be read.
    #[verifier::spinoff_prover]
    #[verifier::rlimit(40)]
    pub fn check_and_clone_cstr(&self, mem: &PhysMemory, ptr: usize) -> (r: Option<Vec<u8>>)
        requires
            self.wf(),
            mem.wf(),
            self.backed_by(*mem),
        ensures
            match r {
                Some(v) => {
                    &&& ptr + v@.len() <= usize::MAX
                    &&& nonzero_run(*self, *mem, ptr as int, v@.len() as int)
                    &&& forall|k: int| 0 <= k < v@.len() ==> user_byte(*self, *mem, ptr + k) == Some(#[trigger] v@[k])
                    &&& user_byte(*self, *mem, ptr + v@.len()) == Some(0u8)
                },
                None => exists|n: int|
                    #![trigger nonzero_run(*self, *mem, ptr as int, n)]
                    0 <= n && nonzero_run(*self, *mem, ptr as int, n) && (ptr + n > usize::MAX
                        || user_byte(*self, *mem, ptr + n) is None),
            },
    {
        let mut out: Vec<u8> = Vec::new();
        let mut addr: usize = ptr;
        loop
            invariant
                self.wf(),
                mem.wf(),
                self.backed_by(*mem),
                addr == ptr + out@.len(),
                nonzero_run(*self, *mem, ptr as int, out@.len() as int),
                forall|k: int| 0 <= k < out@.len() ==> user_byte(*self, *mem, ptr + k) == Some(#[trigger] out@[k]),
            decreases usize::MAX - addr,
        {
            let ghost n = out@.len() as int;
            let b = match self.find_area(addr) {
                None => {
                    return None;
                },
                Some(_) => match self.read_byte(mem, addr) {
                    None => {
                        proof {
                            let vpn = addr as int / (PAGE_SIZE as int);
                            if exists|i: int| first_page(self.pages(), vpn, i) {
                                let i = choose|i: int| first_page(self.pages(), vpn, i);
                                assert(self.pages()[i].vpn == vpn);
                            }
                        }
                        return None;
                    },
                    Some(b) => b,
                },
            };
            proof {
                let vpn = addr as int / (PAGE_SIZE as int);
                assert(readable_at(self.areas(), addr as int));
                if !exists|i: int| first_page(self.pages(), vpn, i) {
                    assert forall|j: int| 0 <= j < self.pages().len() implies #[trigger] self.pages()[j].vpn != vpn by {
                        if self.pages()[j].vpn == vpn {
                            lemma_first_page_exists(self.pages(), vpn, j);
                        }
                    }
                }
                let i = choose|i: int| first_page(self.pages(), vpn, i);
                assert(user_byte(*self, *mem, addr as int) == Some(b));
            }
            if b == 0 {
                return Some(out);
            }
            if addr == usize::MAX {
                proof {
                    assert(nonzero_run(*self, *mem, ptr as int, n + 1));
                }
                return None;
            }
            out.push(b);
            addr = addr + 1;
            proof {
                assert forall|k: int| 0 <= k < out@.len() implies user_byte(*self, *mem, ptr + k) == Some(
                    #[trigger] out@[k],
                ) by {
                    if k == n {
                        assert(ptr + k == addr - 1);
                    }
                }
            }
        }
    }

    /// Whether an area other than area `i` touches page `vpn`.
    fn touched_by_other(&self, i: usize, vpn: usize) -> (r: bool)
        requires
            self.wf(),
        ensures
            r == exists|j: int|
                0 <= j < self.areas().len() && j != i && page_in_area(#[trigger] self.areas()[j], vpn as int),
    {
        let mut j: usize = 0;
        while j < self.areas.len()
            invariant
                self.wf(),
                j <= self.areas().len(),
                forall|k: int| 0 <= k < j && k != i ==> !page_in_area(#[trigger] self.areas()[k], vpn as int),
            decreases self.areas().len() - j,
        {
            if j != i {
                let (first, last) = vpn_range(self.areas[j]);
                if first <= vpn && vpn < last {
                    return true;
                }
            }
            j = j + 1;
        }
        false
    }

    /// Backs the page of byte `addr` on its first access: when `addr` lies
    /// in a lazily backed area and its page is not mapped, the page gets the
    /// lowest free frame, cleared, writable unless the area is read-only.
    /// Fails, changing nothing, with `InvalidAccess` when `addr` lies in no
    /// such area or its page is mapped already, and with `ResourceExhausted`
    /// when no frame is free.
    #[verifier::spinoff_prover]
    #[verifier::rlimit(40)]
    pub fn map_lazy_page(&mut self, mem: &mut PhysMemory, addr: usize) -> (r: Result<(), MemError>)
        requires
            old(self).wf(),
            old(mem).wf(),
            old(self).backed_by(*old(mem)),
        ensures
            final(self).wf(),
            final(mem).wf(),
            final(self).backed_by(*final(mem)),
            final(self).areas() == old(self).areas(),
            r.is_err() ==> *final(self) == *old(self) && *final(mem) == *old(mem),
            ({
                let vpn = addr as int / (PAGE_SIZE as int);
                let ps = old(self).pages();
                let unmapped = forall|j: int| 0 <= j < ps.len() ==> #[trigger] ps[j].vpn != vpn;
                &&& !lazy_at(old(self).areas(), addr as int) ==> r == Err::<(), MemError>(MemError::InvalidAccess)
                &&& !unmapped ==> r == Err::<(), MemError>(MemError::InvalidAccess)
                &&& lazy_at(old(self).areas(), addr as int) && unmapped && all_allocated(old(mem).bits())
                    ==> r == Err::<(), MemError>(MemError::ResourceExhausted)
                &&& lazy_at(old(self).areas(), addr as int) && unmapped && !all_allocated(old(mem).bits())
                    ==> r is Ok && exists|g: int|
                    #[trigger] is_lowest_free(old(mem).bits(), g) && {
                        &&& final(self).pages().len() == ps.len() + 1
                        &&& final(self).pages().drop_last() == ps
                        &&& final(self).pages().last().vpn == vpn
                        &&& final(self).pages().last().frame == g
                        &&& forall|i: int|
                            0 <= i < old(self).areas().len() && area_contains(
                                #[trigger] old(self).areas()[i],
                                addr as int,
                            ) ==> final(self).pages().last().writable == !old(self).areas()[i].attr.readonly
                        &&& final(mem).bits() == old(mem).bits().update(g, true)
                        &&& final(mem).refs() == old(mem).refs().update(g, 1)
                        &&& final(mem).data() == old(mem).data().update(g, zero_page())
                    }
            }),
    {
        let ai = match self.find_area(addr) {
            None => {
                return Err(MemError::InvalidAccess);
            },
            Some(ai) => ai,
        };
        let a = self.areas[ai];
        proof {
            assert forall|k: int| 0 <= k < self.areas().len() && area_contains(self.areas()[k], addr as int)
                implies k == ai by {
                if k != ai {
                    lemma_area_pages(self.areas()[k], addr as int);
                    lemma_area_pages(self.areas()[ai as int], addr as int);
                    assert(areas_overlap(self.areas()[k], self.areas()[ai as int]));
                }
            }
        }
        if !a.attr.lazy {
            return Err(MemError::InvalidAccess);
        }
        let vpn = addr / PAGE_SIZE;
        match self.find_page(vpn) {
            Some(_) => {
                return Err(MemError::InvalidAccess);
            },
            None => {},
        }
        let ghost before = *mem;
        let g = match mem.map_new_frame() {
            None => {
                return Err(MemError::ResourceExhausted);
            },
            Some(g) => g,
        };
        let e = PageEntry { vpn, frame: g, writable: !a.attr.readonly };
        let ghost old_pages = self.pages();
        self.pages.push(e);
        proof {
            assert(self.pages().drop_last() =~= old_pages);
            assert(frame_uses(old_pages, g as int) <= before.refs()[g as int]);
            assert forall|f: int| 0 <= f < mem.capacity() implies frame_uses(self.pages(), f)
                <= #[trigger] mem.refs()[f] by {
                assert(frame_uses(old_pages, f) <= before.refs()[f]);
            }
            assert(is_lowest_free(old(mem).bits(), g as int));
        }
        Ok(())
    }

    /// Whether `area` overlaps no area of this address space.
    fn no_overlap(&self, area: MemoryArea) -> (r: bool)
        requires
            self.wf(),
            area_valid(area),
        ensures
            r == self.disjoint_from(area),
    {
        let mut i: usize = 0;
        while i < self.areas.len()
            invariant
                i <= self.areas().len(),
                forall|j: int| 0 <= j < i ==> !areas_overlap(#[trigger] self.areas()[j], area),
            decreases self.areas().len() - i,
        {
            let a = self.areas[i];
            if a.start_addr < area.end_addr && area.start_addr < a.end_addr {
                assert(areas_overlap(self.areas()[i as int], area));
                return false;
            }
            i = i + 1;
        }
        true
    }

    /// Inserts `area`. Unless the area is backed lazily, each page that it
    /// touches and that is not mapped yet (a neighbour may share an edge
    /// page) is backed at once with a fresh, cleared frame. Refused when the
    /// area is empty or reversed, when it shares a byte with an area already
    /// present, or when fewer frames are free than it needs at once; a
    /// refusal changes nothing.
    #[verifier::spinoff_prover]
    #[verifier::rlimit(40)]
    pub fn push(&mut self, area: MemoryArea, mem: &mut PhysMemory) -> (r: Result<(), MemError>)
        requires
            old(self).wf(),
            old(mem).wf(),
            old(self).backed_by(*old(mem)),
        ensures
            final(self).wf(),
            final(mem).wf(),
            final(self).backed_by(*final(mem)),
            r.is_err() ==> *final(self) == *old(self) && *final(mem) == *old(mem),
            !area_valid(area) ==> r == Err::<(), MemError>(MemError::InvalidArea),
            area_valid(area) && !old(self).disjoint_from(area) ==> r == Err::<(), MemError>(
                MemError::Overlap,
            ),
            area_valid(area) && old(self).disjoint_from(area) && free_count(old(mem).bits())
                < backed_count(old(self).pages(), area) ==> r == Err::<(), MemError>(MemError::ResourceExhausted),
            area_valid(area) && old(self).disjoint_from(area) && free_count(old(mem).bits())
                >= backed_count(old(self).pages(), area) ==> r is Ok,
            r is Ok ==> {
                let base = old(self).pages().len() as int;
                &&& final(self).areas() == old(self).areas().push(area)
                &&& final(self).pages().len() == base + backed_count(old(self).pages(), area)
                &&& final(self).pages().subrange(0, base) == old(self).pages()
                &&& forall|k: int|
                    0 <= k < backed_count(old(self).pages(), area) ==> #[trigger] final(self).fresh_page(
                        base,
                        k,
                        area,
                        *old(mem),
                        *final(mem),
                    )
                &&& forall|k1: int, k2: int|
                    base <= k1 < k2 < final(self).pages().len() ==> #[trigger] final(self).pages()[k1].frame
                        != #[trigger] final(self).pages()[k2].frame && final(self).pages()[k1].vpn
                        < final(self).pages()[k2].vpn
                &&& !area.attr.lazy ==> forall|v: int| #[trigger] page_in_area(area, v) ==> vpn_mapped(final(self).pages(), v)
                &&& forall|f: int|
                    0 <= f < old(mem).capacity() && !#[trigger] final(self).uses_frame_from(base, f)
                        ==> final(mem).bits()[f] == old(mem).bits()[f] && final(mem).refs()[f]
                        == old(mem).refs()[f] && final(mem).data()[f] == old(mem).data()[f]
                &&& final(mem).capacity() == old(mem).capacity()
                &&& free_count(final(mem).bits()) + backed_count(old(self).pages(), area) == free_count(old(mem).bits())
            },
    {
        if area.start_addr >= area.end_addr {
            return Err(MemError::InvalidArea);
        }
        if !self.no_overlap(area) {
            return Err(MemError::Overlap);
        }
        let (first, last) = vpn_range(area);
        let stop = if area.attr.lazy { first } else { last };
        let n = self.count_unmapped(first, stop);
        if mem.free_count() < n {
            return Err(MemError::ResourceExhausted);
        }
        let ghost base = self.pages().len() as int;
        let ghost old_pages = old(self).pages();
        let mut k: usize = 0;
        let mut v: usize = first;
        while v < stop
            invariant
                first <= v <= stop,
                first == first_vpn(area),
                last == end_vpn(area),
                stop == if area.attr.lazy { first } else { last },
                n == unmapped_in(old_pages, first as int, stop as int),
                k == unmapped_in(old_pages, first as int, v as int),
                old_pages == old(self).pages(),
                base == old_pages.len(),
                self.areas() == old(self).areas(),
                self.pages().len() == base + k,
                self.pages().subrange(0, base) == old_pages,
                mem.wf(),
                mem.capacity() == old(mem).capacity(),
                free_count(mem.bits()) + k == free_count(old(mem).bits()),
                free_count(old(mem).bits()) >= n,
                self.backed_by(*mem),
                forall|j: int| 0 <= j < k ==> #[trigger] self.fresh_page(base, j, area, *old(mem), *mem),
                forall|j: int| base <= j < self.pages().len() ==> #[trigger] self.pages()[j].vpn < v,
                forall|k1: int, k2: int|
                    base <= k1 < k2 < self.pages().len() ==> #[trigger] self.pages()[k1].frame
                        != #[trigger] self.pages()[k2].frame && self.pages()[k1].vpn < self.pages()[k2].vpn,
                forall|w: int| first <= w < v ==> #[trigger] vpn_mapped(self.pages(), w),
                forall|f: int|
                    0 <= f < old(mem).capacity() && !#[trigger] self.uses_frame_from(base, f)
                        ==> mem.bits()[f] == old(mem).bits()[f] && mem.refs()[f] == old(mem).refs()[f]
                        && mem.data()[f] == old(mem).data()[f],
            decreases stop - v,
        {
            let found = self.find_page(v);
            proof {
                match found {
                    Some(j) => {
                        assert(self.pages()[j as int].vpn == v);
                        if j >= base {
                            assert(self.pages()[j as int].vpn < v);
                        }
                        assert(old_pages[j as int] == self.pages()[j as int]);
                        assert(vpn_mapped(old_pages, v as int));
                    },
                    None => {
                        assert forall|j: int| 0 <= j < old_pages.len() implies #[trigger] old_pages[j].vpn != v by {
                            assert(old_pages[j] == self.pages()[j]);
                        }
                    },
                }
            }
            if found.is_none() {
                proof {
                    lemma_unmapped_mono(old_pages, first as int, v + 1, stop as int);
                    lemma_free_count_zero(mem.bits());
                }
                let ghost before = *mem;
                let ghost pages_before = self.pages();
                let ghost set_before = *self;
                let f = match mem.map_new_frame() {
                    Some(f) => f,
                    None => {
                        proof {
                            assert(false);
                        }
                        0
                    },
                };
                proof {
                    lemma_free_count_update(before.bits(), f as int, true);
                    assert(frame_uses(pages_before, f as int) == 0);
                    assert(!self.uses_frame_from(base, f as int)) by {
                        if self.uses_frame_from(base, f as int) {
                            let kk = choose|kk: int| base <= kk < self.pages().len() && #[trigger] self.pages()[kk].frame == f;
                            assert(self.fresh_page(base, kk - base, area, *old(mem), before));
                        }
                    }
                }
                let e = PageEntry { vpn: v, frame: f, writable: !area.attr.readonly };
                self.pages.push(e);
                proof {
                    assert(self.pages().drop_last() == pages_before);
                    assert(self.pages().subrange(0, base) =~= old(self).pages());
                    assert forall|g: int| 0 <= g < mem.capacity() implies frame_uses(self.pages(), g)
                        <= #[trigger] mem.refs()[g] by {
                        assert(frame_uses(pages_before, g) <= before.refs()[g]);
                    }
                    assert forall|j: int| 0 <= j < k + 1 implies #[trigger] self.fresh_page(base, j, area, *old(mem), *mem) by {
                        if j < k {
                            assert(self.pages()[base + j] == pages_before[base + j]);
                            assert(set_before.fresh_page(base, j, area, *old(mem), before));
                            assert(self.pages()[base + j].frame != f);
                            assert forall|i: int| 0 <= i < base implies #[trigger] self.pages()[i].vpn != self.pages()[base + j].vpn by {
                                assert(self.pages()[i] == pages_before[i]);
                            }
                        } else {
                            assert forall|i: int| 0 <= i < base implies #[trigger] self.pages()[i].vpn != v by {
                                assert(self.pages()[i] == old_pages[i]);
                            }
                        }
                    }
                    assert forall|g: int|
                        0 <= g < old(mem).capacity() && !#[trigger] self.uses_frame_from(base, g)
                            implies mem.bits()[g] == old(mem).bits()[g] && mem.refs()[g] == old(mem).refs()[g]
                            && mem.data()[g] == old(mem).data()[g] by {
                        assert(self.pages()[base + k as int].frame == f);
                        if set_before.uses_frame_from(base, g) {
                            let kk = choose|kk: int| base <= kk < pages_before.len() && #[trigger] pages_before[kk].frame == g;
                            assert(self.pages()[kk].frame == g);
                        }
                        assert(g != f);
                    }
                    assert forall|w: int| first <= w < v + 1 implies #[trigger] vpn_mapped(self.pages(), w) by {
                        if w < v {
                            assert(vpn_mapped(pages_before, w));
                            let jj = choose|jj: int| 0 <= jj < pages_before.len() && #[trigger] pages_before[jj].vpn == w;
                            assert(self.pages()[jj] == pages_before[jj]);
                            assert(self.pages()[jj].vpn == w);
                        } else {
                            assert(self.pages()[pages_before.len() as int].vpn == w);
                        }
                    }
                    assert forall|j: int| base <= j < self.pages().len() implies #[trigger] self.pages()[j].vpn < v + 1 by {
                        if j < pages_before.len() {
                            assert(self.pages()[j] == pages_before[j]);
                        }
                    }
                    assert forall|j: int| #![trigger pages_before[j]] base <= j < pages_before.len() implies before.bits()[pages_before[j].frame as int]
                        && pages_before[j].vpn < v by {
                        assert(set_before.fresh_page(base, j - base, area, *old(mem), before));
                    }
                    lemma_push_keeps_order(pages_before, e, base, before.bits());
                }
                k = k + 1;
            } else {
                proof {
                    assert forall|w: int| first <= w < v + 1 implies #[trigger] vpn_mapped(self.pages(), w) by {
                        if w == v {
                            let j = found.unwrap();
                            assert(self.pages()[j as int].vpn == w);
                        }
                    }
                }
            }
            v = v + 1;
        }
        proof {
            assert(v == stop);
            if !area.attr.lazy {
                assert forall|w: int| #[trigger] page_in_area(area, w) implies vpn_mapped(self.pages(), w) by {
                    assert(first <= w < v);
                }
            }
        }
        let ghost set_loop = *self;
        self.areas.push(area);
        proof {
            assert(self.pages() == set_loop.pages());
            assert forall|j: int| 0 <= j < n implies #[trigger] self.fresh_page(base, j, area, *old(mem), *mem) by {
                assert(set_loop.fresh_page(base, j, area, *old(mem), *mem));
                assert forall|i: int| 0 <= i < base implies #[trigger] self.pages()[i].vpn != self.pages()[base + j].vpn by {
                    assert(set_loop.pages()[i] == self.pages()[i]);
                }
            }
            assert forall|w: int| #[trigger] vpn_mapped(self.pages(), w) == vpn_mapped(set_loop.pages(), w) by {
                if vpn_mapped(set_loop.pages(), w) {
                    let jj = choose|jj: int| 0 <= jj < set_loop.pages().len() && #[trigger] set_loop.pages()[jj].vpn == w;
                    assert(self.pages()[jj].vpn == w);
                }
            }
            assert forall|g: int| #[trigger] self.uses_frame_from(base, g) == set_loop.uses_frame_from(base, g) by {
                if set_loop.uses_frame_from(base, g) {
                    let kk = choose|kk: int| base <= kk < set_loop.pages().len() && #[trigger] set_loop.pages()[kk].frame == g;
                    assert(self.pages()[kk].frame == g);
                }
            }
            assert forall|i: int, j: int|
                0 <= i < self.areas().len() && 0 <= j < self.areas().len() && i != j
                    implies !areas_overlap(#[trigger] self.areas()[i], #[trigger] self.areas()[j]) by {
                if i < old(self).areas().len() && j < old(self).areas().len() {
                    assert(old(self).areas()[i] == self.areas()[i]);
                    assert(old(self).areas()[j] == self.areas()[j]);
                }
            }
        }
        Ok(())
    }

    /// Number of virtual pages in `[lo, hi)` that no entry maps.
    fn count_unmapped(&self, lo: usize, hi: usize) -> (r: usize)
        requires
            lo <= hi,
        ensures
            r == unmapped_in(self.pages(), lo as int, hi as int),
    {
        let mut c: usize = 0;
        let mut v: usize = lo;
        while v < hi
            invariant
                lo <= v <= hi,
                c == unmapped_in(self.pages(), lo as int, v as int),
                c <= v - lo,
            decreases hi - v,
        {
            match self.find_page(v) {
                Some(j) => {
                    assert(self.pages()[j as int].vpn == v);
                },
                None => {
                    c = c + 1;
                },
            }
            v = v + 1;
        }
        c
    }

    /// Whether every byte of `[start, end)` may be read; an empty range may.
    pub fn is_readable(&self, start: usize, end: usize) -> (r: bool)
        requires
            self.wf(),
        ensures
            r == range_covered(self.areas(), start as int, end as int, false),
    {
        self.check_range(start, end, false)
    }

    /// Whether every byte of `[start, end)` may be written; an empty range may.
    pub fn is_writable(&self, start: usize, end: usize) -> (r: bool)
        requires
            self.wf(),
        ensures
            r == range_covered(self.areas(), start as int, end as int, true),
    {
        self.check_range(start, end, true)
    }
}

} // verus!
