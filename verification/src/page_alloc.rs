//! The segment-aware page allocator.
//!
//! The allocator hands out physical page frames. Page `i` is the frame at
//! address `base + i * page_size`. Pages are grouped into segments of
//! `SEGMENT_PAGES` pages: the pages of a segment turn free when the segment
//! is activated, and a segment all of whose pages are free can be
//! deactivated again. Which pages are free is tracked by a segment cascade
//! with one 512-page child per segment.

use crate::align::{
    lemma_align_down,
    lemma_align_up_addr,
    lemma_is_aligned,
    lemma_log2_of,
    lemma_pow2_is_pow2,
    lemma_trailing_zeros_pow2,
    log2_of,
    MAX_ALIGN_1GB,
};
use crate::arith::{lemma_join, lemma_mul_le, lemma_split};
use crate::bit_alloc::{all_in, is_first_run, is_least, none_in, run_granted, BitAlloc};
use crate::bitmap64::BitAlloc64;
use crate::cascade8::BitAllocCascade8;
use crate::mask::{mask_bits, mask_get, mask_indices, mask_new, mask_set, SegmentMask, MASK_BITS};
use crate::segment::SegmentBitAllocCascade;
use memory_addr::{align_down, align_up, is_aligned};
use vstd::arithmetic::power2::{is_pow2, lemma2_to64, pow2};
use vstd::prelude::*;
use vstd::set_lib::{
    lemma_int_range,
    lemma_len_subset,
    lemma_set_difference_len,
    lemma_set_disjoint_lens,
    lemma_set_subset_finite,
    set_int_range,
};

verus! {

/// A bit allocator over 512 indices: the pages of one segment.
pub type BitAlloc512 = BitAllocCascade8<BitAlloc64>;

/// The number of pages in a segment.
pub const SEGMENT_PAGES: usize = 512;

/// Why a page request was turned down.
#[derive(Debug, Clone, Copy, PartialEq, Eq, Structural)]
pub enum AllocError {
    /// The alignment or the number of pages is not acceptable.
    InvalidParam,
    /// No page, or no run of pages, satisfies the request.
    NoMemory,
}

/// What a page allocator is, seen from outside.
pub struct PageAllocatorView {
    /// The address of page 0.
    pub base: usize,
    /// The size of a segment in bytes.
    pub segment_granularity: usize,
    /// The size of a page in bytes.
    pub page_size: usize,
    /// The number of pages handed out and not yet returned.
    pub used_pages: usize,
    /// The number of pages of the initial span.
    pub total_pages: usize,
    /// The numbers of the active segments.
    pub active: Set<int>,
    /// The indices of the free pages.
    pub free: Set<int>,
}

/// An alignment in bytes that a page request may ask for: at most 1 GiB, a
/// multiple of the page size, and a power of two when counted in pages.
pub open spec fn valid_align(align_pow2: usize, page_size: usize) -> bool {
    &&& align_pow2 <= MAX_ALIGN_1GB
    &&& page_size > 0
    &&& align_pow2 as int % page_size as int == 0
    &&& is_pow2(align_pow2 as int / page_size as int)
}

/// The alignment of a request, as the exponent of its number of pages.
pub open spec fn align_log2_of(align_pow2: usize, page_size: usize) -> nat {
    log2_of(align_pow2 as int / page_size as int)
}

/// The page index of the frame at `addr`.
pub open spec fn page_of(v: PageAllocatorView, addr: int) -> int {
    (addr - v.base) / (v.page_size as int)
}

/// The address of the frame with page index `idx`.
pub open spec fn addr_of(v: PageAllocatorView, idx: int) -> int {
    idx * v.page_size + v.base
}

/// The page that a successful request returned, if it was successful.
pub open spec fn found_of(v: PageAllocatorView, r: Result<usize, AllocError>) -> Option<usize> {
    match r {
        Ok(addr) => Some(page_of(v, addr as int) as usize),
        Err(_) => None,
    }
}

/// What a request answers when the search found the page `found`, or
/// nothing.
pub open spec fn answer(v: PageAllocatorView, found: Option<usize>) -> Result<usize, AllocError> {
    match found {
        Some(k) => Ok(addr_of(v, k as int) as usize),
        None => Err(AllocError::NoMemory),
    }
}

/// What the search of an unplaced request finds: for one page, the lowest
/// free page, whatever the alignment; for more, the lowest aligned run.
pub open spec fn grants(
    free: Set<int>,
    capacity: int,
    num_pages: int,
    align_log2: nat,
    found: Option<usize>,
) -> bool {
    if num_pages == 1 {
        match found {
            Some(k) => is_least(free, k as int),
            None => free.is_empty(),
        }
    } else {
        is_first_run(free, capacity, num_pages, align_log2, found)
    }
}

/// The allocator after a request that found the page `found`, or nothing:
/// the pages of the run are no longer free and count as used.
pub open spec fn taken(
    before: PageAllocatorView,
    after: PageAllocatorView,
    num_pages: int,
    found: Option<usize>,
) -> bool {
    match found {
        Some(k) => after == (PageAllocatorView {
            free: before.free.difference(set_int_range(k as int, k + num_pages)),
            used_pages: (before.used_pages + num_pages) as usize,
            ..before
        }),
        None => after == before,
    }
}

/// Every page of segment `s` is free.
pub open spec fn segment_free(free: Set<int>, s: int) -> bool {
    all_in(free, s * SEGMENT_PAGES, s * SEGMENT_PAGES + SEGMENT_PAGES)
}

/// The pages of segment `s`.
pub open spec fn segment_pages(s: int) -> Set<int> {
    set_int_range(s * SEGMENT_PAGES, s * SEGMENT_PAGES + SEGMENT_PAGES)
}

/// The counters agree with the free set: every page of the initial span is
/// either free or counted as used.
pub open spec fn conserved(v: PageAllocatorView) -> bool {
    v.free.finite() && v.used_pages + v.free.len() == v.total_pages
}

/// The `n` pages from `k` on were free and are handed out.
pub open spec fn hands_out(
    before: PageAllocatorView,
    after: PageAllocatorView,
    k: int,
    n: int,
) -> bool {
    &&& 0 <= n
    &&& all_in(before.free, k, k + n)
    &&& after == (PageAllocatorView {
        free: before.free.difference(set_int_range(k, k + n)),
        used_pages: (before.used_pages + n) as usize,
        ..before
    })
}

/// The `n` pages from `k` on were used, none of them free, and are taken
/// back.
pub open spec fn takes_back(
    before: PageAllocatorView,
    after: PageAllocatorView,
    k: int,
    n: int,
) -> bool {
    &&& 0 <= n <= before.used_pages
    &&& none_in(before.free, k, k + n)
    &&& after == (PageAllocatorView {
        free: before.free.union(set_int_range(k, k + n)),
        used_pages: (before.used_pages - n) as usize,
        ..before
    })
}

/// What a request for pages, or a release of pages none of which is free,
/// does to an allocator: nothing, or it hands out a run of free pages, or
/// it takes back a run of used pages.
pub open spec fn page_step(before: PageAllocatorView, after: PageAllocatorView) -> bool {
    ||| after == before
    ||| exists|k: int, n: int| #[trigger] hands_out(before, after, k, n)
    ||| exists|k: int, n: int| #[trigger] takes_back(before, after, k, n)
}

/// One step keeps the counters in agreement with the free set.
pub proof fn lemma_page_step(before: PageAllocatorView, after: PageAllocatorView)
    requires
        conserved(before),
        page_step(before, after),
    ensures
        conserved(after),
{
    if after != before {
        if exists|k: int, n: int| #[trigger] hands_out(before, after, k, n) {
            let (k, n) = choose|k: int, n: int| #[trigger] hands_out(before, after, k, n);
            let range = set_int_range(k, k + n);
            lemma_int_range(k, k + n);
            lemma_set_difference_len(before.free, range);
            assert(before.free.intersect(range) =~= range);
            lemma_len_subset(range, before.free);
        } else {
            let (k, n) = choose|k: int, n: int| #[trigger] takes_back(before, after, k, n);
            let range = set_int_range(k, k + n);
            lemma_int_range(k, k + n);
            lemma_set_disjoint_lens(before.free, range);
            assert(before.free.disjoint(range));
        }
    }
}

/// Through any sequence of requests and of releases of pages none of which
/// is free, the used pages and the available pages add up to the total,
/// and the available pages are the free ones.
pub proof fn lemma_conservation(trace: Seq<PageAllocatorView>)
    requires
        trace.len() > 0,
        conserved(trace[0]),
        forall|i: int| 0 <= i < trace.len() - 1 ==> page_step(#[trigger] trace[i], trace[i + 1]),
    ensures
        forall|i: int|
            0 <= i < trace.len() ==> {
                &&& conserved(#[trigger] trace[i])
                &&& trace[i].used_pages <= trace[i].total_pages
                &&& trace[i].used_pages + (trace[i].total_pages - trace[i].used_pages)
                    == trace[i].total_pages
                &&& trace[i].total_pages - trace[i].used_pages == trace[i].free.len()
            },
    decreases trace.len(),
{
    if trace.len() > 1 {
        let shorter = trace.drop_last();
        assert forall|i: int| 0 <= i < shorter.len() - 1 implies page_step(
            #[trigger] shorter[i],
            shorter[i + 1],
        ) by {
            assert(page_step(trace[i], trace[i + 1]));
        }
        lemma_conservation(shorter);
        let last = trace.len() - 1;
        assert(conserved(shorter[last - 1]));
        assert(page_step(trace[last - 1], trace[last]));
        lemma_page_step(trace[last - 1], trace[last]);
        assert forall|i: int| 0 <= i < trace.len() implies conserved(#[trigger] trace[i]) by {
            if i < last {
                assert(conserved(shorter[i]));
            }
        }
    }
}

/// Page `i` lies in an active segment.
pub open spec fn page_backed(v: PageAllocatorView, i: int) -> bool {
    v.active.contains(i / (SEGMENT_PAGES as int))
}

/// Only pages of active segments are free.
pub open spec fn backed(v: PageAllocatorView) -> bool {
    forall|i: int| v.free.contains(i) ==> page_backed(v, i)
}

/// The first address of a span that is a multiple of the page size.
pub open spec fn span_start(start: int, page_size: int) -> int {
    ((start + page_size - 1) / page_size) * page_size
}

/// The last multiple of the page size within a span.
pub open spec fn span_end(start: int, size: int, page_size: int) -> int {
    ((start + size) / page_size) * page_size
}

/// The number of whole pages in a span.
pub open spec fn span_pages(start: int, size: int, page_size: int) -> int {
    (span_end(start, size, page_size) - span_start(start, page_size)) / page_size
}

/// The address of page 0 for a span: the last multiple of 1 GiB that is
/// not above the first page of the span.
pub open spec fn span_base(start: int, page_size: int) -> int {
    (span_start(start, page_size) / (MAX_ALIGN_1GB as int)) * MAX_ALIGN_1GB
}

/// The index of the first page of a span.
pub open spec fn span_first_page(start: int, page_size: int) -> int {
    (span_start(start, page_size) - span_base(start, page_size)) / page_size
}

/// Whether a release of `num_pages` pages at page `idx` succeeds: the
/// pages lie within the capacity and none of them is free.
pub open spec fn released(v: PageAllocatorView, capacity: int, idx: int, num_pages: int) -> bool {
    num_pages >= 1 && idx + num_pages <= capacity && none_in(v.free, idx, idx + num_pages)
}

/// The number of the segment at the address `segment_base`.
pub open spec fn segment_of(v: PageAllocatorView, segment_base: int) -> int {
    (segment_base - v.base) / (v.segment_granularity as int)
}

/// What activating segment `s` does and answers: nothing and `false`
/// where the segment is active already; else the segment turns active and
/// all of its pages free, and the answer is `true`.
pub open spec fn increased(
    before: PageAllocatorView,
    after: PageAllocatorView,
    s: int,
    r: bool,
) -> bool {
    &&& r == !before.active.contains(s)
    &&& after == if r {
        PageAllocatorView {
            active: before.active.insert(s),
            free: before.free.union(segment_pages(s)),
            ..before
        }
    } else {
        before
    }
}

/// Activating a segment that is not active twice in a row answers `true`
/// and then `false`, and the second call changes nothing.
pub proof fn lemma_increase_twice(
    v0: PageAllocatorView,
    v1: PageAllocatorView,
    v2: PageAllocatorView,
    s: int,
    r1: bool,
    r2: bool,
)
    requires
        !v0.active.contains(s),
        increased(v0, v1, s, r1),
        increased(v1, v2, s, r2),
    ensures
        r1,
        !r2,
        v2 == v1,
        v2.free == v1.free,
{
}

/// An active segment all of whose pages are free.
pub open spec fn reclaimable(v: PageAllocatorView, s: int) -> bool {
    v.active.contains(s) && segment_free(v.free, s)
}

/// `s` is one of the first `k` numbers of the list.
pub open spec fn among(list: Seq<usize>, k: int, s: int) -> bool {
    exists|j: int| 0 <= j < k && #[trigger] list[j] == s
}

/// An address that is a multiple of a power of two stays one when a
/// multiple of 1 GiB below it is taken off, as long as that power of two is
/// at most 1 GiB; above 1 GiB, the address is a multiple of 1 GiB itself.
proof fn lemma_pow2_gap(align: usize, addr: usize, base: usize)
    requires
        is_pow2(align as int),
        addr as int % align as int == 0,
        base == (addr as int / MAX_ALIGN_1GB as int) * MAX_ALIGN_1GB,
    ensures
        base <= addr,
        (addr - base) % align as int == 0,
        addr - base == ((addr - base) / align as int) * align,
{
    lemma_log2_of(align);
    lemma2_to64();
    let k = log2_of(align as int);
    let a = align as int;
    let g = MAX_ALIGN_1GB as int;
    lemma_split(addr as int, g);
    lemma_split(addr as int, a);
    if k <= 30 {
        // 1 GiB is a multiple of the alignment, and so is the base.
        vstd::arithmetic::power2::lemma_pow2_adds(k, (30 - k) as nat);
        let m = pow2((30 - k) as nat) as int;
        let q = addr as int / g;
        assert(q * (a * m) == (q * m) * a) by (nonlinear_arith);
        let h = addr as int / a;
        assert(h * a - (q * m) * a == (h - q * m) * a) by (nonlinear_arith);
        lemma_mul_le(0, q, g);
        if h < q * m {
            lemma_mul_le(h + 1, q * m, a);
            assert((h + 1) * a == h * a + a) by (nonlinear_arith);
        }
        lemma_join(h - q * m, 0, a);
    } else {
        // The address is a multiple of 1 GiB: the base is the address.
        vstd::arithmetic::power2::lemma_pow2_adds(30, (k - 30) as nat);
        let m = pow2((k - 30) as nat) as int;
        let h = addr as int / a;
        assert(h * (g * m) == (h * m) * g) by (nonlinear_arith);
        lemma_join(h * m, 0, g);
        lemma_split(0, a);
    }
}

/// A page-granularity allocator over at most `SIZE` segments.
pub struct SegmentBitmapPageAllocator<const SIZE: usize> {
    base: usize,
    segment_granularity: usize,
    page_size: usize,
    used_pages: usize,
    total_pages: usize,
    /// The segments whose pages may be free.
    allocated_bitset: SegmentMask,
    inner: SegmentBitAllocCascade<BitAlloc512, SIZE>,
}

impl<const SIZE: usize> View for SegmentBitmapPageAllocator<SIZE> {
    type V = PageAllocatorView;

    closed spec fn view(&self) -> PageAllocatorView {
        PageAllocatorView {
            base: self.base,
            segment_granularity: self.segment_granularity,
            page_size: self.page_size,
            used_pages: self.used_pages,
            total_pages: self.total_pages,
            active: mask_bits(self.allocated_bitset),
            free: self.inner.free(),
        }
    }
}

impl<const SIZE: usize> SegmentBitmapPageAllocator<SIZE> {
    /// The number of pages the allocator can track.
    pub open spec fn spec_capacity() -> int {
        SEGMENT_PAGES * SIZE
    }

    /// The representation invariant of the page tracker inside.
    pub closed spec fn inner_wf(&self) -> bool {
        self.inner.wf()
    }

    /// How many pages, counted from page `idx`, a release of `num_pages`
    /// pages turns free.
    pub closed spec fn release_extent(&self, idx: int, num_pages: int) -> int {
        self.inner.dealloc_extent(idx, num_pages)
    }

    /// The allocator holds no page and no segment, and counts none as used.
    pub open spec fn fresh(&self) -> bool {
        &&& self.inner_wf()
        &&& self@.free == Set::<int>::empty()
        &&& self@.active == Set::<int>::empty()
        &&& self@.used_pages == 0
    }

    /// The allocator is set up: the page size is a power of two, a segment
    /// is `SEGMENT_PAGES` pages, every page it can track has an address,
    /// and the active segments are among its `SIZE` segments.
    pub open spec fn wf(&self) -> bool {
        &&& self.inner_wf()
        &&& is_pow2(self@.page_size as int)
        &&& self@.segment_granularity == self@.page_size * SEGMENT_PAGES
        &&& self@.base + Self::spec_capacity() * self@.page_size <= usize::MAX
        &&& forall|s: int| self@.active.contains(s) ==> 0 <= s < SIZE
    }

    /// What the page tracker inside guarantees: `SIZE` is a usable number
    /// of segments, no page outside the capacity is free, and the free set
    /// is finite.
    pub proof fn lemma_inner(&self)
        requires
            self.inner_wf(),
        ensures
            0 < SIZE <= MASK_BITS,
            forall|i: int| self@.free.contains(i) ==> 0 <= i < Self::spec_capacity(),
            self@.free.finite(),
    {
        self.inner.lemma_wf();
        lemma_int_range(0, Self::spec_capacity());
        assert(self@.free.subset_of(set_int_range(0, Self::spec_capacity())));
        lemma_set_subset_finite(set_int_range(0, Self::spec_capacity()), self@.free);
    }

    /// What a release reaches: used pages only, none where the range
    /// leaves the capacity, and the whole range where all of it was used.
    pub proof fn lemma_release_extent(&self, idx: int, num_pages: int)
        requires
            self.inner_wf(),
            0 <= idx,
            0 <= num_pages,
        ensures
            0 <= self.release_extent(idx, num_pages) <= num_pages,
            none_in(self@.free, idx, idx + self.release_extent(idx, num_pages)),
            idx + num_pages > Self::spec_capacity() ==> self.release_extent(idx, num_pages) == 0,
            idx + num_pages <= Self::spec_capacity() && none_in(self@.free, idx, idx + num_pages)
                ==> self.release_extent(idx, num_pages) == num_pages,
    {
        self.inner.lemma_dealloc_extent(idx, num_pages);
    }

    /// As long as the counters agree with the free set, the pages that are
    /// not used are the free ones.
    pub proof fn lemma_conserved(&self)
        requires
            conserved(self@),
        ensures
            self@.used_pages <= self@.total_pages,
            self@.used_pages + (self@.total_pages - self@.used_pages) == self@.total_pages,
            self@.total_pages - self@.used_pages == self@.free.len(),
    {
    }

    /// An allocator that holds nothing yet. It is to be set up with
    /// `init_with_page_size`.
    pub fn new() -> (r: Self)
        ensures
            0 < SIZE <= MASK_BITS ==> r.fresh(),
            r@ == (PageAllocatorView {
                base: 0,
                segment_granularity: 0,
                page_size: 0,
                used_pages: 0,
                total_pages: 0,
                active: Set::<int>::empty(),
                free: Set::<int>::empty(),
            }),
    {
        SegmentBitmapPageAllocator {
            base: 0,
            segment_granularity: 0,
            page_size: 0,
            used_pages: 0,
            total_pages: 0,
            allocated_bitset: mask_new(),
            inner: SegmentBitAllocCascade::new(),
        }
    }

    /// The address of page 0.
    pub fn base(&self) -> (r: usize)
        ensures
            r == self@.base,
    {
        self.base
    }

    /// The size of a segment in bytes.
    pub fn segment_granularity(&self) -> (r: usize)
        ensures
            r == self@.segment_granularity,
    {
        self.segment_granularity
    }

    /// The size of a page in bytes.
    pub fn page_size(&self) -> (r: usize)
        ensures
            r == self@.page_size,
    {
        self.page_size
    }

    /// The number of pages handed out and not yet returned.
    pub fn used_pages(&self) -> (r: usize)
        ensures
            r == self@.used_pages,
    {
        self.used_pages
    }

    /// The number of pages of the initial span.
    pub fn total_pages(&self) -> (r: usize)
        ensures
            r == self@.total_pages,
    {
        self.total_pages
    }

    /// The number of pages that are not used.
    pub fn available_pages(&self) -> (r: usize)
        requires
            self@.used_pages <= self@.total_pages,
        ensures
            r == self@.total_pages - self@.used_pages,
            conserved(self@) ==> r == self@.free.len(),
    {
        self.total_pages - self.used_pages
    }

    /// Whether segment `idx` is active.
    pub fn is_active(&self, idx: usize) -> (r: bool)
        requires
            idx < MASK_BITS,
        ensures
            r == self@.active.contains(idx as int),
    {
        mask_get(&self.allocated_bitset, idx)
    }

    /// Whether page `idx` is free.
    pub fn page_is_free(&self, idx: usize) -> (r: bool)
        requires
            self.inner_wf(),
            idx < Self::spec_capacity(),
        ensures
            r == self@.free.contains(idx as int),
    {
        proof {
            self.inner.lemma_wf();
        }
        self.inner.test(idx)
    }

    /// Takes the span `start..start + size` as the initial memory: its
    /// whole pages become free, and page 0 is placed at the last multiple
    /// of 1 GiB that is not above the first of them.
    pub fn init(&mut self, start: usize, size: usize)
        requires
            old(self).inner_wf(),
            is_pow2(old(self)@.page_size as int),
            start + size <= usize::MAX,
            start + old(self)@.page_size <= usize::MAX,
            span_start(start as int, old(self)@.page_size as int) <= span_end(
                start as int,
                size as int,
                old(self)@.page_size as int,
            ),
            span_first_page(start as int, old(self)@.page_size as int) + span_pages(
                start as int,
                size as int,
                old(self)@.page_size as int,
            ) <= Self::spec_capacity(),
        ensures
            final(self).inner_wf(),
            final(self)@ == (PageAllocatorView {
                base: span_base(start as int, old(self)@.page_size as int) as usize,
                total_pages: span_pages(
                    start as int,
                    size as int,
                    old(self)@.page_size as int,
                ) as usize,
                free: old(self)@.free.union(
                    set_int_range(
                        span_first_page(start as int, old(self)@.page_size as int),
                        span_first_page(start as int, old(self)@.page_size as int) + span_pages(
                            start as int,
                            size as int,
                            old(self)@.page_size as int,
                        ),
                    ),
                ),
                ..old(self)@
            }),
            old(self)@.free.is_empty() && old(self)@.used_pages == 0 ==> conserved(final(self)@),
    {
        let ghost ps = self.page_size as int;
        proof {
            self.lemma_inner();
            lemma_log2_of(self.page_size);
            lemma_align_down((start + size) as usize, self.page_size);
            lemma_align_up_addr(start, self.page_size);
            lemma2_to64();
            lemma_pow2_is_pow2(30);
        }
        let end = align_down(start + size, self.page_size);
        let start = align_up(start, self.page_size);
        proof {
            lemma_align_down(start, MAX_ALIGN_1GB);
            lemma_split(start as int, MAX_ALIGN_1GB as int);
        }
        self.total_pages = (end - start) / self.page_size;
        self.base = align_down(start, MAX_ALIGN_1GB);
        let start = start - self.base;
        let start_idx = start / self.page_size;
        self.inner.insert(start_idx..start_idx + self.total_pages);
        proof {
            let range = set_int_range(start_idx as int, start_idx + self.total_pages);
            if old(self)@.free.is_empty() && old(self)@.used_pages == 0 {
                lemma_int_range(start_idx as int, start_idx + self.total_pages);
                assert(self@.free =~= range);
            }
        }
    }

    /// Sets the page size and the segment size, activates the segment the
    /// span starts in, and takes the span as the initial memory.
    pub fn init_with_page_size(
        &mut self,
        page_size: usize,
        segment_granularity: usize,
        start: usize,
        size: usize,
    )
        requires
            old(self).fresh(),
            is_pow2(page_size as int),
            segment_granularity == page_size * SEGMENT_PAGES,
            start as int % segment_granularity as int == 0,
            start + size <= usize::MAX,
            start + page_size <= usize::MAX,
            (start - span_base(start as int, page_size as int)) / (segment_granularity as int)
                < SIZE,
            span_first_page(start as int, page_size as int) + span_pages(
                start as int,
                size as int,
                page_size as int,
            ) <= Self::spec_capacity(),
            span_base(start as int, page_size as int) + Self::spec_capacity() * page_size
                <= usize::MAX,
        ensures
            final(self).wf(),
            final(self)@ == (PageAllocatorView {
                base: span_base(start as int, page_size as int) as usize,
                segment_granularity,
                page_size,
                used_pages: 0,
                total_pages: span_pages(start as int, size as int, page_size as int) as usize,
                active: set![(start - span_base(start as int, page_size as int)) / (
                segment_granularity as int)],
                free: set_int_range(
                    span_first_page(start as int, page_size as int),
                    span_first_page(start as int, page_size as int) + span_pages(
                        start as int,
                        size as int,
                        page_size as int,
                    ),
                ),
            }),
            span_start(start as int, page_size as int) == start,
            conserved(final(self)@),
            span_pages(start as int, size as int, page_size as int) <= SEGMENT_PAGES ==> backed(
                final(self)@,
            ),
    {
        let ghost ps = page_size as int;
        proof {
            lemma_log2_of(page_size);
            lemma_pow2_is_pow2(9);
            lemma2_to64();
            vstd::arithmetic::power2::lemma_pow2_adds(log2_of(ps), 9);
            lemma_pow2_is_pow2(log2_of(ps) + 9);
            assert(is_pow2(segment_granularity as int));
            lemma_pow2_is_pow2(30);
            // A multiple of the segment size is a multiple of the page size.
            lemma_split(start as int, segment_granularity as int);
            let q = start as int / segment_granularity as int;
            assert(q * (ps * 512) == (q * 512) * ps) by (nonlinear_arith);
            lemma_join(q * 512, 0, ps);
            lemma_join(q * 512, ps - 1, ps);
            lemma_split(start as int + size as int, ps);
            crate::arith::lemma_block_monotone(start as int, start + size, ps);
            lemma_mul_le(q * 512, (start + size) / ps, ps);
            self.lemma_inner();
        }
        self.page_size = page_size;
        self.segment_granularity = segment_granularity;
        self.init(start, size);
        proof {
            lemma_align_down(start, segment_granularity);
            lemma_align_down(start, MAX_ALIGN_1GB);
        }
        let first = (align_down(start, segment_granularity) - self.base) / segment_granularity;
        mask_set(&mut self.allocated_bitset, first, true);
        proof {
            assert(self@.active =~= set![first as int]);
            assert(self@.free =~= set_int_range(
                span_first_page(start as int, ps),
                span_first_page(start as int, ps) + span_pages(start as int, size as int, ps),
            ));
            // The span begins with the first page of its segment.
            let f = first as int;
            let off = start - self.base;
            lemma_split(off, segment_granularity as int);
            lemma_split(self.base as int, MAX_ALIGN_1GB as int);
            assert(off == f * (ps * 512)) by {
                lemma_split(start as int, MAX_ALIGN_1GB as int);
                lemma_pow2_gap(segment_granularity, start, self.base);
            }
            assert(f * (ps * 512) == (f * 512) * ps) by (nonlinear_arith);
            lemma_join(f * 512, 0, ps);
            assert(span_first_page(start as int, ps) == f * 512);
            if span_pages(start as int, size as int, ps) <= SEGMENT_PAGES {
                assert forall|i: int| self@.free.contains(i) implies page_backed(self@, i) by {
                    lemma_join(f, i - f * 512, 512);
                }
            }
        }
    }

    /// Activates the segment at `segment_base`: unless it is active
    /// already, all of its pages become free. Tells whether it did.
    pub fn increase_segment_at(&mut self, segment_base: usize) -> (r: bool)
        requires
            old(self).wf(),
            segment_base as int % old(self)@.segment_granularity as int == 0,
            segment_base >= old(self)@.base,
            segment_of(old(self)@, segment_base as int) < SIZE,
        ensures
            final(self).wf(),
            increased(old(self)@, final(self)@, segment_of(old(self)@, segment_base as int), r),
            backed(old(self)@) ==> backed(final(self)@),
    {
        proof {
            self.lemma_inner();
            lemma_log2_of(self.page_size);
        }
        let segment_idx = (segment_base - self.base) / self.segment_granularity;
        // Check if the segment is already active.
        if mask_get(&self.allocated_bitset, segment_idx) {
            return false;
        }
        // Mark the segment as active.
        mask_set(&mut self.allocated_bitset, segment_idx, true);
        proof {
            lemma_mul_le(segment_idx as int + 1, SIZE as int, SEGMENT_PAGES as int);
        }
        let start = segment_idx * SEGMENT_PAGES;
        let end = start + SEGMENT_PAGES;
        // All pages of the new segment are free.
        self.inner.insert(start..end);
        proof {
            let s = segment_idx as int;
            assert(self@.active == old(self)@.active.insert(s));
            assert(self@.free == old(self)@.free.union(segment_pages(s)));
            if backed(old(self)@) {
                assert forall|i: int| self@.free.contains(i) implies page_backed(self@, i) by {
                    if segment_pages(s).contains(i) {
                        lemma_join(s, i - s * 512, 512);
                    } else {
                        assert(page_backed(old(self)@, i));
                    }
                }
            }
        }
        true
    }

    /// Deactivates every active segment all of whose pages are free, and
    /// takes its pages out of the free set.
    pub fn try_decrease_segment(&mut self)
        requires
            old(self).wf(),
        ensures
            final(self).wf(),
            final(self)@ == (PageAllocatorView {
                active: Set::new(
                    |s: int| old(self)@.active.contains(s) && !reclaimable(old(self)@, s),
                ),
                free: Set::new(
                    |i: int|
                        old(self)@.free.contains(i) && !reclaimable(
                            old(self)@,
                            i / (SEGMENT_PAGES as int),
                        ),
                ),
                ..old(self)@
            }),
            forall|s: int| final(self)@.active.contains(s) ==> !segment_free(final(self)@.free, s),
            backed(old(self)@) ==> backed(final(self)@),
    {
        let ghost before = self@;
        proof {
            self.lemma_inner();
        }
        let segment_idxes = mask_indices(&self.allocated_bitset);
        let mut k: usize = 0;
        proof {
            assert(self@.active =~= Set::new(
                |s: int|
                    before.active.contains(s) && !(among(segment_idxes@, 0, s) && segment_free(
                        before.free,
                        s,
                    )),
            ));
            assert(self@.free =~= Set::new(
                |i: int|
                    before.free.contains(i) && !(among(
                        segment_idxes@,
                        0,
                        i / (SEGMENT_PAGES as int),
                    ) && segment_free(before.free, i / (SEGMENT_PAGES as int))),
            ));
        }
        while k < segment_idxes.len()
            invariant
                0 < SIZE <= MASK_BITS,
                before == old(self)@,
                old(self).wf(),
                self.wf(),
                0 <= k <= segment_idxes.len(),
                forall|i: int, j: int|
                    0 <= i < j < segment_idxes.len() ==> segment_idxes[i] < segment_idxes[j],
                forall|i: int|
                    0 <= i < segment_idxes.len() ==> before.active.contains(
                        #[trigger] segment_idxes[i] as int,
                    ),
                forall|s: int|
                    before.active.contains(s) ==> among(
                        segment_idxes@,
                        segment_idxes.len() as int,
                        s,
                    ),
                self@ == (PageAllocatorView {
                    active: Set::new(
                        |s: int|
                            before.active.contains(s) && !(among(segment_idxes@, k as int, s)
                                && segment_free(before.free, s)),
                    ),
                    free: Set::new(
                        |i: int|
                            before.free.contains(i) && !(among(
                                segment_idxes@,
                                k as int,
                                i / (SEGMENT_PAGES as int),
                            ) && segment_free(before.free, i / (SEGMENT_PAGES as int))),
                    ),
                    ..before
                }),
            decreases segment_idxes.len() - k,
        {
            let segment_idx = segment_idxes[k];
            let ghost now = self@;
            let ghost s = segment_idx as int;
            proof {
                assert(before.active.contains(s));
                assert(!among(segment_idxes@, k as int, s));
                lemma_mul_le(s + 1, SIZE as int, SEGMENT_PAGES as int);
                // The pages of a segment that was not visited yet are as
                // they were.
                assert forall|i: int| s * 512 <= i < s * 512 + 512 implies now.free.contains(i)
                    == before.free.contains(i) by {
                    lemma_join(s, i - s * 512, 512);
                }
            }
            if self.inner.segment_is_free(segment_idx) {
                let start = segment_idx * SEGMENT_PAGES;
                let end = start + SEGMENT_PAGES;
                // Take the pages of the segment out of the free set.
                self.inner.remove(start..end);
                // Mark the segment as inactive.
                mask_set(&mut self.allocated_bitset, segment_idx, false);
            }
            proof {
                let k1 = k + 1;
                assert forall|t: int| among(segment_idxes@, k1, t) == (among(
                    segment_idxes@,
                    k as int,
                    t,
                ) || t == s) by {
                    if among(segment_idxes@, k1, t) {
                        let j = choose|j: int| 0 <= j < k1 && #[trigger] segment_idxes@[j] == t;
                        if j < k {
                            assert(among(segment_idxes@, k as int, t));
                        }
                    }
                    if t == s {
                        assert(segment_idxes@[k as int] == t);
                    }
                    if among(segment_idxes@, k as int, t) {
                        let j = choose|j: int| 0 <= j < k && #[trigger] segment_idxes@[j] == t;
                        assert(0 <= j < k1);
                    }
                }
                assert(self@.active =~= Set::new(
                    |t: int|
                        before.active.contains(t) && !(among(segment_idxes@, k1, t) && segment_free(
                            before.free,
                            t,
                        )),
                ));
                assert forall|i: int|
                    self@.free.contains(i) == (before.free.contains(i) && !(among(
                        segment_idxes@,
                        k1,
                        i / 512,
                    ) && segment_free(before.free, i / 512))) by {
                    if 0 <= i {
                        crate::arith::lemma_block_range(i, s, 512);
                    }
                }
                assert(self@.free =~= Set::new(
                    |i: int|
                        before.free.contains(i) && !(among(
                            segment_idxes@,
                            k1,
                            i / (SEGMENT_PAGES as int),
                        ) && segment_free(before.free, i / (SEGMENT_PAGES as int))),
                ));
            }
            k += 1;
        }
        proof {
            assert(self@.active =~= Set::new(
                |s: int| before.active.contains(s) && !reclaimable(before, s),
            ));
            assert(self@.free =~= Set::new(
                |i: int|
                    before.free.contains(i) && !reclaimable(before, i / (SEGMENT_PAGES as int)),
            ));
            // A segment that stays active had a page in use, and has it
            // still.
            assert forall|s: int| self@.active.contains(s) implies !segment_free(
                self@.free,
                s,
            ) by {
                let i = choose|i: int| s * 512 <= i < s * 512 + 512 && !before.free.contains(i);
                assert(!self@.free.contains(i));
            }
            if backed(before) {
                Self::lemma_stays_backed(before, self@);
            }
        }
    }

    /// What holds of a request with an acceptable alignment: the alignment
    /// counted in pages is `2^k` for the exponent `k` that the search takes.
    proof fn lemma_align(align_pow2: usize, page_size: usize)
        requires
            is_pow2(page_size as int),
            valid_align(align_pow2, page_size),
        ensures
            align_log2_of(align_pow2, page_size) < usize::BITS,
            ((align_pow2 / page_size) as u64).trailing_zeros() == align_log2_of(
                align_pow2,
                page_size,
            ),
            pow2(align_log2_of(align_pow2, page_size)) * page_size == align_pow2,
            is_pow2(align_pow2 as int),
    {
        let pages = align_pow2 / page_size;
        lemma_log2_of(page_size);
        lemma_log2_of(pages);
        lemma_trailing_zeros_pow2(pages);
        lemma_split(align_pow2 as int, page_size as int);
        vstd::arithmetic::power2::lemma_pow2_adds(
            log2_of(pages as int),
            log2_of(page_size as int),
        );
        lemma_pow2_is_pow2(log2_of(pages as int) + log2_of(page_size as int));
    }

    /// Free pages stay within the active segments when no page turns free
    /// but pages of active segments, and no segment with a free page turns
    /// inactive.
    proof fn lemma_stays_backed(before: PageAllocatorView, after: PageAllocatorView)
        requires
            backed(before),
            forall|i: int|
                after.free.contains(i) ==> before.free.contains(i) || page_backed(before, i),
            forall|i: int|
                after.free.contains(i) && #[trigger] page_backed(before, i) ==> page_backed(
                    after,
                    i,
                ),
        ensures
            backed(after),
    {
        assert forall|i: int| after.free.contains(i) implies page_backed(after, i) by {
            assert(page_backed(before, i));
        }
    }

    /// As long as the counters agree with the free set, a run of free pages
    /// can be counted as used without overflow.
    proof fn lemma_room(before: PageAllocatorView, k: int, n: int)
        requires
            conserved(before),
            0 <= n,
            all_in(before.free, k, k + n),
        ensures
            before.used_pages + n <= before.total_pages,
    {
        let range = set_int_range(k, k + n);
        lemma_int_range(k, k + n);
        lemma_len_subset(range, before.free);
    }

    /// Hands out `num_pages` pages: the lowest free page for one page, the
    /// lowest run of free pages that starts at a multiple of `align_pow2`
    /// bytes for more. Returns the address of the first page.
    pub fn alloc_pages(&mut self, num_pages: usize, align_pow2: usize) -> (r: Result<
        usize,
        AllocError,
    >)
        requires
            old(self).wf(),
            conserved(old(self)@) || old(self)@.used_pages + num_pages <= usize::MAX,
        ensures
            final(self).wf(),
            !valid_align(align_pow2, old(self)@.page_size) || num_pages == 0 ==> {
                &&& r == Err::<usize, AllocError>(AllocError::InvalidParam)
                &&& final(self)@ == old(self)@
            },
            valid_align(align_pow2, old(self)@.page_size) && num_pages > 0 ==> {
                &&& grants(
                    old(self)@.free,
                    Self::spec_capacity(),
                    num_pages as int,
                    align_log2_of(align_pow2, old(self)@.page_size),
                    found_of(old(self)@, r),
                )
                &&& taken(old(self)@, final(self)@, num_pages as int, found_of(old(self)@, r))
                &&& r == answer(old(self)@, found_of(old(self)@, r))
            },
            conserved(old(self)@) ==> page_step(old(self)@, final(self)@) && conserved(final(self)@),
            backed(old(self)@) ==> backed(final(self)@),
    {
        let ghost before = self@;
        proof {
            self.lemma_inner();
            lemma_log2_of(self.page_size);
            lemma_is_aligned(align_pow2, self.page_size);
        }
        // Check if the alignment is valid.
        if align_pow2 > MAX_ALIGN_1GB || !is_aligned(align_pow2, self.page_size) {
            return Err(AllocError::InvalidParam);
        }
        let align_pages = align_pow2 / self.page_size;
        if !align_pages.is_power_of_two() {
            return Err(AllocError::InvalidParam);
        }
        proof {
            Self::lemma_align(align_pow2, self.page_size);
        }
        let align_log2 = (align_pages as u64).trailing_zeros() as usize;
        let found = if num_pages == 1 {
            self.inner.allocate()
        } else if num_pages > 1 {
            self.inner.alloc_contiguous(None, num_pages, align_log2)
        } else {
            return Err(AllocError::InvalidParam);
        };
        match found {
            Some(idx) => {
                proof {
                    assert(self@.free =~= before.free.difference(
                        set_int_range(idx as int, idx + num_pages),
                    ));
                    assert(all_in(before.free, idx as int, idx + num_pages));
                    if conserved(before) {
                        Self::lemma_room(before, idx as int, num_pages as int);
                    }
                    lemma_mul_le(idx as int, Self::spec_capacity(), self.page_size as int);
                    lemma_join(idx as int, 0, self.page_size as int);
                }
                self.used_pages = self.used_pages + num_pages;
                proof {
                    if conserved(before) {
                        assert(hands_out(before, self@, idx as int, num_pages as int));
                        lemma_page_step(before, self@);
                    }
                    assert(self@.active == before.active);
                    if backed(before) {
                        Self::lemma_stays_backed(before, self@);
                    }
                }
                Ok(idx * self.page_size + self.base)
            },
            None => {
                assert(self@.active == before.active);
                Err(AllocError::NoMemory)
            },
        }
    }

    /// Hands out the `num_pages` pages at the address `base`, if that
    /// address is a multiple of `align_pow2` bytes and the pages are a run
    /// of free pages at that alignment.
    pub fn alloc_pages_at(&mut self, base: usize, num_pages: usize, align_pow2: usize) -> (r:
        Result<usize, AllocError>)
        requires
            old(self).wf(),
            conserved(old(self)@) || old(self)@.used_pages + num_pages <= usize::MAX,
            valid_align(align_pow2, old(self)@.page_size) && base as int % align_pow2 as int == 0
                ==> base >= old(self)@.base,
        ensures
            final(self).wf(),
            !valid_align(align_pow2, old(self)@.page_size) || base as int % align_pow2 as int != 0
                ==> {
                &&& r == Err::<usize, AllocError>(AllocError::InvalidParam)
                &&& final(self)@ == old(self)@
            },
            valid_align(align_pow2, old(self)@.page_size) && base as int % align_pow2 as int == 0
                ==> {
                let found = if run_granted(
                    old(self)@.free,
                    Self::spec_capacity(),
                    num_pages as int,
                    align_log2_of(align_pow2, old(self)@.page_size),
                    page_of(old(self)@, base as int),
                ) {
                    Some(page_of(old(self)@, base as int) as usize)
                } else {
                    None
                };
                &&& taken(old(self)@, final(self)@, num_pages as int, found)
                &&& r == answer(old(self)@, found)
            },
            conserved(old(self)@) ==> page_step(old(self)@, final(self)@) && conserved(final(self)@),
            backed(old(self)@) ==> backed(final(self)@),
    {
        let ghost before = self@;
        proof {
            self.lemma_inner();
            lemma_log2_of(self.page_size);
            lemma_is_aligned(align_pow2, self.page_size);
        }
        // Check if the alignment is valid, and if the base address is
        // aligned to the given alignment.
        if align_pow2 > MAX_ALIGN_1GB || align_pow2 == 0 || !is_aligned(
            align_pow2,
            self.page_size,
        ) {
            proof {
                if align_pow2 == 0 {
                    vstd::arithmetic::power2::is_pow2_equiv(0);
                    reveal(is_pow2);
                }
            }
            return Err(AllocError::InvalidParam);
        }
        let align_pages = align_pow2 / self.page_size;
        proof {
            if is_pow2(align_pages as int) {
                Self::lemma_align(align_pow2, self.page_size);
                lemma_is_aligned(base, align_pow2);
            }
        }
        if !is_aligned(base, align_pow2) {
            return Err(AllocError::InvalidParam);
        }
        if !align_pages.is_power_of_two() {
            return Err(AllocError::InvalidParam);
        }
        let align_log2 = (align_pages as u64).trailing_zeros() as usize;
        let idx = (base - self.base) / self.page_size;
        match self.inner.alloc_contiguous(Some(idx), num_pages, align_log2) {
            Some(idx) => {
                proof {
                    assert(self@.free =~= before.free.difference(
                        set_int_range(idx as int, idx + num_pages),
                    ));
                    if conserved(before) {
                        Self::lemma_room(before, idx as int, num_pages as int);
                    }
                    lemma_mul_le(idx as int, Self::spec_capacity(), self.page_size as int);
                }
                self.used_pages = self.used_pages + num_pages;
                proof {
                    if conserved(before) {
                        assert(hands_out(before, self@, idx as int, num_pages as int));
                        lemma_page_step(before, self@);
                    }
                    assert(self@.active == before.active);
                    if backed(before) {
                        Self::lemma_stays_backed(before, self@);
                    }
                }
                Ok(idx * self.page_size + self.base)
            },
            None => {
                assert(self@.active == before.active);
                Err(AllocError::NoMemory)
            },
        }
    }

    /// Takes back the `num_pages` pages at the address `pos`. The pages
    /// count as returned only where all of them were used.
    pub fn dealloc_pages(&mut self, pos: usize, num_pages: usize)
        requires
            old(self).wf(),
            pos as int % old(self)@.page_size as int == 0,
            num_pages > 0 ==> pos >= old(self)@.base,
            num_pages == 1 ==> page_of(old(self)@, pos as int) < Self::spec_capacity(),
            num_pages > 1 ==> page_of(old(self)@, pos as int) + num_pages <= usize::MAX,
            released(
                old(self)@,
                Self::spec_capacity(),
                page_of(old(self)@, pos as int),
                num_pages as int,
            ) ==> num_pages <= old(self)@.used_pages,
        ensures
            final(self).wf(),
            num_pages == 0 ==> final(self)@ == old(self)@,
            num_pages > 0 ==> final(self)@ == (PageAllocatorView {
                free: old(self)@.free.union(
                    set_int_range(
                        page_of(old(self)@, pos as int),
                        page_of(old(self)@, pos as int) + old(self).release_extent(
                            page_of(old(self)@, pos as int),
                            num_pages as int,
                        ),
                    ),
                ),
                used_pages: if released(
                    old(self)@,
                    Self::spec_capacity(),
                    page_of(old(self)@, pos as int),
                    num_pages as int,
                ) {
                    (old(self)@.used_pages - num_pages) as usize
                } else {
                    old(self)@.used_pages
                },
                ..old(self)@
            }),
            conserved(old(self)@) && (num_pages > 0 ==> none_in(
                old(self)@.free,
                page_of(old(self)@, pos as int),
                page_of(old(self)@, pos as int) + num_pages,
            )) ==> page_step(old(self)@, final(self)@) && conserved(final(self)@),
            backed(old(self)@) && (forall|i: int|
                page_of(old(self)@, pos as int) <= i < page_of(old(self)@, pos as int) + num_pages
                    ==> #[trigger] page_backed(old(self)@, i)) ==> backed(final(self)@),
    {
        let ghost before = self@;
        proof {
            self.lemma_inner();
            lemma_log2_of(self.page_size);
        }
        let freed = if num_pages == 1 {
            let idx = (pos - self.base) / self.page_size;
            proof {
                self.lemma_release_extent(idx as int, 1);
            }
            let freed = self.inner.dealloc(idx);
            proof {
                let got = old(self).release_extent(idx as int, 1);
                assert(self@.free =~= before.free.union(set_int_range(idx as int, idx + got)));
            }
            freed
        } else if num_pages > 1 {
            let idx = (pos - self.base) / self.page_size;
            proof {
                self.lemma_release_extent(idx as int, num_pages as int);
            }
            self.inner.dealloc_contiguous(idx, num_pages)
        } else {
            false
        };
        if freed {
            self.used_pages = self.used_pages - num_pages;
            proof {
                if conserved(before) {
                    let idx = page_of(before, pos as int);
                    assert(takes_back(before, self@, idx, num_pages as int));
                    lemma_page_step(before, self@);
                }
            }
        } else {
            proof {
                if num_pages > 0 {
                    let idx = page_of(before, pos as int);
                    if none_in(before.free, idx, idx + num_pages) {
                        assert(self@.free =~= before.free);
                        assert(self@ == before);
                    }
                } else {
                    assert(self@ == before);
                }
            }
        }
        proof {
            let idx = page_of(before, pos as int);
            if backed(before) && (forall|i: int|
                idx <= i < idx + num_pages ==> #[trigger] page_backed(before, i)) {
                assert(self@.active == before.active);
                Self::lemma_stays_backed(before, self@);
            }
        }
    }

    /// Adding memory after the initial span is not supported.
    pub fn add_memory(&mut self, _start: usize, _size: usize) -> (r: Result<(), AllocError>)
        ensures
            r == Err::<(), AllocError>(AllocError::NoMemory),
            final(self)@ == old(self)@,
            old(self).inner_wf() ==> final(self).inner_wf(),
    {
        Err(AllocError::NoMemory)
    }
}

} // verus!
