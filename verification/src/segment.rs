//! The segment cascade: a fixed number of child allocators, one per
//! segment, under a summary mask.

use crate::arith::{lemma_block_bound, lemma_mul_le, lemma_split};
use crate::bit_alloc::{all_in, none_in, BitAlloc};
use crate::cascade_model::{
    bounded,
    cascade_free,
    extent_blocks,
    extent_sound,
    lemma_cascade_difference,
    lemma_cascade_empty,
    lemma_cascade_gap,
    lemma_cascade_next,
    lemma_cascade_put,
    lemma_cascade_take,
    lemma_cascade_union,
    lemma_piece_bounds,
    lemma_piece_outside,
    lemma_release_done,
    lemma_release_step,
    piece,
    release_reach,
};
use crate::contiguous::{alloc_contiguous, check_contiguous, contiguous_result};
use crate::mask::{
    mask_bits,
    mask_first_index,
    mask_get,
    mask_is_empty,
    mask_new,
    mask_set,
    SegmentMask,
    MASK_BITS,
};
use core::ops::Range;
use vstd::arithmetic::power2::pow2;
use vstd::prelude::*;
use vstd::set_lib::set_int_range;

verus! {

/// A bit allocator over `SIZE` children of one kind, each of which tracks
/// one segment. The summary mask holds the numbers of the children that
/// have a free index, so that a search never enters a child that has none.
pub struct SegmentBitAllocCascade<T: BitAlloc, const SIZE: usize> {
    bitset: SegmentMask,
    sub_seg: [T; SIZE],
}

/// `core::array::from_fn` with `T::new` for every element: an array of
/// allocators as `T::new` returns them.
#[verifier::external_body]
fn fresh_children<T: BitAlloc, const N: usize>() -> (children: [T; N])
    ensures
        forall|q: int|
            0 <= q < N ==> (T::valid() ==> (#[trigger] children[q]).wf()) && children[q].free()
                == Set::<int>::empty(),
{
    core::array::from_fn(|_| T::new())
}

impl<T: BitAlloc, const SIZE: usize> SegmentBitAllocCascade<T, SIZE> {
    /// The free sets of the children.
    pub closed spec fn child_sets(&self) -> Seq<Set<int>> {
        Seq::new(SIZE as nat, |q: int| self.sub_seg[q].free())
    }

    /// Whether the summary mask holds `q`.
    pub closed spec fn summary(&self, q: int) -> bool {
        mask_bits(self.bitset).contains(q)
    }

    /// What each child would free of a range.
    pub closed spec fn child_extent(&self) -> spec_fn(int, int, int) -> int {
        |q: int, lo: int, len: int| self.sub_seg[q].dealloc_extent(lo, len)
    }

    /// Every child is well-formed.
    closed spec fn children_wf(&self) -> bool {
        forall|q: int| 0 <= q < SIZE ==> (#[trigger] self.sub_seg[q]).wf()
    }

    /// The summary mask tells of every child whether it has a free index,
    /// and holds no other number.
    closed spec fn summary_ok(&self) -> bool {
        &&& forall|q: int|
            0 <= q < SIZE ==> mask_bits(self.bitset).contains(q) == !(#[trigger] self.sub_seg[
                q
            ]).free().is_empty()
        &&& forall|q: int| mask_bits(self.bitset).contains(q) ==> 0 <= q < SIZE
    }

    /// In a well-formed cascade, summary bit `q` is set exactly when child
    /// `q` has a free index.
    pub proof fn lemma_summary(&self, q: int)
        requires
            self.wf(),
            0 <= q < SIZE,
        ensures
            self.summary(q) == !self.child_sets()[q].is_empty(),
            self.free() == cascade_free(self.child_sets(), T::spec_cap() as int),
    {
        assert(self.sub_seg[q].wf());
    }

    /// What the children of a well-formed cascade provide to the model.
    proof fn lemma_children(&self)
        requires
            self.children_wf(),
            T::valid(),
        ensures
            T::spec_cap() > 0,
            self.child_sets().len() == SIZE,
            bounded(self.child_sets(), T::spec_cap() as int),
            extent_sound(self.child_sets(), T::spec_cap() as int, self.child_extent()),
    {
        T::lemma_valid();
        let subs = self.child_sets();
        let c = T::spec_cap() as int;
        assert forall|q: int, j: int|
            0 <= q < subs.len() && #[trigger] subs[q].contains(j) implies 0 <= j < c by {
            self.sub_seg[q].lemma_wf();
        }
        let ext = self.child_extent();
        assert forall|q: int, lo: int, len: int|
            0 <= q < subs.len() && 0 <= lo && 0 <= len implies {
            let got = #[trigger] ext(q, lo, len);
            &&& 0 <= got <= len
            &&& none_in(subs[q], lo, lo + got)
            &&& (lo + len > c ==> got == 0)
            &&& (lo + len <= c && none_in(subs[q], lo, lo + len) ==> got == len)
        } by {
            self.sub_seg[q].lemma_dealloc_extent(lo, len);
        }
    }

    /// Whether the summary mask holds `q`.
    pub fn summary_at(&self, q: usize) -> (r: bool)
        requires
            q < MASK_BITS,
        ensures
            r == self.summary(q as int),
    {
        mask_get(&self.bitset, q)
    }

    /// Whether child `q` has no free index.
    pub fn child_is_empty(&self, q: usize) -> (r: bool)
        requires
            self.wf(),
            q < SIZE,
        ensures
            r == self.child_sets()[q as int].is_empty(),
    {
        assert(self.sub_seg[q as int].wf());
        self.sub_seg[q].is_empty()
    }

    /// Turns every index of the range free, or every index used.
    fn for_range(&mut self, range: Range<usize>, free: bool)
        requires
            old(self).wf(),
            range.start <= range.end <= Self::spec_cap(),
        ensures
            final(self).wf(),
            final(self).free() == if free {
                old(self).free().union(set_int_range(range.start as int, range.end as int))
            } else {
                old(self).free().difference(set_int_range(range.start as int, range.end as int))
            },
    {
        let start = range.start;
        let end = range.end;
        let ghost before = old(self).child_sets();
        let ghost s = start as int;
        let ghost e = end as int;
        proof {
            self.lemma_children();
        }
        let c = T::cap();
        proof {
            assert(c * SIZE == SIZE * c) by (nonlinear_arith);
        }
        if start == end {
            proof {
                assert forall|q: int| 0 <= q < SIZE implies #[trigger] before[q]
                    =~= before[q].union(piece(s, e, c as int, q)) && before[q]
                    =~= before[q].difference(piece(s, e, c as int, q)) by {
                    lemma_piece_outside(s, e, c as int, q);
                }
                lemma_cascade_union(before, before, c as int, s, e);
                lemma_cascade_difference(before, before, c as int, s, e);
            }
            return;
        }
        let first = start / c;
        let last = (end - 1) / c;
        proof {
            lemma_block_bound(e - 1, SIZE as int, c as int);
            crate::arith::lemma_block_monotone(s, e - 1, c as int);
        }
        let mut i = first;
        while i <= last
            invariant
                T::valid(),
                0 < SIZE <= MASK_BITS,
                T::spec_cap() * SIZE <= usize::MAX,
                c == T::spec_cap(),
                c > 0,
                s == start,
                e == end,
                0 <= s < e <= c * SIZE,
                first == s / (c as int),
                last == (e - 1) / (c as int),
                first <= i <= last + 1,
                last < SIZE,
                before == old(self).child_sets(),
                self.children_wf(),
                self.summary_ok(),
                forall|q: int|
                    0 <= q < SIZE && !(first <= q < i) ==> #[trigger] self.child_sets()[q]
                        == before[q],
                forall|q: int|
                    first <= q < i ==> #[trigger] self.child_sets()[q] == if free {
                        before[q].union(piece(s, e, c as int, q))
                    } else {
                        before[q].difference(piece(s, e, c as int, q))
                    },
            decreases last + 1 - i,
        {
            let begin = if start / c == i {
                start % c
            } else {
                0
            };
            let stop = if end / c == i {
                end % c
            } else {
                c
            };
            let ghost now = self.child_sets();
            proof {
                lemma_piece_bounds(s, e, c as int, i as int);
                assert(self.sub_seg[i as int].wf());
                assert(now[i as int] == before[i as int]);
            }
            if free {
                self.sub_seg[i].insert(begin..stop);
            } else {
                self.sub_seg[i].remove(begin..stop);
            }
            let empty = self.sub_seg[i].is_empty();
            mask_set(&mut self.bitset, i, !empty);
            proof {
                assert forall|q: int|
                    0 <= q < SIZE && q != i implies #[trigger] self.child_sets()[q] == now[q] by {}
            }
            i += 1;
        }
        proof {
            let after = self.child_sets();
            if free {
                assert forall|q: int| 0 <= q < SIZE implies #[trigger] after[q] =~= before[q].union(
                    piece(s, e, c as int, q),
                ) by {
                    if !(first <= q <= last) {
                        lemma_piece_outside(s, e, c as int, q);
                    }
                }
                lemma_cascade_union(before, after, c as int, s, e);
            } else {
                assert forall|q: int| 0 <= q < SIZE implies #[trigger] after[q]
                    =~= before[q].difference(piece(s, e, c as int, q)) by {
                    if !(first <= q <= last) {
                        lemma_piece_outside(s, e, c as int, q);
                    }
                }
                lemma_cascade_difference(before, after, c as int, s, e);
            }
        }
    }

    /// Whether every index of segment `idx` is free.
    pub fn segment_is_free(&self, idx: usize) -> (r: bool)
        requires
            self.wf(),
            idx < SIZE,
        ensures
            r == all_in(self.free(), idx * T::spec_cap(), idx * T::spec_cap() + T::spec_cap()),
    {
        proof {
            self.lemma_children();
            vstd::arithmetic::power2::lemma2_to64();
        }
        let c = T::cap();
        assert(self.sub_seg[idx as int].wf());
        let r = check_contiguous(&self.sub_seg[idx], 0, c, c, 0);
        proof {
            let subs = self.child_sets();
            let f = self.free();
            let child = self.sub_seg[idx as int].free();
            let lo = (idx as int) * (c as int);
            assert(subs[idx as int] == child);
            assert(r == all_in(child, 0, c as int));
            if r {
                assert forall|i: int| lo <= i < lo + c implies f.contains(i) by {
                    crate::cascade_model::lemma_cascade_member(subs, c as int, idx as int, i - lo);
                    assert(child.contains(i - lo));
                }
            }
            if all_in(f, lo, lo + c) {
                assert forall|j: int| 0 <= j < c implies child.contains(j) by {
                    crate::cascade_model::lemma_cascade_member(subs, c as int, idx as int, j);
                    assert(f.contains(lo + j));
                }
            }
        }
        r
    }

    /// Takes a run of `size` free indices that begins at a multiple of
    /// `2^align_log2`: the run at `base` where one is given, else the
    /// lowest.
    pub fn alloc_contiguous(&mut self, base: Option<usize>, size: usize, align_log2: usize) -> (r:
        Option<usize>)
        requires
            old(self).wf(),
            align_log2 < usize::BITS,
            2 * Self::spec_cap() <= usize::MAX,
        ensures
            final(self).wf(),
            contiguous_result(
                old(self).free(),
                Self::spec_cap() as int,
                base,
                size as int,
                align_log2 as nat,
                r,
            ),
            r matches Some(b) ==> {
                &&& b as int % (pow2(align_log2 as nat) as int) == 0
                &&& b + size <= Self::spec_cap()
                &&& all_in(old(self).free(), b as int, b + size)
                &&& final(self).free() == old(self).free().difference(
                    set_int_range(b as int, b + size),
                )
            },
            r is None ==> final(self).free() == old(self).free(),
    {
        alloc_contiguous(self, base, size, align_log2)
    }
}

impl<T: BitAlloc, const SIZE: usize> BitAlloc for SegmentBitAllocCascade<T, SIZE> {
    open spec fn spec_cap() -> nat {
        T::spec_cap() * (SIZE as nat)
    }

    open spec fn valid() -> bool {
        T::valid() && 0 < SIZE <= MASK_BITS && T::spec_cap() * SIZE <= usize::MAX
    }

    closed spec fn wf(&self) -> bool {
        &&& Self::valid()
        &&& self.children_wf()
        &&& self.summary_ok()
    }

    closed spec fn free(&self) -> Set<int> {
        cascade_free(self.child_sets(), T::spec_cap() as int)
    }

    /// The parts of the range are released child by child, up to the first
    /// child that does not release all of its part.
    closed spec fn dealloc_extent(&self, base: int, size: int) -> int {
        release_reach(self.child_extent(), T::spec_cap() as int, SIZE as int, base, size)
    }

    proof fn lemma_valid() {
        T::lemma_valid();
        assert(0 < T::spec_cap() * SIZE) by (nonlinear_arith)
            requires
                0 < T::spec_cap(),
                0 < SIZE,
        ;
    }

    proof fn lemma_wf(&self) {
        assert(self.child_sets().len() * T::spec_cap() == T::spec_cap() * SIZE) by (nonlinear_arith)
            requires
                self.child_sets().len() == SIZE,
        ;
    }

    proof fn lemma_dealloc_extent(&self, base: int, size: int) {
        self.lemma_children();
        assert(self.child_sets().len() * T::spec_cap() == T::spec_cap() * SIZE) by (nonlinear_arith)
            requires
                self.child_sets().len() == SIZE,
        ;
        lemma_release_done(
            self.child_sets(),
            T::spec_cap() as int,
            self.child_extent(),
            base,
            size,
        );
    }

    fn cap() -> (c: usize) {
        T::cap() * SIZE
    }

    fn new() -> (s: Self) {
        let s = SegmentBitAllocCascade { bitset: mask_new(), sub_seg: fresh_children() };
        proof {
            let subs = s.child_sets();
            let c = T::spec_cap() as int;
            assert forall|i: int| !s.free().contains(i) by {
                if 0 <= i < subs.len() * c {
                    lemma_block_bound(i, SIZE as int, c);
                }
            }
            assert(s.free() =~= Set::<int>::empty());
        }
        s
    }

    fn allocate(&mut self) -> (r: Option<usize>) {
        proof {
            self.lemma_children();
            lemma_cascade_empty(self.child_sets(), T::spec_cap() as int);
        }
        if !self.is_empty() {
            let i = mask_first_index(&self.bitset).unwrap();
            assert(mask_bits(self.bitset).contains(i as int));
            assert(i < SIZE);
            let c = T::cap();
            let ghost before = self.child_sets();
            assert(self.sub_seg[i as int].wf());
            assert(!before[i as int].is_empty());
            let k = self.sub_seg[i].allocate().unwrap();
            proof {
                self.sub_seg[i as int].lemma_wf();
                old(self).sub_seg[i as int].lemma_wf();
                lemma_mul_le(i as int, SIZE - 1, c as int);
                assert((SIZE - 1) * c + c == SIZE * c) by (nonlinear_arith);
                assert(c * SIZE == SIZE * c) by (nonlinear_arith);
                assert forall|p: int| 0 <= p < i implies (#[trigger] before[p]).is_empty() by {
                    assert(!mask_bits(old(self).bitset).contains(p));
                    assert(old(self).sub_seg[p].free().is_empty());
                }
                lemma_cascade_take(before, c as int, i as int, k as int);
            }
            let res = k + i * c;
            let empty = self.sub_seg[i].is_empty();
            mask_set(&mut self.bitset, i, !empty);
            proof {
                assert(self.child_sets() =~= before.update(
                    i as int,
                    before[i as int].remove(k as int),
                ));
                assert(i * c == (i as int) * (c as int));
            }
            Some(res)
        } else {
            None
        }
    }

    fn next(&self, key: usize) -> (r: Option<usize>) {
        proof {
            self.lemma_children();
        }
        let c = T::cap();
        let idx = key / c;
        let ghost subs = self.child_sets();
        let ghost from = key as int;
        proof {
            lemma_split(from, c as int);
            assert(c * idx == idx * c) by (nonlinear_arith);
        }
        let mut i = idx;
        while i < SIZE
            invariant
                self.wf(),
                c == T::spec_cap(),
                c > 0,
                T::spec_cap() * SIZE <= usize::MAX,
                subs == self.child_sets(),
                subs.len() == SIZE,
                bounded(subs, c as int),
                from == key,
                idx == from / (c as int),
                from == idx * c + from % (c as int),
                c * idx == idx * c,
                idx <= i,
                forall|p: int|
                    idx <= p < i && p < SIZE ==> none_in(
                        #[trigger] subs[p],
                        if p == idx {
                            from % (c as int)
                        } else {
                            0
                        },
                        c as int,
                    ),
            decreases SIZE - i,
        {
            proof {
                assert(self.sub_seg[i as int].wf());
                assert(subs[i as int] == self.sub_seg[i as int].free());
            }
            if mask_get(&self.bitset, i) {
                let lo = if i == idx {
                    key - c * idx
                } else {
                    0
                };
                match self.sub_seg[i].next(lo) {
                    Some(x) => {
                        proof {
                            lemma_cascade_gap(subs, c as int, from, i as int);
                            lemma_mul_le(i as int, SIZE - 1, c as int);
                            assert((SIZE - 1) * c + c == SIZE * c) by (nonlinear_arith);
                            if i > idx {
                                lemma_mul_le(idx as int + 1, i as int, c as int);
                                assert((idx + 1) * c == idx * c + c) by (nonlinear_arith);
                            }
                            self.sub_seg[i as int].lemma_wf();
                            lemma_cascade_next(subs, c as int, from, i as int, lo as int, x as int);
                            assert(c * i == (i as int) * (c as int)) by (nonlinear_arith);
                        }
                        return Some(x + c * i);
                    },
                    None => {},
                }
            }
            i += 1;
        }
        proof {
            if idx < SIZE {
                lemma_cascade_gap(subs, c as int, from, SIZE as int);
            } else {
                lemma_mul_le(SIZE as int, idx as int, c as int);
            }
        }
        None
    }

    fn dealloc(&mut self, key: usize) -> (r: bool) {
        proof {
            self.lemma_children();
            lemma_cascade_put(self.child_sets(), T::spec_cap() as int, key as int);
        }
        let c = T::cap();
        let i = key / c;
        let ghost before = self.child_sets();
        proof {
            assert(self.sub_seg[i as int].wf());
        }
        mask_set(&mut self.bitset, i, true);
        let r = self.sub_seg[i].dealloc(key % c);
        proof {
            assert(self.sub_seg[i as int].free().contains(key as int % c as int));
            assert(self.child_sets() =~= before.update(
                i as int,
                before[i as int].insert(key as int % c as int),
            ));
        }
        r
    }

    fn dealloc_contiguous(&mut self, base: usize, size: usize) -> (r: bool) {
        let ghost before = self.child_sets();
        let ghost ext = self.child_extent();
        let ghost s = base as int;
        let ghost e = base + size;
        proof {
            self.lemma_children();
            lemma_release_done(before, T::spec_cap() as int, ext, s, size as int);
        }
        let c = T::cap();
        let cap = c * SIZE;
        proof {
            assert(c * SIZE == SIZE * c) by (nonlinear_arith);
        }
        if base > cap || size > cap - base {
            proof {
                assert(self.free() =~= old(self).free().union(set_int_range(s, s + 0)));
            }
            return false;
        }
        if size == 0 {
            proof {
                assert(self.free() =~= old(self).free().union(set_int_range(s, s + 0)));
            }
            return true;
        }
        let start = base;
        let end = base + size;
        let first = start / c;
        let last = (end - 1) / c;
        proof {
            lemma_block_bound(e - 1, SIZE as int, c as int);
            crate::arith::lemma_block_monotone(s, e - 1, c as int);
            lemma_split(s, c as int);
        }
        let mut success = true;
        let ghost mut reach = s;
        let mut i = first;
        while i <= last
            invariant
                T::valid(),
                0 < SIZE <= MASK_BITS,
                T::spec_cap() * SIZE <= usize::MAX,
                c == T::spec_cap(),
                c > 0,
                s == start,
                e == end,
                0 <= s < e <= c * SIZE,
                first == s / (c as int),
                last == (e - 1) / (c as int),
                first <= i <= last + 1,
                last < SIZE,
                before == old(self).child_sets(),
                before.len() == SIZE,
                ext == old(self).child_extent(),
                bounded(before, c as int),
                extent_sound(before, c as int, ext),
                self.children_wf(),
                self.summary_ok(),
                s <= reach <= e,
                forall|q: int| i <= q < SIZE ==> #[trigger] self.sub_seg[q] == old(self).sub_seg[q],
                forall|q: int|
                    0 <= q < SIZE ==> #[trigger] self.child_sets()[q] == before[q].union(
                        piece(s, reach, c as int, q),
                    ),
                success ==> reach == crate::cascade_model::release_front(s, e, c as int, i as int),
                success ==> release_reach(ext, c as int, SIZE as int, s, e - s) == (reach - s)
                    + extent_blocks(ext, c as int, s, e, i as int, (SIZE - i) as nat),
                !success ==> release_reach(ext, c as int, SIZE as int, s, e - s) == reach - s
                    && reach < e,
            decreases last + 1 - i,
        {
            let begin = if start / c == i {
                start % c
            } else {
                0
            };
            let stop = if end / c == i {
                end % c
            } else {
                c
            };
            let ghost now = self.child_sets();
            proof {
                lemma_piece_bounds(s, e, c as int, i as int);
                assert(self.sub_seg[i as int].wf());
                assert(self.sub_seg[i as int] == old(self).sub_seg[i as int]);
            }
            if success {
                let ghost got = ext(i as int, begin as int, stop - begin);
                proof {
                    assert(got == self.sub_seg[i as int].dealloc_extent(
                        begin as int,
                        stop - begin,
                    ));
                    lemma_release_step(
                        before,
                        c as int,
                        ext,
                        s,
                        e,
                        i as int,
                        reach,
                    );
                }
                success = self.sub_seg[i].dealloc_contiguous(begin, stop - begin);
                proof {
                    assert(self.sub_seg[i as int].free() == now[i as int].union(
                        set_int_range(begin as int, begin + got),
                    ));
                    assert forall|q: int| 0 <= q < SIZE implies #[trigger] self.child_sets()[q]
                        == before[q].union(piece(s, reach + got, c as int, q)) by {
                        if q == i {
                            assert(self.child_sets()[q] =~= before[q].union(
                                piece(s, reach + got, c as int, q),
                            ));
                        } else {
                            assert(self.child_sets()[q] == now[q]);
                        }
                    }
                    reach = reach + got;
                }
            }
            let ghost mid = self.child_sets();
            let empty = self.sub_seg[i].is_empty();
            mask_set(&mut self.bitset, i, !empty);
            proof {
                assert forall|q: int| 0 <= q < SIZE implies #[trigger] self.child_sets()[q]
                    == before[q].union(piece(s, reach, c as int, q)) by {
                    assert(self.child_sets()[q] == mid[q]);
                }
            }
            i += 1;
        }
        proof {
            lemma_cascade_union(before, self.child_sets(), c as int, s, reach);
            if success {
                lemma_split(e - 1, c as int);
                assert((last + 1) * c == last * c + c) by (nonlinear_arith);
                assert(reach == e);
            }
        }
        success
    }

    fn insert(&mut self, range: Range<usize>) {
        self.for_range(range, true);
    }

    fn remove(&mut self, range: Range<usize>) {
        self.for_range(range, false);
    }

    fn any(&self) -> (r: bool) {
        !self.is_empty()
    }

    fn is_empty(&self) -> (r: bool) {
        proof {
            self.lemma_children();
            lemma_cascade_empty(self.child_sets(), T::spec_cap() as int);
            let held = mask_bits(self.bitset);
            if !held.is_empty() {
                let t = choose|t: int| held.contains(t);
                assert(!self.sub_seg[t].free().is_empty());
                assert(!self.child_sets()[t].is_empty());
            } else {
                assert forall|q: int| 0 <= q < SIZE implies (#[trigger] self.child_sets()[
                    q
                ]).is_empty() by {
                    assert(!held.contains(q));
                    assert(self.sub_seg[q].free().is_empty());
                }
            }
        }
        mask_is_empty(&self.bitset)
    }

    fn test(&self, key: usize) -> (r: bool) {
        proof {
            self.lemma_children();
            lemma_cascade_put(self.child_sets(), T::spec_cap() as int, key as int);
        }
        let c = T::cap();
        assert(self.sub_seg[key as int / c as int].wf());
        self.sub_seg[key / c].test(key % c)
    }
}

impl<T: BitAlloc, const SIZE: usize> Default for SegmentBitAllocCascade<T, SIZE> {
    /// The cascade with no free index.
    fn default() -> (s: Self)
        ensures
            Self::valid() ==> s.wf(),
            s.free() == Set::<int>::empty(),
    {
        Self::new()
    }
}

} // verus!
