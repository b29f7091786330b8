//! The eight-way cascade: eight child allocators under one summary byte.

use crate::arith::{lemma_block_bound, lemma_mul_le, lemma_split};
use crate::bit_alloc::{all_in, none_in, BitAlloc};
use crate::bits::{bit8, get_bit_u8, lemma_get_bit8, lemma_lowest8, lemma_set_bit8, set_bit_u8};
use crate::cascade_model::{
    bounded,
    cascade_free,
    extent_blocks,
    extent_sound,
    lemma_cascade_difference,
    lemma_cascade_empty,
    lemma_cascade_gap,
    lemma_cascade_next,
    lemma_cascade_put,
    lemma_cascade_take,
    lemma_cascade_union,
    lemma_piece_bounds,
    lemma_piece_outside,
    lemma_release_done,
    lemma_release_step,
    piece,
    release_reach,
};
use crate::contiguous::{alloc_contiguous, contiguous_result};
use core::ops::Range;
use vstd::arithmetic::power2::pow2;
use vstd::prelude::*;
use vstd::set_lib::set_int_range;

verus! {

/// A bit allocator over eight children of one kind. Bit `q` of the summary
/// byte tells whether child `q` has a free index, so that a search never
/// enters a child that has none.
pub struct BitAllocCascade8<T: BitAlloc> {
    bitset: u8,
    sub: [T; 8],
}

impl<T: BitAlloc> BitAllocCascade8<T> {
    /// The free sets of the eight children.
    pub closed spec fn child_sets(&self) -> Seq<Set<int>> {
        Seq::new(8, |q: int| self.sub[q].free())
    }

    /// Bit `q` of the summary byte.
    pub closed spec fn summary(&self, q: int) -> bool {
        bit8(self.bitset, q)
    }

    /// What each child would free of a range.
    pub closed spec fn child_extent(&self) -> spec_fn(int, int, int) -> int {
        |q: int, lo: int, len: int| self.sub[q].dealloc_extent(lo, len)
    }

    /// Every child is well-formed.
    closed spec fn children_wf(&self) -> bool {
        forall|q: int| 0 <= q < 8 ==> (#[trigger] self.sub[q]).wf()
    }

    /// The summary byte tells of every child whether it has a free index.
    closed spec fn summary_ok(&self) -> bool {
        forall|q: int|
            0 <= q < 8 ==> bit8(self.bitset, q) == !(#[trigger] self.sub[q]).free().is_empty()
    }

    /// In a well-formed cascade, summary bit `q` is set exactly when child
    /// `q` has a free index.
    pub proof fn lemma_summary(&self, q: int)
        requires
            self.wf(),
            0 <= q < 8,
        ensures
            self.summary(q) == !self.child_sets()[q].is_empty(),
            self.free() == cascade_free(self.child_sets(), T::spec_cap() as int),
    {
        assert(self.sub[q].wf());
    }

    /// What the children of a well-formed cascade provide to the model.
    proof fn lemma_children(&self)
        requires
            self.children_wf(),
            T::valid(),
        ensures
            T::spec_cap() > 0,
            self.child_sets().len() == 8,
            bounded(self.child_sets(), T::spec_cap() as int),
            extent_sound(self.child_sets(), T::spec_cap() as int, self.child_extent()),
    {
        T::lemma_valid();
        let subs = self.child_sets();
        let c = T::spec_cap() as int;
        assert forall|q: int, j: int|
            0 <= q < subs.len() && #[trigger] subs[q].contains(j) implies 0 <= j < c by {
            self.sub[q].lemma_wf();
        }
        let ext = self.child_extent();
        assert forall|q: int, lo: int, len: int|
            0 <= q < subs.len() && 0 <= lo && 0 <= len implies {
            let got = #[trigger] ext(q, lo, len);
            &&& 0 <= got <= len
            &&& none_in(subs[q], lo, lo + got)
            &&& (lo + len > c ==> got == 0)
            &&& (lo + len <= c && none_in(subs[q], lo, lo + len) ==> got == len)
        } by {
            self.sub[q].lemma_dealloc_extent(lo, len);
        }
    }

    /// Summary bit `q`.
    pub fn summary_at(&self, q: usize) -> (r: bool)
        requires
            q < 8,
        ensures
            r == self.summary(q as int),
    {
        proof {
            lemma_get_bit8(self.bitset, q as u8);
        }
        get_bit_u8(self.bitset, q)
    }

    /// Whether child `q` has no free index.
    pub fn child_is_empty(&self, q: usize) -> (r: bool)
        requires
            self.wf(),
            q < 8,
        ensures
            r == self.child_sets()[q as int].is_empty(),
    {
        assert(self.sub[q as int].wf());
        self.sub[q].is_empty()
    }

    /// Turns every index of the range free, or every index used.
    fn for_range(&mut self, range: Range<usize>, free: bool)
        requires
            old(self).wf(),
            range.start <= range.end <= Self::spec_cap(),
        ensures
            final(self).wf(),
            final(self).free() == if free {
                old(self).free().union(set_int_range(range.start as int, range.end as int))
            } else {
                old(self).free().difference(set_int_range(range.start as int, range.end as int))
            },
    {
        let start = range.start;
        let end = range.end;
        let ghost before = old(self).child_sets();
        let ghost s = start as int;
        let ghost e = end as int;
        proof {
            self.lemma_children();
        }
        let c = T::cap();
        if start == end {
            proof {
                assert forall|q: int| 0 <= q < 8 implies #[trigger] before[q] =~= before[q].union(
                    piece(s, e, c as int, q),
                ) && before[q] =~= before[q].difference(piece(s, e, c as int, q)) by {
                    lemma_piece_outside(s, e, c as int, q);
                }
                lemma_cascade_union(before, before, c as int, s, e);
                lemma_cascade_difference(before, before, c as int, s, e);
            }
            return;
        }
        let first = start / c;
        let last = (end - 1) / c;
        proof {
            lemma_block_bound(e - 1, 8, c as int);
            crate::arith::lemma_block_monotone(s, e - 1, c as int);
        }
        let mut i = first;
        while i <= last
            invariant
                T::valid(),
                T::spec_cap() * 8 <= usize::MAX,
                c == T::spec_cap(),
                c > 0,
                s == start,
                e == end,
                0 <= s < e <= c * 8,
                first == s / (c as int),
                last == (e - 1) / (c as int),
                first <= i <= last + 1,
                last < 8,
                before == old(self).child_sets(),
                self.children_wf(),
                self.summary_ok(),
                forall|q: int|
                    0 <= q < 8 && !(first <= q < i) ==> #[trigger] self.child_sets()[q]
                        == before[q],
                forall|q: int|
                    first <= q < i ==> #[trigger] self.child_sets()[q] == if free {
                        before[q].union(piece(s, e, c as int, q))
                    } else {
                        before[q].difference(piece(s, e, c as int, q))
                    },
            decreases last + 1 - i,
        {
            let begin = if start / c == i {
                start % c
            } else {
                0
            };
            let stop = if end / c == i {
                end % c
            } else {
                c
            };
            let ghost now = self.child_sets();
            let ghost word = self.bitset;
            proof {
                lemma_piece_bounds(s, e, c as int, i as int);
                assert(self.sub[i as int].wf());
                assert(now[i as int] == before[i as int]);
            }
            if free {
                self.sub[i].insert(begin..stop);
            } else {
                self.sub[i].remove(begin..stop);
            }
            let empty = self.sub[i].is_empty();
            proof {
                lemma_set_bit8(word, i as u8);
            }
            set_bit_u8(&mut self.bitset, i, !empty);
            proof {
                assert forall|q: int| 0 <= q < 8 && q != i implies #[trigger] self.child_sets()[q]
                    == now[q] by {}
            }
            i += 1;
        }
        proof {
            let after = self.child_sets();
            if free {
                assert forall|q: int| 0 <= q < 8 implies #[trigger] after[q] =~= before[q].union(
                    piece(s, e, c as int, q),
                ) by {
                    if !(first <= q <= last) {
                        lemma_piece_outside(s, e, c as int, q);
                    }
                }
                lemma_cascade_union(before, after, c as int, s, e);
            } else {
                assert forall|q: int| 0 <= q < 8 implies #[trigger] after[q]
                    =~= before[q].difference(piece(s, e, c as int, q)) by {
                    if !(first <= q <= last) {
                        lemma_piece_outside(s, e, c as int, q);
                    }
                }
                lemma_cascade_difference(before, after, c as int, s, e);
            }
        }
    }

    /// Takes a run of `size` free indices that begins at a multiple of
    /// `2^align_log2`: the run at `base` where one is given, else the
    /// lowest.
    pub fn alloc_contiguous(&mut self, base: Option<usize>, size: usize, align_log2: usize) -> (r:
        Option<usize>)
        requires
            old(self).wf(),
            align_log2 < usize::BITS,
            2 * Self::spec_cap() <= usize::MAX,
        ensures
            final(self).wf(),
            contiguous_result(
                old(self).free(),
                Self::spec_cap() as int,
                base,
                size as int,
                align_log2 as nat,
                r,
            ),
            r matches Some(b) ==> {
                &&& b as int % (pow2(align_log2 as nat) as int) == 0
                &&& b + size <= Self::spec_cap()
                &&& all_in(old(self).free(), b as int, b + size)
                &&& final(self).free() == old(self).free().difference(
                    set_int_range(b as int, b + size),
                )
            },
            r is None ==> final(self).free() == old(self).free(),
    {
        alloc_contiguous(self, base, size, align_log2)
    }
}

impl<T: BitAlloc> BitAlloc for BitAllocCascade8<T> {
    open spec fn spec_cap() -> nat {
        T::spec_cap() * 8
    }

    open spec fn valid() -> bool {
        T::valid() && T::spec_cap() * 8 <= usize::MAX
    }

    closed spec fn wf(&self) -> bool {
        &&& Self::valid()
        &&& self.children_wf()
        &&& self.summary_ok()
    }

    closed spec fn free(&self) -> Set<int> {
        cascade_free(self.child_sets(), T::spec_cap() as int)
    }

    /// The parts of the range are released child by child, up to the first
    /// child that does not release all of its part.
    closed spec fn dealloc_extent(&self, base: int, size: int) -> int {
        release_reach(self.child_extent(), T::spec_cap() as int, 8, base, size)
    }

    proof fn lemma_valid() {
        T::lemma_valid();
    }

    proof fn lemma_wf(&self) {
        assert(self.child_sets().len() * T::spec_cap() == T::spec_cap() * 8);
    }

    proof fn lemma_dealloc_extent(&self, base: int, size: int) {
        self.lemma_children();
        lemma_release_done(
            self.child_sets(),
            T::spec_cap() as int,
            self.child_extent(),
            base,
            size,
        );
    }

    fn cap() -> (c: usize) {
        T::cap() * 8
    }

    fn new() -> (s: Self) {
        let s = BitAllocCascade8 {
            bitset: 0,
            sub: [
                T::new(),
                T::new(),
                T::new(),
                T::new(),
                T::new(),
                T::new(),
                T::new(),
                T::new(),
            ],
        };
        proof {
            lemma_lowest8(0);
            let subs = s.child_sets();
            let c = T::spec_cap() as int;
            assert forall|i: int| !s.free().contains(i) by {
                if 0 <= i < subs.len() * c {
                    lemma_block_bound(i, 8, c);
                }
            }
            assert(s.free() =~= Set::<int>::empty());
        }
        s
    }

    fn allocate(&mut self) -> (r: Option<usize>) {
        proof {
            self.lemma_children();
            lemma_cascade_empty(self.child_sets(), T::spec_cap() as int);
            lemma_lowest8(self.bitset);
        }
        if !self.is_empty() {
            let i = self.bitset.trailing_zeros() as usize;
            let c = T::cap();
            let ghost before = self.child_sets();
            let ghost word = self.bitset;
            assert(self.sub[i as int].wf());
            assert(!before[i as int].is_empty());
            let k = self.sub[i].allocate().unwrap();
            proof {
                self.sub[i as int].lemma_wf();
                old(self).sub[i as int].lemma_wf();
                lemma_mul_le(i as int, 7, c as int);
                assert forall|p: int| 0 <= p < i implies (#[trigger] before[p]).is_empty() by {
                    assert(!bit8(word, p));
                    assert(old(self).sub[p].free().is_empty());
                }
                lemma_cascade_take(before, c as int, i as int, k as int);
            }
            let res = k + i * c;
            let empty = self.sub[i].is_empty();
            proof {
                lemma_set_bit8(word, i as u8);
            }
            set_bit_u8(&mut self.bitset, i, !empty);
            proof {
                assert(self.child_sets() =~= before.update(
                    i as int,
                    before[i as int].remove(k as int),
                ));
                assert(i * c == (i as int) * (c as int));
            }
            Some(res)
        } else {
            None
        }
    }

    fn next(&self, key: usize) -> (r: Option<usize>) {
        proof {
            self.lemma_children();
        }
        let c = T::cap();
        let idx = key / c;
        let ghost subs = self.child_sets();
        let ghost from = key as int;
        proof {
            lemma_split(from, c as int);
            assert(c * idx == idx * c) by (nonlinear_arith);
        }
        let mut i = idx;
        while i < 8
            invariant
                self.wf(),
                c == T::spec_cap(),
                c > 0,
                T::spec_cap() * 8 <= usize::MAX,
                subs == self.child_sets(),
                subs.len() == 8,
                bounded(subs, c as int),
                from == key,
                idx == from / (c as int),
                from == idx * c + from % (c as int),
                c * idx == idx * c,
                idx <= i,
                forall|p: int|
                    idx <= p < i && p < 8 ==> none_in(
                        #[trigger] subs[p],
                        if p == idx {
                            from % (c as int)
                        } else {
                            0
                        },
                        c as int,
                    ),
            decreases 8 - i,
        {
            proof {
                lemma_get_bit8(self.bitset, i as u8);
                assert(self.sub[i as int].wf());
                assert(subs[i as int] == self.sub[i as int].free());
            }
            if get_bit_u8(self.bitset, i) {
                let lo = if i == idx {
                    key - c * idx
                } else {
                    0
                };
                match self.sub[i].next(lo) {
                    Some(x) => {
                        proof {
                            lemma_cascade_gap(subs, c as int, from, i as int);
                            lemma_mul_le(i as int, 7, c as int);
                            if i > idx {
                                lemma_mul_le(idx as int + 1, i as int, c as int);
                                assert((idx + 1) * c == idx * c + c) by (nonlinear_arith);
                            }
                            self.sub[i as int].lemma_wf();
                            lemma_cascade_next(subs, c as int, from, i as int, lo as int, x as int);
                            assert(c * i == (i as int) * (c as int)) by (nonlinear_arith);
                        }
                        return Some(x + c * i);
                    },
                    None => {},
                }
            }
            i += 1;
        }
        proof {
            if idx < 8 {
                lemma_cascade_gap(subs, c as int, from, 8);
            } else {
                lemma_mul_le(8, idx as int, c as int);
            }
        }
        None
    }

    fn dealloc(&mut self, key: usize) -> (r: bool) {
        proof {
            self.lemma_children();
            lemma_cascade_put(self.child_sets(), T::spec_cap() as int, key as int);
        }
        let c = T::cap();
        let i = key / c;
        let ghost before = self.child_sets();
        let ghost word = self.bitset;
        proof {
            lemma_set_bit8(word, i as u8);
            assert(self.sub[i as int].wf());
        }
        set_bit_u8(&mut self.bitset, i, true);
        let r = self.sub[i].dealloc(key % c);
        proof {
            assert(self.sub[i as int].free().contains(key as int % c as int));
            assert(self.child_sets() =~= before.update(
                i as int,
                before[i as int].insert(key as int % c as int),
            ));
        }
        r
    }

    fn dealloc_contiguous(&mut self, base: usize, size: usize) -> (r: bool) {
        let ghost before = self.child_sets();
        let ghost ext = self.child_extent();
        let ghost s = base as int;
        let ghost e = base + size;
        proof {
            self.lemma_children();
            lemma_release_done(before, T::spec_cap() as int, ext, s, size as int);
        }
        let c = T::cap();
        let cap = c * 8;
        if base > cap || size > cap - base {
            proof {
                assert(self.free() =~= old(self).free().union(set_int_range(s, s + 0)));
            }
            return false;
        }
        if size == 0 {
            proof {
                assert(self.free() =~= old(self).free().union(set_int_range(s, s + 0)));
            }
            return true;
        }
        let start = base;
        let end = base + size;
        let first = start / c;
        let last = (end - 1) / c;
        proof {
            lemma_block_bound(e - 1, 8, c as int);
            crate::arith::lemma_block_monotone(s, e - 1, c as int);
            lemma_split(s, c as int);
        }
        let mut success = true;
        let ghost mut reach = s;
        let mut i = first;
        while i <= last
            invariant
                T::valid(),
                T::spec_cap() * 8 <= usize::MAX,
                c == T::spec_cap(),
                c > 0,
                s == start,
                e == end,
                0 <= s < e <= c * 8,
                first == s / (c as int),
                last == (e - 1) / (c as int),
                first <= i <= last + 1,
                last < 8,
                before == old(self).child_sets(),
                before.len() == 8,
                ext == old(self).child_extent(),
                bounded(before, c as int),
                extent_sound(before, c as int, ext),
                self.children_wf(),
                self.summary_ok(),
                s <= reach <= e,
                forall|q: int| i <= q < 8 ==> #[trigger] self.sub[q] == old(self).sub[q],
                forall|q: int|
                    0 <= q < 8 ==> #[trigger] self.child_sets()[q] == before[q].union(
                        piece(s, reach, c as int, q),
                    ),
                success ==> reach == crate::cascade_model::release_front(s, e, c as int, i as int),
                success ==> release_reach(ext, c as int, 8, s, e - s) == (reach - s)
                    + extent_blocks(ext, c as int, s, e, i as int, (8 - i) as nat),
                !success ==> release_reach(ext, c as int, 8, s, e - s) == reach - s && reach < e,
            decreases last + 1 - i,
        {
            let begin = if start / c == i {
                start % c
            } else {
                0
            };
            let stop = if end / c == i {
                end % c
            } else {
                c
            };
            let ghost now = self.child_sets();
            let ghost word = self.bitset;
            proof {
                lemma_piece_bounds(s, e, c as int, i as int);
                assert(self.sub[i as int].wf());
                assert(self.sub[i as int] == old(self).sub[i as int]);
            }
            if success {
                let ghost got = ext(i as int, begin as int, stop - begin);
                proof {
                    assert(got == self.sub[i as int].dealloc_extent(begin as int, stop - begin));
                    lemma_release_step(
                        before,
                        c as int,
                        ext,
                        s,
                        e,
                        i as int,
                        reach,
                    );
                }
                success = self.sub[i].dealloc_contiguous(begin, stop - begin);
                proof {
                    assert(self.sub[i as int].free() == now[i as int].union(
                        set_int_range(begin as int, begin + got),
                    ));
                    assert forall|q: int| 0 <= q < 8 implies #[trigger] self.child_sets()[q]
                        == before[q].union(piece(s, reach + got, c as int, q)) by {
                        if q == i {
                            assert(self.child_sets()[q] =~= before[q].union(
                                piece(s, reach + got, c as int, q),
                            ));
                        } else {
                            assert(self.child_sets()[q] == now[q]);
                        }
                    }
                    reach = reach + got;
                }
            }
            let ghost mid = self.child_sets();
            let empty = self.sub[i].is_empty();
            proof {
                lemma_set_bit8(word, i as u8);
            }
            set_bit_u8(&mut self.bitset, i, !empty);
            proof {
                assert forall|q: int| 0 <= q < 8 implies #[trigger] self.child_sets()[q]
                    == before[q].union(piece(s, reach, c as int, q)) by {
                    assert(self.child_sets()[q] == mid[q]);
                }
            }
            i += 1;
        }
        proof {
            lemma_cascade_union(before, self.child_sets(), c as int, s, reach);
            if success {
                lemma_split(e - 1, c as int);
                assert((last + 1) * c == last * c + c) by (nonlinear_arith);
                assert(reach == e);
            }
        }
        success
    }

    fn insert(&mut self, range: Range<usize>) {
        self.for_range(range, true);
    }

    fn remove(&mut self, range: Range<usize>) {
        self.for_range(range, false);
    }

    fn any(&self) -> (r: bool) {
        !self.is_empty()
    }

    fn is_empty(&self) -> (r: bool) {
        proof {
            self.lemma_children();
            lemma_cascade_empty(self.child_sets(), T::spec_cap() as int);
            lemma_lowest8(self.bitset);
            if self.bitset != 0 {
                let t = self.bitset.trailing_zeros() as int;
                assert(!self.sub[t].free().is_empty());
                assert(!self.child_sets()[t].is_empty());
            } else {
                assert forall|q: int| 0 <= q < 8 implies (#[trigger] self.child_sets()[
                    q
                ]).is_empty() by {
                    assert(!bit8(self.bitset, q));
                    assert(self.sub[q].free().is_empty());
                }
            }
        }
        self.bitset == 0
    }

    fn test(&self, key: usize) -> (r: bool) {
        proof {
            self.lemma_children();
            lemma_cascade_put(self.child_sets(), T::spec_cap() as int, key as int);
        }
        let c = T::cap();
        assert(self.sub[key as int / c as int].wf());
        self.sub[key / c].test(key % c)
    }
}

impl<T: BitAlloc> Default for BitAllocCascade8<T> {
    /// The cascade with no free index.
    fn default() -> (s: Self)
        ensures
            Self::valid() ==> s.wf(),
            s.free() == Set::<int>::empty(),
    {
        Self::new()
    }
}

} // verus!
