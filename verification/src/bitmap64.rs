//! The leaf of the allocator tree: one machine word, one bit per index.

use crate::bit_alloc::{all_in, none_in, BitAlloc};
use crate::bits::{
    bits64,
    get_bit_u64,
    get_bits_u64,
    lemma_clear_bit64,
    lemma_field64,
    lemma_fill64,
    lemma_get_bit64,
    lemma_lowest64,
    lemma_ones_fit64,
    lemma_raise_bit64,
    lemma_wipe64,
    lemma_zero64,
    set_bit_u64,
    set_bits_u64,
};
use crate::contiguous::{alloc_contiguous, contiguous_result};
use core::ops::Range;
use vstd::arithmetic::power2::pow2;
use vstd::prelude::*;
use vstd::set_lib::set_int_range;

verus! {

/// A bit allocator over 64 indices, held in one word. A one bit marks a
/// free index, so the zero word has nothing to give.
pub struct BitAlloc64(u64);

impl BitAlloc for BitAlloc64 {
    open spec fn spec_cap() -> nat {
        64
    }

    open spec fn valid() -> bool {
        true
    }

    open spec fn wf(&self) -> bool {
        true
    }

    closed spec fn free(&self) -> Set<int> {
        bits64(self.0)
    }

    /// A word is freed as a whole or not at all.
    open spec fn dealloc_extent(&self, base: int, size: int) -> int {
        if base + size <= 64 && none_in(self.free(), base, base + size) {
            size
        } else {
            0
        }
    }

    proof fn lemma_valid() {
    }

    proof fn lemma_wf(&self) {
    }

    proof fn lemma_dealloc_extent(&self, base: int, size: int) {
    }

    fn cap() -> (c: usize) {
        64
    }

    fn new() -> (s: Self) {
        proof {
            lemma_zero64();
        }
        BitAlloc64(0)
    }

    fn allocate(&mut self) -> (r: Option<usize>) {
        let i = self.0.trailing_zeros() as usize;
        proof {
            lemma_lowest64(self.0);
        }
        if i < 64 {
            proof {
                lemma_clear_bit64(self.0, i as u64);
            }
            set_bit_u64(&mut self.0, i, false);
            assert(self.free() =~= old(self).free().remove(i as int));
            Some(i)
        } else {
            assert(self.free() =~= Set::<int>::empty());
            None
        }
    }

    fn next(&self, key: usize) -> (r: Option<usize>) {
        let mut i = key;
        while i < 64
            invariant
                key <= i,
                none_in(self.free(), key as int, i as int),
            decreases 64 - i,
        {
            proof {
                lemma_get_bit64(self.0, i as u64);
            }
            if get_bit_u64(self.0, i) {
                return Some(i);
            }
            i += 1;
        }
        None
    }

    fn dealloc(&mut self, key: usize) -> (r: bool) {
        let success = !self.test(key);
        proof {
            lemma_raise_bit64(self.0, key as u64);
        }
        set_bit_u64(&mut self.0, key, true);
        assert(self.free() =~= old(self).free().insert(key as int));
        success
    }

    fn dealloc_contiguous(&mut self, base: usize, size: usize) -> (r: bool) {
        if base > 64 || size > 64 - base {
            assert(self.free() =~= old(self).free().union(set_int_range(base as int, base + 0)));
            return false;
        }
        if size == 0 {
            assert(self.free() =~= old(self).free().union(set_int_range(base as int, base + 0)));
            return true;
        }
        let field = get_bits_u64(self.0, base..base + size);
        proof {
            let word = self.0;
            let end = (base + size) as u64;
            lemma_lowest64(field);
            if field == 0 {
                assert forall|i: int| base <= i < base + size implies !self.free().contains(
                    i,
                ) by {
                    lemma_field64(word, base as u64, end, i - base);
                }
            } else {
                let t = field.trailing_zeros() as int;
                lemma_field64(word, base as u64, end, t);
                assert(self.free().contains(base + t));
            }
        }
        if field == 0 {
            self.insert(base..base + size);
            return true;
        }
        assert(self.free() =~= old(self).free().union(set_int_range(base as int, base + 0)));
        false
    }

    fn insert(&mut self, range: Range<usize>) {
        if range.start < range.end {
            let ones = get_bits_u64(u64::MAX, range.start..range.end);
            proof {
                lemma_ones_fit64(range.start as u64, range.end as u64);
                lemma_fill64(self.0, range.start as u64, range.end as u64);
            }
            set_bits_u64(&mut self.0, range.start..range.end, ones);
        }
        assert(self.free() =~= old(self).free().union(
            set_int_range(range.start as int, range.end as int),
        ));
    }

    fn remove(&mut self, range: Range<usize>) {
        if range.start < range.end {
            proof {
                lemma_wipe64(self.0, range.start as u64, range.end as u64);
            }
            set_bits_u64(&mut self.0, range.start..range.end, 0);
        }
        assert(self.free() =~= old(self).free().difference(
            set_int_range(range.start as int, range.end as int),
        ));
    }

    fn any(&self) -> (r: bool) {
        !self.is_empty()
    }

    fn is_empty(&self) -> (r: bool) {
        proof {
            lemma_lowest64(self.0);
            if self.0 != 0 {
                assert(self.free().contains(self.0.trailing_zeros() as int));
            }
        }
        self.0 == 0
    }

    fn test(&self, key: usize) -> (r: bool) {
        proof {
            lemma_get_bit64(self.0, key as u64);
        }
        get_bit_u64(self.0, key)
    }
}

impl BitAlloc64 {
    /// Takes a run of `size` free indices that begins at a multiple of
    /// `2^align_log2`: the run at `base` where one is given, else the
    /// lowest.
    pub fn alloc_contiguous(&mut self, base: Option<usize>, size: usize, align_log2: usize) -> (r:
        Option<usize>)
        requires
            align_log2 < usize::BITS,
        ensures
            contiguous_result(old(self).free(), 64, base, size as int, align_log2 as nat, r),
            r matches Some(b) ==> {
                &&& b as int % (pow2(align_log2 as nat) as int) == 0
                &&& b + size <= 64
                &&& all_in(old(self).free(), b as int, b + size)
                &&& final(self).free() == old(self).free().difference(
                    set_int_range(b as int, b + size),
                )
            },
            r is None ==> final(self).free() == old(self).free(),
    {
        alloc_contiguous(self, base, size, align_log2)
    }
}

impl Default for BitAlloc64 {
    /// The allocator with no free index.
    fn default() -> (s: Self)
        ensures
            s.wf(),
            s.free() == Set::<int>::empty(),
    {
        Self::new()
    }
}

} // verus!
