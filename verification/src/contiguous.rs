//! Search for aligned runs of free indices.
//!
//! The search walks the allocator with `next` alone: it never looks at more
//! than one index per step and jumps over every gap it meets, so its cost is
//! the length of the run plus the number of gaps before it.

use crate::align::{align_up_log2, is_aligned_log2};
use crate::arith::{align_up_spec, lemma_align_up, lemma_align_up_least, lemma_next_multiple};
use crate::bit_alloc::{all_in, is_first_run, is_run, run_granted, BitAlloc};
use vstd::arithmetic::power2::pow2;
use vstd::bits::{lemma_usize_pow2_no_overflow, lemma_usize_shl_is_mul, lemma_usize_shr_is_div};
use vstd::prelude::*;
use vstd::set_lib::set_int_range;

verus! {

/// A run cannot start at `b` when one of its indices is not free.
proof fn lemma_broken_run(
    free: Set<int>,
    capacity: int,
    size: int,
    align_log2: nat,
    b: int,
    gap: int,
)
    requires
        !free.contains(gap),
        b <= gap < b + size,
    ensures
        !is_run(free, capacity, size, align_log2, b),
{
}

/// The start of the lowest run of `size` free indices that begins at a
/// multiple of `2^align_log2` and ends within `capacity`.
pub fn find_contiguous<T: BitAlloc>(ba: &T, capacity: usize, size: usize, align_log2: usize) -> (r:
    Option<usize>)
    requires
        ba.wf(),
        align_log2 < usize::BITS,
        T::spec_cap() + capacity <= usize::MAX,
    ensures
        is_first_run(ba.free(), capacity as int, size as int, align_log2 as nat, r),
{
    let ghost free = ba.free();
    let ghost a = align_log2 as nat;
    proof {
        ba.lemma_wf();
        T::lemma_valid();
        lemma_usize_pow2_no_overflow(a);
        lemma_usize_shl_is_mul(1, align_log2);
    }
    if capacity < (1usize << align_log2) || ba.is_empty() {
        proof {
            if free.is_empty() {
                assert forall|c: int| !is_run(free, capacity as int, size as int, a, c) by {
                    if size > 0 {
                        lemma_broken_run(free, capacity as int, size as int, a, c, c);
                    }
                }
            }
        }
        return None;
    }
    let mut base: usize = 0;
    match ba.next(base) {
        Some(start) => {
            proof {
                assert forall|c: int| c < align_up_spec(start as int, a) implies !is_run(
                    free,
                    capacity as int,
                    size as int,
                    a,
                    c,
                ) by {
                    if 0 <= c && c % (pow2(a) as int) == 0 && size > 0 {
                        lemma_align_up_least(start as int, a, c);
                        lemma_broken_run(free, capacity as int, size as int, a, c, c);
                    }
                }
            }
            base = align_up_log2(start, align_log2);
        },
        None => {
            return None;
        },
    }
    let mut offset = base;
    while offset < capacity
        invariant
            ba.wf(),
            free == ba.free(),
            a == align_log2 as nat,
            align_log2 < usize::BITS,
            T::spec_cap() + capacity <= usize::MAX,
            pow2(a) <= capacity,
            forall|i: int| free.contains(i) ==> 0 <= i < T::spec_cap(),
            base <= offset,
            base as int % (pow2(a) as int) == 0,
            all_in(free, base as int, offset as int),
            size > 0 ==> offset - base < size,
            forall|c: int| c < base ==> !is_run(free, capacity as int, size as int, a, c),
        decreases usize::MAX - offset,
    {
        match ba.next(offset) {
            Some(next) => {
                if next != offset {
                    // No index in `offset..next` is free: move to the next
                    // aligned position after `next - 1`.
                    let prev = next - 1;
                    proof {
                        assert(!free.contains(offset as int));
                        lemma_usize_shr_is_div(prev, align_log2);
                        lemma_next_multiple(prev as int, a);
                        lemma_align_up(next as int, a);
                        let q = prev as int / (pow2(a) as int);
                        assert((q + 1) * pow2(a) == align_up_spec(next as int, a));
                        assert(align_up_spec(next as int, a) <= usize::MAX);
                        assert(q + 1 <= usize::MAX) by (nonlinear_arith)
                            requires
                                (q + 1) * pow2(a) <= usize::MAX,
                                pow2(a) > 0,
                                q >= 0,
                        ;
                        lemma_usize_shl_is_mul((q + 1) as usize, align_log2);
                        assert forall|c: int| c < align_up_spec(next as int, a) implies !is_run(
                            free,
                            capacity as int,
                            size as int,
                            a,
                            c,
                        ) by {
                            if base <= c && c % (pow2(a) as int) == 0 && size > 0 {
                                lemma_align_up_least(next as int, a, c);
                                if c <= offset {
                                    lemma_broken_run(
                                        free,
                                        capacity as int,
                                        size as int,
                                        a,
                                        c,
                                        offset as int,
                                    );
                                } else {
                                    lemma_broken_run(free, capacity as int, size as int, a, c, c);
                                }
                            }
                        }
                    }
                    base = ((prev >> align_log2) + 1) << align_log2;
                    offset = base;
                } else {
                    offset += 1;
                    if offset - base == size {
                        return Some(base);
                    }
                }
            },
            None => {
                proof {
                    assert forall|c: int| !is_run(free, capacity as int, size as int, a, c) by {
                        if base <= c && size > 0 {
                            if c <= offset {
                                lemma_broken_run(
                                    free,
                                    capacity as int,
                                    size as int,
                                    a,
                                    c,
                                    offset as int,
                                );
                            } else {
                                lemma_broken_run(free, capacity as int, size as int, a, c, c);
                            }
                        }
                    }
                }
                return None;
            },
        }
    }
    proof {
        assert forall|c: int| !is_run(free, capacity as int, size as int, a, c) by {
            if base <= c && size > 0 && c + size <= capacity {
                assert(c + size <= offset);
                assert(false);
            }
        }
    }
    None
}

/// Whether the `size` indices from `base` on are a run that begins at a
/// multiple of `2^align_log2` and ends within `capacity`.
pub fn check_contiguous<T: BitAlloc>(
    ba: &T,
    base: usize,
    capacity: usize,
    size: usize,
    align_log2: usize,
) -> (r: bool)
    requires
        ba.wf(),
        align_log2 < usize::BITS,
    ensures
        r == run_granted(ba.free(), capacity as int, size as int, align_log2 as nat, base as int),
{
    let ghost free = ba.free();
    let ghost a = align_log2 as nat;
    proof {
        lemma_usize_pow2_no_overflow(a);
        lemma_usize_shl_is_mul(1, align_log2);
    }
    if capacity < (1usize << align_log2) || ba.is_empty() {
        proof {
            if size > 0 && free.is_empty() {
                lemma_broken_run(free, capacity as int, size as int, a, base as int, base as int);
            }
        }
        return false;
    }
    if !is_aligned_log2(base, align_log2) {
        return false;
    }
    let mut offset = base;
    while offset < capacity
        invariant
            ba.wf(),
            free == ba.free(),
            a == align_log2 as nat,
            pow2(a) <= capacity,
            base <= offset,
            base as int % (pow2(a) as int) == 0,
            all_in(free, base as int, offset as int),
            size > 0 ==> offset - base < size,
        decreases capacity - offset,
    {
        match ba.next(offset) {
            Some(next) => {
                if next != offset {
                    proof {
                        if size > 0 {
                            lemma_broken_run(
                                free,
                                capacity as int,
                                size as int,
                                a,
                                base as int,
                                offset as int,
                            );
                        }
                    }
                    return false;
                }
                offset += 1;
                if offset - base == size {
                    return true;
                }
            },
            None => {
                proof {
                    if size > 0 {
                        lemma_broken_run(
                            free,
                            capacity as int,
                            size as int,
                            a,
                            base as int,
                            offset as int,
                        );
                    }
                }
                return false;
            },
        }
    }
    false
}

/// What a request for a run returns: the start it asked for, where that
/// run is granted; the start of the lowest run, where it asked for none.
pub open spec fn contiguous_result(
    free: Set<int>,
    capacity: int,
    base: Option<usize>,
    size: int,
    align_log2: nat,
    r: Option<usize>,
) -> bool {
    match base {
        Some(b) => r == if run_granted(free, capacity, size, align_log2, b as int) {
            Some(b)
        } else {
            None
        },
        None => is_first_run(free, capacity, size, align_log2, r),
    }
}

/// Takes a run of `size` free indices that begins at a multiple of
/// `2^align_log2`: the run at `base` where one is given, else the lowest.
pub fn alloc_contiguous<T: BitAlloc>(
    ba: &mut T,
    base: Option<usize>,
    size: usize,
    align_log2: usize,
) -> (r: Option<usize>)
    requires
        old(ba).wf(),
        align_log2 < usize::BITS,
        2 * T::spec_cap() <= usize::MAX,
    ensures
        final(ba).wf(),
        contiguous_result(
            old(ba).free(),
            T::spec_cap() as int,
            base,
            size as int,
            align_log2 as nat,
            r,
        ),
        r matches Some(b) ==> {
            &&& b as int % (pow2(align_log2 as nat) as int) == 0
            &&& b + size <= T::spec_cap()
            &&& all_in(old(ba).free(), b as int, b + size)
            &&& final(ba).free() == old(ba).free().difference(set_int_range(b as int, b + size))
        },
        r is None ==> final(ba).free() == old(ba).free(),
{
    proof {
        ba.lemma_wf();
        T::lemma_valid();
    }
    let cap = T::cap();
    match base {
        Some(b) => {
            if check_contiguous(ba, b, cap, size, align_log2) {
                ba.remove(b..b + size);
                Some(b)
            } else {
                None
            }
        },
        None => {
            match find_contiguous(ba, cap, size, align_log2) {
                Some(b) => {
                    ba.remove(b..b + size);
                    Some(b)
                },
                None => None,
            }
        },
    }
}

} // verus!
