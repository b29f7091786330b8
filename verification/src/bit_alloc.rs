//! The bit allocator interface.
//!
//! A bit allocator tracks a fixed number of indices, each either free or
//! used. Its abstract state is the set of free indices; every operation is
//! specified by what it does to that set.

use core::ops::Range;
use vstd::arithmetic::power2::pow2;
use vstd::prelude::*;
use vstd::set_lib::set_int_range;

verus! {

/// `k` is the least element of `s`.
pub open spec fn is_least(s: Set<int>, k: int) -> bool {
    s.contains(k) && forall|j: int| s.contains(j) ==> k <= j
}

/// Every index in `lo..hi` is in `s`.
pub open spec fn all_in(s: Set<int>, lo: int, hi: int) -> bool {
    forall|i: int| lo <= i < hi ==> s.contains(i)
}

/// No index in `lo..hi` is in `s`.
pub open spec fn none_in(s: Set<int>, lo: int, hi: int) -> bool {
    forall|i: int| lo <= i < hi ==> !s.contains(i)
}

/// `k` is the least element of `s` that is not below `key`.
pub open spec fn is_next(s: Set<int>, key: int, k: int) -> bool {
    key <= k && s.contains(k) && none_in(s, key, k)
}

/// An index that was just taken is used, and an index that was just
/// returned is free: `allocate` leaves the free set without the index it
/// returns, `dealloc` leaves it with the index it was given, and `test`
/// reads the free set.
pub proof fn lemma_round_trip(free: Set<int>, k: int)
    ensures
        !free.remove(k).contains(k),
        free.insert(k).contains(k),
{
}

/// A fixed-capacity tracker of free indices.
pub trait BitAlloc: Sized {
    /// The number of indices tracked: the indices are `0..spec_cap()`.
    spec fn spec_cap() -> nat;

    /// The capacity is positive and every quantity computed from it fits a
    /// machine word. This is a property of the type alone.
    spec fn valid() -> bool;

    /// The representation invariant of a value.
    spec fn wf(&self) -> bool;

    /// The set of free indices.
    spec fn free(&self) -> Set<int>;

    /// How many indices, counted from `base`, `dealloc_contiguous(base,
    /// size)` turns free. The count is `size` where the whole range was
    /// used; where part of it was free already, it depends on how the
    /// allocator splits the range.
    spec fn dealloc_extent(&self, base: int, size: int) -> int;

    /// A valid type has a positive capacity that fits a machine word.
    proof fn lemma_valid()
        requires
            Self::valid(),
        ensures
            0 < Self::spec_cap() <= usize::MAX,
    ;

    /// A well-formed value is of a valid type and has no free index outside
    /// its capacity.
    proof fn lemma_wf(&self)
        requires
            self.wf(),
        ensures
            Self::valid(),
            forall|i: int| self.free().contains(i) ==> 0 <= i < Self::spec_cap(),
    ;

    /// The indices that `dealloc_contiguous` turns free were used before,
    /// and they are the whole range exactly when the whole range was used
    /// and lies within the capacity.
    proof fn lemma_dealloc_extent(&self, base: int, size: int)
        requires
            self.wf(),
            0 <= base,
            0 <= size,
        ensures
            0 <= self.dealloc_extent(base, size) <= size,
            none_in(self.free(), base, base + self.dealloc_extent(base, size)),
            base + size > Self::spec_cap() ==> self.dealloc_extent(base, size) == 0,
            base + size <= Self::spec_cap() && none_in(self.free(), base, base + size)
                ==> self.dealloc_extent(base, size) == size,
    ;

    /// The capacity.
    fn cap() -> (c: usize)
        requires
            Self::valid(),
        ensures
            c == Self::spec_cap(),
    ;

    /// An allocator with no free index.
    fn new() -> (s: Self)
        ensures
            Self::valid() ==> s.wf(),
            s.free() == Set::<int>::empty(),
    ;

    /// Takes the lowest free index, if there is one.
    fn allocate(&mut self) -> (r: Option<usize>)
        requires
            old(self).wf(),
        ensures
            final(self).wf(),
            match r {
                Some(k) => {
                    &&& is_least(old(self).free(), k as int)
                    &&& final(self).free() == old(self).free().remove(k as int)
                },
                None => old(self).free().is_empty() && final(self).free() == old(self).free(),
            },
            r matches Some(k) ==> k < Self::spec_cap() && !final(self).free().contains(k as int),
    ;

    /// The lowest free index that is not below `key`.
    fn next(&self, key: usize) -> (r: Option<usize>)
        requires
            self.wf(),
        ensures
            match r {
                Some(k) => is_next(self.free(), key as int, k as int),
                None => forall|j: int| key <= j ==> !self.free().contains(j),
            },
    ;

    /// Turns `key` free and tells whether it was used.
    fn dealloc(&mut self, key: usize) -> (r: bool)
        requires
            old(self).wf(),
            key < Self::spec_cap(),
        ensures
            final(self).wf(),
            r == !old(self).free().contains(key as int),
            final(self).free() == old(self).free().insert(key as int),
            final(self).free().contains(key as int),
    ;

    /// Turns the range of `size` indices at `base` free and tells whether
    /// all of it lay within the capacity and was used. Where it was not,
    /// the indices that turn free are a used prefix of the range.
    fn dealloc_contiguous(&mut self, base: usize, size: usize) -> (r: bool)
        requires
            old(self).wf(),
            base + size <= usize::MAX,
        ensures
            final(self).wf(),
            r == (base + size <= Self::spec_cap() && none_in(
                old(self).free(),
                base as int,
                base + size,
            )),
            final(self).free() == old(self).free().union(
                set_int_range(
                    base as int,
                    base + old(self).dealloc_extent(base as int, size as int),
                ),
            ),
    ;

    /// Turns every index of the range free.
    fn insert(&mut self, range: Range<usize>)
        requires
            old(self).wf(),
            range.start <= range.end <= Self::spec_cap(),
        ensures
            final(self).wf(),
            final(self).free() == old(self).free().union(
                set_int_range(range.start as int, range.end as int),
            ),
    ;

    /// Turns every index of the range used.
    fn remove(&mut self, range: Range<usize>)
        requires
            old(self).wf(),
            range.start <= range.end <= Self::spec_cap(),
        ensures
            final(self).wf(),
            final(self).free() == old(self).free().difference(
                set_int_range(range.start as int, range.end as int),
            ),
    ;

    /// Whether some index is free.
    fn any(&self) -> (r: bool)
        requires
            self.wf(),
        ensures
            r == !self.free().is_empty(),
    ;

    /// Whether no index is free.
    fn is_empty(&self) -> (r: bool)
        requires
            self.wf(),
        ensures
            r == self.free().is_empty(),
    ;

    /// Whether `key` is free.
    fn test(&self, key: usize) -> (r: bool)
        requires
            self.wf(),
            key < Self::spec_cap(),
        ensures
            r == self.free().contains(key as int),
    ;
}

/// The `size` indices from `b` on are a run that a request with alignment
/// `2^align_log2` can take from a tracker of `capacity` indices: the run is
/// not empty, starts at a multiple of the alignment, ends within the
/// capacity, and all of it is free.
pub open spec fn is_run(free: Set<int>, capacity: int, size: int, align_log2: nat, b: int) -> bool {
    &&& 0 <= b
    &&& 0 < size
    &&& b + size <= capacity
    &&& b % (pow2(align_log2) as int) == 0
    &&& all_in(free, b, b + size)
}

/// `r` is what a search for the lowest run finds: nothing where the
/// capacity is below the alignment or no run exists, else the start of the
/// lowest run.
pub open spec fn is_first_run(
    free: Set<int>,
    capacity: int,
    size: int,
    align_log2: nat,
    r: Option<usize>,
) -> bool {
    match r {
        Some(b) => {
            &&& pow2(align_log2) <= capacity
            &&& is_run(free, capacity, size, align_log2, b as int)
            &&& forall|c: int| c < b ==> !is_run(free, capacity, size, align_log2, c)
        },
        None => pow2(align_log2) > capacity || forall|c: int|
            !is_run(free, capacity, size, align_log2, c),
    }
}

/// Whether a request for the run at `b` is granted.
pub open spec fn run_granted(
    free: Set<int>,
    capacity: int,
    size: int,
    align_log2: nat,
    b: int,
) -> bool {
    pow2(align_log2) <= capacity && is_run(free, capacity, size, align_log2, b)
}

} // verus!
