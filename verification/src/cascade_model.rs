//! How the free sets of equal-sized children make up the free set of their
//! parent.
//!
//! A parent over `n` children of capacity `c` tracks the indices `0..n * c`;
//! index `i` belongs to child `i / c`, where it is index `i % c`. Both
//! cascades of the library are specified by the functions of this module.

use crate::arith::{lemma_block_bound, lemma_block_range, lemma_join, lemma_mul_le, lemma_split};
use crate::bit_alloc::{is_least, is_next, none_in};
use vstd::prelude::*;
use vstd::set_lib::set_int_range;

verus! {

/// The parent's free set: index `i` is free when child `i / c` has
/// `i % c` free.
pub open spec fn cascade_free(subs: Seq<Set<int>>, c: int) -> Set<int> {
    Set::new(|i: int| 0 <= i < subs.len() * c && subs[i / c].contains(i % c))
}

/// No child has a free index outside `0..c`.
pub open spec fn bounded(subs: Seq<Set<int>>, c: int) -> bool {
    forall|q: int, j: int| 0 <= q < subs.len() && #[trigger] subs[q].contains(j) ==> 0 <= j < c
}

/// The part of the range `s..e` that falls to child `q`, in the child's own
/// indices.
pub open spec fn piece(s: int, e: int, c: int, q: int) -> Set<int> {
    set_int_range(piece_lo(s, c, q), piece_hi(e, c, q))
}

/// Where the part of a range from `s` on begins in child `q`.
pub open spec fn piece_lo(s: int, c: int, q: int) -> int {
    if s - q * c > 0 {
        s - q * c
    } else {
        0
    }
}

/// Where the part of a range up to `e` ends in child `q`.
pub open spec fn piece_hi(e: int, c: int, q: int) -> int {
    if e - q * c < c {
        e - q * c
    } else {
        c
    }
}

/// How many indices, counted from the start of a range, a parent turns free
/// when it hands the parts of the range `s..e` to its children in order,
/// from child `q` on, and stops at the first child that does not free all
/// of its part. `ext(q, lo, len)` is what child `q` frees of `len` indices
/// at `lo`; `n` bounds the children still to visit.
pub open spec fn extent_blocks(
    ext: spec_fn(int, int, int) -> int,
    c: int,
    s: int,
    e: int,
    q: int,
    n: nat,
) -> int
    decreases n,
{
    let lo = piece_lo(s, c, q);
    let hi = piece_hi(e, c, q);
    if n == 0 || hi <= lo {
        0
    } else {
        let got = ext(q, lo, hi - lo);
        if got < hi - lo {
            got
        } else {
            (hi - lo) + extent_blocks(ext, c, s, e, q + 1, (n - 1) as nat)
        }
    }
}

/// An index is in a range exactly when its offset is in the part of the
/// range that falls to its child.
pub proof fn lemma_piece_member(s: int, e: int, c: int, i: int)
    requires
        c > 0,
        i >= 0,
    ensures
        piece(s, e, c, i / c).contains(i % c) == (s <= i < e),
{
    lemma_split(i, c);
}

/// The parts of a range, as the cascades compute them for the children the
/// range touches.
pub proof fn lemma_piece_bounds(s: int, e: int, c: int, q: int)
    requires
        c > 0,
        0 <= s < e,
        s / c <= q <= (e - 1) / c,
    ensures
        piece_lo(s, c, q) == (if s / c == q {
            s % c
        } else {
            0
        }),
        piece_hi(e, c, q) == (if e / c == q {
            e % c
        } else {
            c
        }),
        0 <= piece_lo(s, c, q) < piece_hi(e, c, q) <= c,
{
    lemma_split(s, c);
    lemma_split(e, c);
    lemma_split(e - 1, c);
    lemma_block_range(s, q, c);
    lemma_block_range(e, q, c);
    lemma_block_range(e - 1, q, c);
    let qs = s / c;
    let qe = (e - 1) / c;
    if qs < q {
        lemma_mul_le(qs + 1, q, c);
        assert((qs + 1) * c == qs * c + c) by (nonlinear_arith);
    }
    if q < qe {
        lemma_mul_le(q + 1, qe, c);
        assert((q + 1) * c == q * c + c) by (nonlinear_arith);
    }
    if e / c != q {
        if e / c < q {
            lemma_mul_le(e / c + 1, q, c);
            assert((e / c + 1) * c == (e / c) * c + c) by (nonlinear_arith);
        } else {
            lemma_mul_le(q + 1, e / c, c);
            assert((q + 1) * c == q * c + c) by (nonlinear_arith);
        }
    }
}

/// A child that a range does not touch gets an empty part of it.
pub proof fn lemma_piece_outside(s: int, e: int, c: int, q: int)
    requires
        c > 0,
        0 <= s <= e,
        0 <= q,
        s == e || q < s / c || q > (e - 1) / c,
    ensures
        piece(s, e, c, q) =~= Set::<int>::empty(),
{
    if s < e {
        lemma_split(s, c);
        lemma_split(e - 1, c);
        if q < s / c {
            lemma_mul_le(q + 1, s / c, c);
            assert((q + 1) * c == q * c + c) by (nonlinear_arith);
        } else {
            lemma_mul_le((e - 1) / c + 1, q, c);
            assert(((e - 1) / c + 1) * c == ((e - 1) / c) * c + c) by (nonlinear_arith);
        }
    }
}

/// Index `r` of child `q` is index `q * c + r` of the parent.
pub proof fn lemma_cascade_member(subs: Seq<Set<int>>, c: int, q: int, r: int)
    requires
        c > 0,
        0 <= q < subs.len(),
        0 <= r < c,
    ensures
        cascade_free(subs, c).contains(q * c + r) == subs[q].contains(r),
        0 <= q * c + r < subs.len() * c,
{
    lemma_join(q, r, c);
    lemma_mul_le(q + 1, subs.len() as int, c);
    lemma_mul_le(0, q, c);
    assert((q + 1) * c == q * c + c) by (nonlinear_arith);
}

/// The parent has no free index exactly when no child has one.
pub proof fn lemma_cascade_empty(subs: Seq<Set<int>>, c: int)
    requires
        c > 0,
        bounded(subs, c),
    ensures
        cascade_free(subs, c).is_empty() <==> (forall|q: int|
            0 <= q < subs.len() ==> (#[trigger] subs[q]).is_empty()),
{
    let f = cascade_free(subs, c);
    if f.is_empty() {
        assert forall|q: int| 0 <= q < subs.len() implies (#[trigger] subs[q]).is_empty() by {
            assert forall|r: int| !subs[q].contains(r) by {
                if subs[q].contains(r) {
                    lemma_cascade_member(subs, c, q, r);
                    assert(f.contains(q * c + r));
                }
            }
            assert(subs[q] =~= Set::<int>::empty());
        }
    }
    if forall|q: int| 0 <= q < subs.len() ==> (#[trigger] subs[q]).is_empty() {
        assert forall|i: int| !f.contains(i) by {
            if 0 <= i < subs.len() * c {
                lemma_block_bound(i, subs.len() as int, c);
                assert(subs[i / c].is_empty());
            }
        }
        assert(f =~= Set::<int>::empty());
    }
}

/// Taking the least index of the first child that has one takes the least
/// index of the parent.
pub proof fn lemma_cascade_take(subs: Seq<Set<int>>, c: int, q: int, k: int)
    requires
        c > 0,
        bounded(subs, c),
        0 <= q < subs.len(),
        is_least(subs[q], k),
        forall|p: int| 0 <= p < q ==> (#[trigger] subs[p]).is_empty(),
    ensures
        is_least(cascade_free(subs, c), q * c + k),
        cascade_free(subs.update(q, subs[q].remove(k)), c) =~= cascade_free(subs, c).remove(
            q * c + k,
        ),
{
    let f = cascade_free(subs, c);
    let after = cascade_free(subs.update(q, subs[q].remove(k)), c);
    lemma_cascade_member(subs, c, q, k);
    assert forall|j: int| f.contains(j) implies q * c + k <= j by {
        lemma_split(j, c);
        lemma_block_bound(j, subs.len() as int, c);
        let p = j / c;
        if p < q {
            assert(subs[p].is_empty());
        } else if p > q {
            lemma_mul_le(q + 1, p, c);
            assert((q + 1) * c == q * c + c) by (nonlinear_arith);
        }
    }
    assert forall|j: int| after.contains(j) == (f.contains(j) && j != q * c + k) by {
        if 0 <= j < subs.len() * c {
            lemma_split(j, c);
            lemma_block_bound(j, subs.len() as int, c);
            lemma_join(q, k, c);
        }
    }
}

/// Turning an index of a child free turns the matching index of the parent
/// free.
pub proof fn lemma_cascade_put(subs: Seq<Set<int>>, c: int, key: int)
    requires
        c > 0,
        0 <= key < subs.len() * c,
    ensures
        0 <= key / c < subs.len(),
        0 <= key % c < c,
        cascade_free(subs, c).contains(key) == subs[key / c].contains(key % c),
        cascade_free(subs.update(key / c, subs[key / c].insert(key % c)), c) =~= cascade_free(
            subs,
            c,
        ).insert(key),
{
    let q = key / c;
    let f = cascade_free(subs, c);
    let after = cascade_free(subs.update(q, subs[q].insert(key % c)), c);
    lemma_split(key, c);
    lemma_block_bound(key, subs.len() as int, c);
    assert forall|j: int| after.contains(j) == (f.contains(j) || j == key) by {
        if 0 <= j < subs.len() * c {
            lemma_split(j, c);
            lemma_block_bound(j, subs.len() as int, c);
        }
    }
}

/// Where every child gained its part of a range, the parent gained the
/// range.
pub proof fn lemma_cascade_union(
    subs: Seq<Set<int>>,
    after: Seq<Set<int>>,
    c: int,
    s: int,
    e: int,
)
    requires
        c > 0,
        0 <= s,
        e <= subs.len() * c,
        after.len() == subs.len(),
        forall|q: int|
            0 <= q < subs.len() ==> #[trigger] after[q] =~= subs[q].union(piece(s, e, c, q)),
    ensures
        cascade_free(after, c) =~= cascade_free(subs, c).union(set_int_range(s, e)),
{
    let f = cascade_free(subs, c);
    let g = cascade_free(after, c);
    assert forall|i: int| g.contains(i) == (f.contains(i) || s <= i < e) by {
        if 0 <= i < subs.len() * c {
            lemma_block_bound(i, subs.len() as int, c);
            lemma_piece_member(s, e, c, i);
            assert(after[i / c] =~= subs[i / c].union(piece(s, e, c, i / c)));
        }
    }
}

/// Where every child lost its part of a range, the parent lost the range.
pub proof fn lemma_cascade_difference(
    subs: Seq<Set<int>>,
    after: Seq<Set<int>>,
    c: int,
    s: int,
    e: int,
)
    requires
        c > 0,
        0 <= s,
        after.len() == subs.len(),
        forall|q: int|
            0 <= q < subs.len() ==> #[trigger] after[q] =~= subs[q].difference(
                piece(s, e, c, q),
            ),
    ensures
        cascade_free(after, c) =~= cascade_free(subs, c).difference(set_int_range(s, e)),
{
    let f = cascade_free(subs, c);
    let g = cascade_free(after, c);
    assert forall|i: int| g.contains(i) == (f.contains(i) && !(s <= i < e)) by {
        if 0 <= i < subs.len() * c {
            lemma_block_bound(i, subs.len() as int, c);
            lemma_piece_member(s, e, c, i);
            assert(after[i / c] =~= subs[i / c].difference(piece(s, e, c, i / c)));
        }
    }
}

/// The parent has no free index in `from..to` when the children before
/// `q` have none from `from` on and `to` is where child `q` begins.
pub proof fn lemma_cascade_gap(subs: Seq<Set<int>>, c: int, from: int, q: int)
    requires
        c > 0,
        bounded(subs, c),
        0 <= from,
        0 <= q <= subs.len(),
        forall|p: int|
            from / c <= p < q ==> none_in(
                #[trigger] subs[p],
                if p == from / c {
                    from % c
                } else {
                    0
                },
                c,
            ),
    ensures
        none_in(cascade_free(subs, c), from, q * c),
{
    let f = cascade_free(subs, c);
    assert forall|i: int| from <= i < q * c implies !f.contains(i) by {
        lemma_split(i, c);
        lemma_split(from, c);
        let p = i / c;
        if p >= q {
            lemma_mul_le(q, p, c);
        }
        if p < from / c {
            lemma_mul_le(p + 1, from / c, c);
            assert((p + 1) * c == p * c + c) by (nonlinear_arith);
        }
        if 0 <= i < subs.len() * c {
            assert(none_in(
                subs[p],
                if p == from / c {
                    from % c
                } else {
                    0
                },
                c,
            ));
        }
    }
}

/// The least index of child `q` from `lo` on is the parent's least index
/// from `from` on, when the parent has none between `from` and the start
/// of the search in child `q`.
pub proof fn lemma_cascade_next(subs: Seq<Set<int>>, c: int, from: int, q: int, lo: int, k: int)
    requires
        c > 0,
        bounded(subs, c),
        0 <= from,
        0 <= q < subs.len(),
        is_next(subs[q], lo, k),
        0 <= lo,
        from <= q * c + lo,
        none_in(cascade_free(subs, c), from, q * c + lo),
    ensures
        is_next(cascade_free(subs, c), from, q * c + k),
{
    let f = cascade_free(subs, c);
    lemma_cascade_member(subs, c, q, k);
    assert forall|i: int| from <= i < q * c + k implies !f.contains(i) by {
        if q * c + lo <= i {
            lemma_join(q, i - q * c, c);
        }
    }
}

/// `ext` tells, for every child, how far a release of a range reaches: not
/// past the range, over used indices only, nowhere where the range leaves
/// the child, and over the whole range where all of it was used.
pub open spec fn extent_sound(
    subs: Seq<Set<int>>,
    c: int,
    ext: spec_fn(int, int, int) -> int,
) -> bool {
    forall|q: int, lo: int, len: int|
        0 <= q < subs.len() && 0 <= lo && 0 <= len ==> {
            let got = #[trigger] ext(q, lo, len);
            &&& 0 <= got <= len
            &&& none_in(subs[q], lo, lo + got)
            &&& (lo + len > c ==> got == 0)
            &&& (lo + len <= c && none_in(subs[q], lo, lo + len) ==> got == len)
        }
}

/// Where the children after `q` have not been visited, a release of the
/// range `s..e` continues at `s` or at the start of child `q`, whichever
/// is higher.
pub open spec fn resume_at(s: int, c: int, q: int) -> int {
    if s > q * c {
        s
    } else {
        q * c
    }
}

/// A release that visits the children in order reaches over used indices
/// only, stays within the range, and reaches its end where all of the rest
/// of the range was used.
pub proof fn lemma_extent_blocks(
    subs: Seq<Set<int>>,
    c: int,
    ext: spec_fn(int, int, int) -> int,
    s: int,
    e: int,
    q: int,
    n: nat,
)
    requires
        c > 0,
        bounded(subs, c),
        extent_sound(subs, c, ext),
        0 <= s <= e <= subs.len() * c,
        s / c <= q,
        q + n == subs.len(),
    ensures
        0 <= extent_blocks(ext, c, s, e, q, n),
        extent_blocks(ext, c, s, e, q, n) > 0 ==> resume_at(s, c, q) + extent_blocks(
            ext,
            c,
            s,
            e,
            q,
            n,
        ) <= e,
        none_in(
            cascade_free(subs, c),
            resume_at(s, c, q),
            resume_at(s, c, q) + extent_blocks(ext, c, s, e, q, n),
        ),
        none_in(cascade_free(subs, c), resume_at(s, c, q), e) ==> resume_at(s, c, q)
            + extent_blocks(ext, c, s, e, q, n) >= e,
    decreases n,
{
    let f = cascade_free(subs, c);
    let cur = resume_at(s, c, q);
    let lo = piece_lo(s, c, q);
    let hi = piece_hi(e, c, q);
    let x = extent_blocks(ext, c, s, e, q, n);
    lemma_split(s, c);
    lemma_mul_le(0, s / c, c);
    lemma_mul_le(s / c, q, c);
    assert(cur == q * c + lo);
    if n == 0 {
        assert(q * c == subs.len() * c);
    } else if hi <= lo {
    } else {
        let len = hi - lo;
        let got = ext(q, lo, len);
        assert(0 <= got <= len);
        assert forall|i: int| cur <= i < cur + got implies !f.contains(i) by {
            lemma_cascade_member(subs, c, q, i - q * c);
        }
        if none_in(f, cur, e) {
            assert forall|r: int| lo <= r < hi implies !subs[q].contains(r) by {
                lemma_cascade_member(subs, c, q, r);
            }
        }
        if got == len {
            lemma_mul_le(s / c + 1, q + 1, c);
            assert((s / c + 1) * c == (s / c) * c + c) by (nonlinear_arith);
            assert((q + 1) * c == q * c + c) by (nonlinear_arith);
            assert(resume_at(s, c, q + 1) == q * c + c);
            lemma_extent_blocks(subs, c, ext, s, e, q + 1, (n - 1) as nat);
            let rest = extent_blocks(ext, c, s, e, q + 1, (n - 1) as nat);
            if hi < c {
                assert(piece_hi(e, c, q + 1) <= piece_lo(s, c, q + 1));
                assert(rest == 0);
            }
        }
    }
}

/// How many indices, counted from `base`, a parent of `n` children turns
/// free when it is asked to release `size` indices: none where the range
/// leaves the parent.
pub open spec fn release_reach(
    ext: spec_fn(int, int, int) -> int,
    c: int,
    n: int,
    base: int,
    size: int,
) -> int {
    if c <= 0 || base < 0 || size < 0 || base + size > n * c {
        0
    } else {
        extent_blocks(ext, c, base, base + size, base / c, (n - base / c) as nat)
    }
}

/// Where a release of `s..e` stands before child `i`, as long as every
/// child before it released all of its part.
pub open spec fn release_front(s: int, e: int, c: int, i: int) -> int {
    if resume_at(s, c, i) < e {
        resume_at(s, c, i)
    } else {
        e
    }
}

/// What a release reaches: used indices only, none where the range leaves
/// the parent, and the whole range where all of it was used.
pub proof fn lemma_release_done(
    subs: Seq<Set<int>>,
    c: int,
    ext: spec_fn(int, int, int) -> int,
    base: int,
    size: int,
)
    requires
        c > 0,
        bounded(subs, c),
        extent_sound(subs, c, ext),
        0 <= base,
        0 <= size,
    ensures
        0 <= release_reach(ext, c, subs.len() as int, base, size) <= size,
        none_in(
            cascade_free(subs, c),
            base,
            base + release_reach(ext, c, subs.len() as int, base, size),
        ),
        base + size > subs.len() * c ==> release_reach(ext, c, subs.len() as int, base, size) == 0,
        base + size <= subs.len() * c && none_in(cascade_free(subs, c), base, base + size)
            ==> release_reach(ext, c, subs.len() as int, base, size) == size,
{
    if base + size <= subs.len() * c {
        lemma_split(base, c);
        let q = base / c;
        if q > subs.len() {
            lemma_mul_le(subs.len() as int + 1, q, c);
            assert((subs.len() + 1) * c == subs.len() * c + c) by (nonlinear_arith);
        }
        lemma_extent_blocks(subs, c, ext, base, base + size, q, (subs.len() - q) as nat);
    }
}

/// One step of a release that has not failed yet: what child `i` releases
/// of its part, and where that leaves the release.
pub proof fn lemma_release_step(
    subs: Seq<Set<int>>,
    c: int,
    ext: spec_fn(int, int, int) -> int,
    s: int,
    e: int,
    i: int,
    reach: int,
)
    requires
        c > 0,
        bounded(subs, c),
        extent_sound(subs, c, ext),
        0 <= s < e <= subs.len() * c,
        s / c <= i <= (e - 1) / c,
        i < subs.len(),
        reach == release_front(s, e, c, i),
    ensures
        ({
            let lo = piece_lo(s, c, i);
            let hi = piece_hi(e, c, i);
            let got = ext(i, lo, hi - lo);
            &&& reach == i * c + lo
            &&& 0 <= lo < hi <= c
            &&& 0 <= got <= hi - lo
            &&& s <= reach + got <= e
            &&& got < hi - lo ==> reach + got < e
            &&& got == hi - lo <==> none_in(subs[i], lo, hi)
            &&& got == hi - lo ==> reach + got == release_front(s, e, c, i + 1)
            &&& extent_blocks(ext, c, s, e, i, (subs.len() - i) as nat) == (if got < hi - lo {
                got
            } else {
                (hi - lo) + extent_blocks(ext, c, s, e, i + 1, (subs.len() - i - 1) as nat)
            })
            &&& piece(s, reach, c, i) =~= Set::<int>::empty()
            &&& piece(s, reach + got, c, i) =~= set_int_range(lo, lo + got)
            &&& forall|q: int|
                0 <= q && q != i ==> #[trigger] piece(s, reach + got, c, q) =~= piece(
                    s,
                    reach,
                    c,
                    q,
                )
        }),
{
    let lo = piece_lo(s, c, i);
    let hi = piece_hi(e, c, i);
    let got = ext(i, lo, hi - lo);
    lemma_piece_bounds(s, e, c, i);
    lemma_split(s, c);
    lemma_split(e - 1, c);
    lemma_mul_le(s / c, i, c);
    lemma_mul_le(i, (e - 1) / c, c);
    assert((i + 1) * c == i * c + c) by (nonlinear_arith);
    assert(reach == i * c + lo);
    assert forall|q: int| 0 <= q && q != i implies #[trigger] piece(s, reach + got, c, q) =~= piece(
        s,
        reach,
        c,
        q,
    ) by {
        if q < i {
            lemma_mul_le(q + 1, i, c);
            assert((q + 1) * c == q * c + c) by (nonlinear_arith);
        } else {
            lemma_mul_le(i + 1, q, c);
        }
    }
}

} // verus!
