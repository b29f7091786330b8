//! Integer facts about splitting an index into a child number and an offset,
//! and about multiples of a power of two.

use vstd::arithmetic::div_mod::{
    lemma_fundamental_div_mod,
    lemma_fundamental_div_mod_converse,
    lemma_mod_multiples_basic,
};
use vstd::arithmetic::power2::{lemma_pow2_pos, pow2};
use vstd::prelude::*;

verus! {

/// An index is its quotient times the divisor plus its remainder.
pub proof fn lemma_split(i: int, c: int)
    requires
        c > 0,
        i >= 0,
    ensures
        i == (i / c) * c + i % c,
        0 <= i % c < c,
        0 <= i / c,
        (i / c) * c <= i < (i / c) * c + c,
{
    lemma_fundamental_div_mod(i, c);
    assert(c * (i / c) == (i / c) * c) by (nonlinear_arith);
    assert(0 <= i / c) by (nonlinear_arith)
        requires
            c > 0,
            i >= 0,
    ;
}

/// Quotient and remainder of `q * c + r` are `q` and `r`.
pub proof fn lemma_join(q: int, r: int, c: int)
    requires
        c > 0,
        0 <= r < c,
    ensures
        (q * c + r) / c == q,
        (q * c + r) % c == r,
{
    lemma_fundamental_div_mod_converse(q * c + r, c, q, r);
}

/// An index below `n * c` lies in one of the first `n` blocks of size `c`.
pub proof fn lemma_block_bound(i: int, n: int, c: int)
    requires
        c > 0,
        0 <= i < n * c,
    ensures
        0 <= i / c < n,
{
    lemma_split(i, c);
    let q = i / c;
    if q >= n {
        assert(q * c >= n * c) by (nonlinear_arith)
            requires
                q >= n,
                c > 0,
        ;
    }
}

/// The block of an index tells between which multiples of `c` it lies.
pub proof fn lemma_block_range(i: int, q: int, c: int)
    requires
        c > 0,
        i >= 0,
    ensures
        (i / c == q) <==> (q * c <= i < q * c + c),
{
    lemma_split(i, c);
    let p = i / c;
    if q * c <= i < q * c + c {
        lemma_join(q, i - q * c, c);
    }
}

/// Blocks are ordered like the indices in them.
pub proof fn lemma_block_monotone(i: int, j: int, c: int)
    requires
        c > 0,
        0 <= i <= j,
    ensures
        i / c <= j / c,
{
    lemma_split(i, c);
    lemma_split(j, c);
    let p = i / c;
    let q = j / c;
    if p > q {
        assert(p * c >= q * c + c) by (nonlinear_arith)
            requires
                p >= q + 1,
                c > 0,
        ;
    }
}

/// The product of two bounded factors is bounded by the product of the
/// bounds.
pub proof fn lemma_mul_le(a: int, b: int, c: int)
    requires
        0 <= a <= b,
        0 <= c,
    ensures
        a * c <= b * c,
        c * a <= c * b,
{
    assert(a * c <= b * c) by (nonlinear_arith)
        requires
            0 <= a <= b,
            0 <= c,
    ;
    assert(c * a <= c * b) by (nonlinear_arith)
        requires
            0 <= a <= b,
            0 <= c,
    ;
}

/// The least multiple of `2^a` that is not below `x`.
pub open spec fn align_up_spec(x: int, a: nat) -> int {
    ((x + pow2(a) - 1) / (pow2(a) as int)) * pow2(a)
}

/// `align_up_spec` yields a multiple of `2^a` within `2^a` above `x`.
pub proof fn lemma_align_up(x: int, a: nat)
    requires
        x >= 0,
    ensures
        align_up_spec(x, a) % (pow2(a) as int) == 0,
        x <= align_up_spec(x, a) < x + pow2(a),
        align_up_spec(x, a) == (x + pow2(a) - 1) - (x + pow2(a) - 1) % (pow2(a) as int),
        x % (pow2(a) as int) == 0 ==> align_up_spec(x, a) == x,
{
    lemma_pow2_pos(a);
    let m = pow2(a) as int;
    let y = x + m - 1;
    lemma_split(y, m);
    lemma_mod_multiples_basic(y / m, m);
    if x % m == 0 {
        lemma_split(x, m);
        lemma_join(x / m, m - 1, m);
    }
}

/// No multiple of `2^a` lies strictly between `x - 1` and the aligned-up `x`.
pub proof fn lemma_align_up_least(x: int, a: nat, b: int)
    requires
        x >= 0,
        b >= 0,
        b % (pow2(a) as int) == 0,
        b < align_up_spec(x, a),
    ensures
        b < x,
{
    lemma_pow2_pos(a);
    lemma_align_up(x, a);
    let m = pow2(a) as int;
    let up = align_up_spec(x, a);
    let k = b / m;
    let u = (x + m - 1) / m;
    lemma_split(b, m);
    assert(b == k * m);
    assert(up == u * m);
    if k >= u {
        lemma_mul_le(u, k, m);
    }
    assert(k + 1 <= u);
    lemma_mul_le(k + 1, u, m);
    assert((k + 1) * m == k * m + m) by (nonlinear_arith);
}

/// The next multiple of `2^a` after `p` is the aligned-up `p + 1`.
pub proof fn lemma_next_multiple(p: int, a: nat)
    requires
        p >= 0,
    ensures
        (p / (pow2(a) as int) + 1) * pow2(a) == align_up_spec(p + 1, a),
{
    lemma_pow2_pos(a);
    let m = pow2(a) as int;
    lemma_split(p, m);
    lemma_join(p / m + 1, p % m, m);
    assert((p / m + 1) * m + p % m == p + m) by (nonlinear_arith)
        requires
            p == (p / m) * m + p % m,
    ;
}

} // verus!
