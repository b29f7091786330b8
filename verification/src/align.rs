//! Alignment to powers of two.
//!
//! Byte addresses are aligned with the functions of the `memory_addr` crate,
//! whose specifications below repeat the mask expressions of its source.
//! Bit indices are aligned by a logarithm with the two functions at the end.

use crate::arith::{align_up_spec, lemma_align_up, lemma_split};
use vstd::arithmetic::power::pow;
use vstd::arithmetic::power2::{
    is_pow2,
    is_pow2_equiv,
    lemma2_to64,
    lemma2_to64_rest,
    lemma_pow2_pos,
    lemma_pow2_strictly_increases,
    pow2,
};
use vstd::bits::{
    lemma_usize_low_bits_mask_is_mod,
    lemma_usize_pow2_no_overflow,
    lemma_usize_shl_is_mul,
    low_bits_mask,
};
use vstd::prelude::*;

verus! {

/// The largest alignment, in bytes, that a page request may ask for.
pub const MAX_ALIGN_1GB: usize = 0x4000_0000;

/// `memory_addr::is_aligned`: the address masked with `align - 1` is zero.
/// The subtraction overflows for `align == 0`.
pub assume_specification[ memory_addr::is_aligned ](addr: usize, align: usize) -> (r: bool)
    requires
        align > 0,
    ensures
        r == ((addr & ((align - 1) as usize)) == 0),
;

/// `memory_addr::align_down`: the address with the bits of `align - 1`
/// masked out. The subtraction overflows for `align == 0`.
pub assume_specification[ memory_addr::align_down ](addr: usize, align: usize) -> (r: usize)
    requires
        align > 0,
    ensures
        r == addr & !((align - 1) as usize),
;

/// `memory_addr::align_up`: `addr + align - 1` with the bits of `align - 1`
/// masked out. The sum is formed first and must not overflow.
pub assume_specification[ memory_addr::align_up ](addr: usize, align: usize) -> (r: usize)
    requires
        align > 0,
        addr + align <= usize::MAX,
    ensures
        r == ((addr + align - 1) as usize) & !((align - 1) as usize),
;

/// `usize::is_power_of_two` of the standard library: true exactly for the
/// values `2^k`.
pub assume_specification[ usize::is_power_of_two ](x: usize) -> (r: bool)
    ensures
        r == is_pow2(x as int),
;

/// The exponent of a power of two; zero for any other number.
pub open spec fn log2_of(x: int) -> nat {
    if exists|k: nat| pow2(k) == x {
        choose|k: nat| pow2(k) == x
    } else {
        0
    }
}

/// A power of two that fits a machine word is `2^k` for its one exponent
/// `k`, which is below the word's width.
pub proof fn lemma_log2_of(x: usize)
    requires
        is_pow2(x as int),
    ensures
        pow2(log2_of(x as int)) == x,
        log2_of(x as int) < usize::BITS,
        x > 0,
{
    is_pow2_equiv(x as int);
    let i = choose|i: nat| pow(2, i) == x as int;
    assert(pow2(i) == x);
    let k = log2_of(x as int);
    assert(pow2(k) == x);
    lemma_pow2_pos(k);
    lemma2_to64();
    lemma2_to64_rest();
    if k >= usize::BITS {
        if k > usize::BITS {
            lemma_pow2_strictly_increases(usize::BITS as nat, k);
        }
        assert(false);
    }
}

/// Distinct exponents give distinct powers of two.
pub proof fn lemma_pow2_injective(j: nat, k: nat)
    requires
        pow2(j) == pow2(k),
    ensures
        j == k,
{
    if j < k {
        lemma_pow2_strictly_increases(j, k);
    }
    if k < j {
        lemma_pow2_strictly_increases(k, j);
    }
}

/// Every `2^k` is a power of two with exponent `k`.
pub proof fn lemma_pow2_is_pow2(k: nat)
    ensures
        is_pow2(pow2(k) as int),
        log2_of(pow2(k) as int) == k,
{
    is_pow2_equiv(pow2(k) as int);
    lemma_pow2_pos(k);
    vstd::arithmetic::power::lemma_pow_positive(2, k);
    assert(pow(2, k) == pow2(k) as int);
    lemma_pow2_injective(log2_of(pow2(k) as int), k);
}

/// Masking with `2^k - 1` takes the remainder, and masking its complement
/// out rounds down to a multiple of `2^k`.
pub proof fn lemma_mask(x: usize, k: nat)
    requires
        k < usize::BITS,
    ensures
        pow2(k) <= usize::MAX,
        x & ((pow2(k) - 1) as usize) == x as int % (pow2(k) as int),
        x & !((pow2(k) - 1) as usize) == x - x as int % (pow2(k) as int),
{
    lemma_usize_pow2_no_overflow(k);
    lemma_usize_low_bits_mask_is_mod(x, k);
    let mask = (pow2(k) - 1) as usize;
    assert(mask == low_bits_mask(k) as usize);
    assert(x & !mask == x - (x & mask)) by (bit_vector);
}

/// For a power-of-two alignment, what `memory_addr::is_aligned` computes
/// is divisibility.
pub proof fn lemma_is_aligned(addr: usize, align: usize)
    requires
        is_pow2(align as int),
    ensures
        ((addr & ((align - 1) as usize)) == 0) == (addr as int % align as int == 0),
{
    lemma_log2_of(align);
    lemma_mask(addr, log2_of(align as int));
}

/// For a power-of-two alignment, what `memory_addr::align_down` computes is
/// the greatest multiple of the alignment that is not above the address.
pub proof fn lemma_align_down(addr: usize, align: usize)
    requires
        is_pow2(align as int),
    ensures
        addr & !((align - 1) as usize) == addr - addr as int % align as int,
        addr & !((align - 1) as usize) == (addr as int / align as int) * align,
        (addr & !((align - 1) as usize)) as int % align as int == 0,
{
    lemma_log2_of(align);
    lemma_mask(addr, log2_of(align as int));
    lemma_split(addr as int, align as int);
    vstd::arithmetic::div_mod::lemma_mod_multiples_basic(addr as int / align as int, align as int);
}

/// For a power-of-two alignment, what `memory_addr::align_up` computes is
/// the least multiple of the alignment that is not below the address.
pub proof fn lemma_align_up_addr(addr: usize, align: usize)
    requires
        is_pow2(align as int),
        addr + align <= usize::MAX,
    ensures
        ((addr + align - 1) as usize) & !((align - 1) as usize) == align_up_spec(
            addr as int,
            log2_of(align as int),
        ),
{
    lemma_log2_of(align);
    let k = log2_of(align as int);
    lemma_mask((addr + align - 1) as usize, k);
    lemma_align_up(addr as int, k);
}

/// The trailing zeros of a power of two count its exponent.
pub proof fn lemma_trailing_zeros_pow2(x: usize)
    requires
        is_pow2(x as int),
    ensures
        (x as u64).trailing_zeros() == log2_of(x as int),
{
    lemma_log2_of(x);
    let k = log2_of(x as int) as u64;
    let word = x as u64;
    let t = word.trailing_zeros() as u64;
    lemma2_to64();
    lemma2_to64_rest();
    vstd::bits::lemma_u64_pow2_no_overflow(k as nat);
    vstd::bits::lemma_u64_shl_is_mul(1, k);
    vstd::std_specs::bits::axiom_u64_trailing_zeros(word);
    assert(t == k) by (bit_vector)
        requires
            word == 1u64 << k,
            k < 64,
            t < 64,
            (word >> t) & 1 == 1,
    ;
}

/// Rounds a bit index up to the next multiple of `2^align_log2`.
pub fn align_up_log2(base: usize, align_log2: usize) -> (r: usize)
    requires
        align_log2 < usize::BITS,
        base + pow2(align_log2 as nat) - 1 <= usize::MAX,
    ensures
        r == align_up_spec(base as int, align_log2 as nat),
        r as int % (pow2(align_log2 as nat) as int) == 0,
        base <= r < base + pow2(align_log2 as nat),
{
    proof {
        lemma_usize_pow2_no_overflow(align_log2 as nat);
        lemma_usize_shl_is_mul(1, align_log2);
        lemma_mask((base + pow2(align_log2 as nat) - 1) as usize, align_log2 as nat);
        lemma_align_up(base as int, align_log2 as nat);
    }
    (base + ((1usize << align_log2) - 1)) & !((1usize << align_log2) - 1)
}

/// Whether a bit index is a multiple of `2^align_log2`.
pub fn is_aligned_log2(base: usize, align_log2: usize) -> (r: bool)
    requires
        align_log2 < usize::BITS,
    ensures
        r == (base as int % (pow2(align_log2 as nat) as int) == 0),
{
    proof {
        lemma_usize_pow2_no_overflow(align_log2 as nat);
        lemma_usize_shl_is_mul(1, align_log2);
        lemma_mask(base, align_log2 as nat);
    }
    (base & ((1usize << align_log2) - 1)) == 0
}

} // verus!
