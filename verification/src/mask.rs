//! A small set of numbers kept in a `Bitmap` of the `bitmaps` crate.
//!
//! The bitmap is opaque to the verifier: the crate bounds the width of a
//! bitmap by a trait of its own, which cannot be named in verified code. A
//! mask therefore holds a bitmap of the largest width the crate offers, in
//! a field that the verifier does not look into, and the users of a mask
//! keep the numbers in it below their own bound.
//!
//! What a mask holds is named by `mask_bits`, and each function below
//! states, over that name, what the crate's method does to the bitmap and
//! what it returns.

use crate::bit_alloc::is_least;
use bitmaps::Bitmap;
use vstd::prelude::*;

verus! {

/// The width of a mask: it holds numbers below this bound.
pub const MASK_BITS: usize = 1024;

/// A set of numbers below `MASK_BITS`, kept in a `Bitmap<1024>`.
#[verifier::external_body]
pub struct SegmentMask {
    bits: Bitmap<1024>,
}

/// The numbers whose bit is set in the mask.
pub uninterp spec fn mask_bits(mask: SegmentMask) -> Set<int>;

/// `Bitmap::new`: a bitmap with every bit `false`.
#[verifier::external_body]
pub(crate) fn mask_new() -> (mask: SegmentMask)
    ensures
        mask_bits(mask) == Set::<int>::empty(),
{
    SegmentMask { bits: Bitmap::new() }
}

/// `Bitmap::get`: the value of the bit at `index`. The crate asserts the
/// bound in debug builds.
#[verifier::external_body]
pub(crate) fn mask_get(mask: &SegmentMask, index: usize) -> (r: bool)
    requires
        index < MASK_BITS,
    ensures
        r == mask_bits(*mask).contains(index as int),
{
    mask.bits.get(index)
}

/// `Bitmap::set`: the bit at `index` takes `value` and no other bit
/// changes. The crate asserts the bound in debug builds.
#[verifier::external_body]
pub(crate) fn mask_set(mask: &mut SegmentMask, index: usize, value: bool)
    requires
        index < MASK_BITS,
    ensures
        mask_bits(*final(mask)) == if value {
            mask_bits(*old(mask)).insert(index as int)
        } else {
            mask_bits(*old(mask)).remove(index as int)
        },
{
    mask.bits.set(index, value);
}

/// `Bitmap::first_index`: the index of the first `true` bit, if any.
#[verifier::external_body]
pub(crate) fn mask_first_index(mask: &SegmentMask) -> (r: Option<usize>)
    ensures
        match r {
            Some(i) => is_least(mask_bits(*mask), i as int),
            None => mask_bits(*mask).is_empty(),
        },
{
    mask.bits.first_index()
}

/// `Bitmap::is_empty`: whether the bitmap contains only `false` bits.
#[verifier::external_body]
pub(crate) fn mask_is_empty(mask: &SegmentMask) -> (r: bool)
    ensures
        r == mask_bits(*mask).is_empty(),
{
    mask.bits.is_empty()
}

/// The iterator of `&Bitmap`, collected: the indices of the `true` bits,
/// each once, in increasing order.
#[verifier::external_body]
pub(crate) fn mask_indices(mask: &SegmentMask) -> (r: Vec<usize>)
    ensures
        forall|i: int, j: int| 0 <= i < j < r.len() ==> r[i] < r[j],
        forall|i: int| 0 <= i < r.len() ==> mask_bits(*mask).contains(#[trigger] r[i] as int),
        forall|k: int|
            mask_bits(*mask).contains(k) ==> exists|i: int| 0 <= i < r.len() && r[i] == k,
{
    mask.bits.into_iter().collect()
}

} // verus!
