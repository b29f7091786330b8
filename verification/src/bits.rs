//! Machine words read as small sets of bit positions.
//!
//! The single-bit and bit-range operations come from the `bit_field` crate.
//! Each wrapper below states the word that the crate computes; the lemmas
//! after them turn those words into facts about individual bit positions,
//! which is the vocabulary the allocators are specified in.

use bit_field::BitField;
use core::ops::Range;
use vstd::prelude::*;

verus! {

/// Bit `i` of a 64-bit word is one. Bit 0 is the least significant.
pub open spec fn bit64(word: u64, i: int) -> bool {
    0 <= i < 64 && (word >> (i as u64)) & 1 == 1
}

/// The positions of the one bits of a 64-bit word.
pub open spec fn bits64(word: u64) -> Set<int> {
    Set::new(|i: int| bit64(word, i))
}

/// Bit `i` of an 8-bit word is one. Bit 0 is the least significant.
pub open spec fn bit8(word: u8, i: int) -> bool {
    0 <= i < 8 && (word >> (i as u8)) & 1 == 1
}

/// The word that `set_bits` leaves behind when it writes `value` into the
/// non-empty bit range `start..end` of `word`.
pub open spec fn with_bits64(word: u64, start: u64, end: u64, value: u64) -> u64 {
    (word & !(((((!0u64) << ((64 - end) as u64)) >> ((64 - end) as u64)) >> start) << start)) | (
    value << start)
}


/// The word that `get_bits` reads out of the non-empty bit range
/// `start..end` of `word`.
pub open spec fn field64(word: u64, start: u64, end: u64) -> u64 {
    ((word << ((64 - end) as u64)) >> ((64 - end) as u64)) >> start
}

/// `value` has no one bit at or above position `len`.
pub open spec fn fits64(value: u64, len: u64) -> bool {
    ((value << ((64 - len) as u64)) >> ((64 - len) as u64)) == value
}

/// `BitField::get_bit` of `bit_field` on a `u64`: the word masked with the
/// one bit at `bit` is non-zero. The crate panics for `bit >= 64`.
#[verifier::external_body]
pub(crate) fn get_bit_u64(word: u64, bit: usize) -> (r: bool)
    requires
        bit < 64,
    ensures
        r == ((word & (1u64 << (bit as u64))) != 0),
{
    word.get_bit(bit)
}

/// `BitField::set_bit` of `bit_field` on a `u64`: the one bit at `bit` is
/// or-ed in for `true` and masked out for `false`. The crate panics for
/// `bit >= 64`.
#[verifier::external_body]
pub(crate) fn set_bit_u64(word: &mut u64, bit: usize, value: bool)
    requires
        bit < 64,
    ensures
        *final(word) == if value {
            *old(word) | (1u64 << (bit as u64))
        } else {
            *old(word) & !(1u64 << (bit as u64))
        },
{
    word.set_bit(bit, value);
}

/// `BitField::get_bits` of `bit_field` on a `u64`: the bits above the range
/// are shifted out to the left, then the bits below it to the right; an
/// empty range reads zero. The crate panics outside the stated bounds.
#[verifier::external_body]
pub(crate) fn get_bits_u64(word: u64, range: Range<usize>) -> (r: u64)
    requires
        range.start < 64,
        range.end <= 64,
        range.start <= range.end,
    ensures
        r == if range.start == range.end {
            0
        } else {
            field64(word, range.start as u64, range.end as u64)
        },
{
    word.get_bits(range)
}

/// `BitField::set_bits` of `bit_field` on a `u64`: the range is masked out
/// of the word and `value`, shifted to the start of the range, is or-ed in;
/// an empty range leaves the word as it is. The crate panics outside the
/// stated bounds and when `value` does not fit the range.
#[verifier::external_body]
pub(crate) fn set_bits_u64(word: &mut u64, range: Range<usize>, value: u64)
    requires
        range.start < 64,
        range.end <= 64,
        range.start <= range.end,
        (range.start == range.end && value == 0) || fits64(
            value,
            (range.end - range.start) as u64,
        ),
    ensures
        *final(word) == if range.start == range.end {
            *old(word)
        } else {
            with_bits64(*old(word), range.start as u64, range.end as u64, value)
        },
{
    word.set_bits(range, value);
}

/// `BitField::get_bit` of `bit_field` on a `u8`: the word masked with the
/// one bit at `bit` is non-zero. The crate panics for `bit >= 8`.
#[verifier::external_body]
pub(crate) fn get_bit_u8(word: u8, bit: usize) -> (r: bool)
    requires
        bit < 8,
    ensures
        r == ((word & (1u8 << (bit as u8))) != 0),
{
    word.get_bit(bit)
}

/// `BitField::set_bit` of `bit_field` on a `u8`: the one bit at `bit` is
/// or-ed in for `true` and masked out for `false`. The crate panics for
/// `bit >= 8`.
#[verifier::external_body]
pub(crate) fn set_bit_u8(word: &mut u8, bit: usize, value: bool)
    requires
        bit < 8,
    ensures
        *final(word) == if value {
            *old(word) | (1u8 << (bit as u8))
        } else {
            *old(word) & !(1u8 << (bit as u8))
        },
{
    word.set_bit(bit, value);
}

/// The zero word has no bit set.
pub proof fn lemma_zero64()
    ensures
        forall|i: int| !bit64(0, i),
        bits64(0) =~= Set::<int>::empty(),
{
    assert(forall|j: u64| j < 64 ==> (0u64 >> j) & 1 == 0) by (bit_vector);
    assert forall|i: int| !bit64(0, i) by {
        if 0 <= i < 64 {
            assert((0u64 >> (i as u64)) & 1 == 0);
        }
    }
}

/// A word is zero exactly when none of its bits is set; the lowest set bit
/// of a non-zero word is where its trailing zeros end.
pub proof fn lemma_lowest64(word: u64)
    ensures
        word == 0 <==> (forall|i: int| !bit64(word, i)),
        word == 0 <==> word.trailing_zeros() == 64,
        word != 0 ==> bit64(word, word.trailing_zeros() as int),
        forall|i: int| 0 <= i < word.trailing_zeros() ==> !bit64(word, i),
        word.trailing_zeros() <= 64,
{
    vstd::std_specs::bits::axiom_u64_trailing_zeros(word);
    let t = word.trailing_zeros();
    if word == 0 {
        lemma_zero64();
    } else {
        assert(bit64(word, t as int));
    }
    assert forall|i: int| 0 <= i < t implies !bit64(word, i) by {
        assert((word >> (i as u64)) & 1 == 0);
    }
}

/// What `get_bit` computes is membership of the position.
pub proof fn lemma_get_bit64(word: u64, bit: u64)
    requires
        bit < 64,
    ensures
        ((word & (1u64 << bit)) != 0) == bit64(word, bit as int),
{
    assert(((word & (1u64 << bit)) != 0) == ((word >> bit) & 1 == 1)) by (bit_vector)
        requires
            bit < 64,
    ;
}

/// Or-ing one bit in adds its position and leaves the others.
pub proof fn lemma_raise_bit64(word: u64, bit: u64)
    requires
        bit < 64,
    ensures
        forall|i: int| bit64(word | (1u64 << bit), i) == (i == bit || bit64(word, i)),
{
    let after = word | (1u64 << bit);
    assert(forall|j: u64|
        j < 64 ==> (((after >> j) & 1 == 1) == (j == bit || (word >> j) & 1 == 1)))
        by (bit_vector)
        requires
            bit < 64,
            after == word | (1u64 << bit),
    ;
    assert forall|i: int| bit64(after, i) == (i == bit || bit64(word, i)) by {
        if 0 <= i < 64 {
            let j = i as u64;
            assert(((after >> j) & 1 == 1) == (j == bit || (word >> j) & 1 == 1));
        }
    }
}

/// Masking one bit out drops its position and leaves the others.
pub proof fn lemma_clear_bit64(word: u64, bit: u64)
    requires
        bit < 64,
    ensures
        forall|i: int| bit64(word & !(1u64 << bit), i) == (i != bit && bit64(word, i)),
{
    let after = word & !(1u64 << bit);
    assert(forall|j: u64|
        j < 64 ==> (((after >> j) & 1 == 1) == (j != bit && (word >> j) & 1 == 1)))
        by (bit_vector)
        requires
            bit < 64,
            after == word & !(1u64 << bit),
    ;
    assert forall|i: int| bit64(after, i) == (i != bit && bit64(word, i)) by {
        if 0 <= i < 64 {
            let j = i as u64;
            assert(((after >> j) & 1 == 1) == (j != bit && (word >> j) & 1 == 1));
        }
    }
}

/// Shifting a word left and back right by the same amount keeps the bits
/// below the cut and clears the rest.
proof fn lemma_cut_high64(word: u64, cut: u64, p: u64)
    requires
        cut < 64,
        p < 64,
    ensures
        ((((word << cut) >> cut) >> p) & 1 == 1) == (p < 64 - cut && (word >> p) & 1 == 1),
{
    assert(((((word << cut) >> cut) >> p) & 1 == 1) == (p < 64 - cut && (word >> p) & 1 == 1))
        by (bit_vector)
        requires
            cut < 64,
            p < 64,
    ;
}

/// Bit `p` of a word shifted right by `s` is bit `s + p` of the word.
proof fn lemma_shift_right64(word: u64, s: u64, p: u64, q: u64)
    requires
        s < 64,
        p < 64,
        s + p < 64 ==> q == s + p,
        q < 64,
    ensures
        (((word >> s) >> p) & 1 == 1) == (s + p < 64 && (word >> q) & 1 == 1),
{
    assert((((word >> s) >> p) & 1 == 1) == (s + p < 64 && (word >> q) & 1 == 1)) by (bit_vector)
        requires
            s < 64,
            p < 64,
            s + p < 64 ==> q == s + p,
            q < 64,
    ;
}

/// Bit `i` of the field read from `start..end` is bit `start + i` of the
/// word, as long as that position lies inside the range.
pub proof fn lemma_field64(word: u64, start: u64, end: u64, i: int)
    requires
        start < end <= 64,
    ensures
        bit64(field64(word, start, end), i) == (0 <= i < end - start && bit64(word, start + i)),
{
    if 0 <= i < 64 {
        let cut = (64 - end) as u64;
        let p = i as u64;
        let q = if start + i < 64 {
            (start + i) as u64
        } else {
            0
        };
        let kept = (word << cut) >> cut;
        lemma_shift_right64(kept, start, p, q);
        lemma_cut_high64(word, cut, q);
    }
}

/// The field read from the all-ones word fits the range it was read from.
pub proof fn lemma_ones_fit64(start: u64, end: u64)
    requires
        start < end <= 64,
    ensures
        fits64(field64(u64::MAX, start, end), (end - start) as u64),
{
    let f = field64(u64::MAX, start, end);
    let len = (end - start) as u64;
    assert(((f << ((64 - len) as u64)) >> ((64 - len) as u64)) == f) by (bit_vector)
        requires
            start < end <= 64,
            len == end - start,
            f == ((0xffff_ffff_ffff_ffffu64 << ((64 - end) as u64)) >> ((64 - end) as u64))
                >> start,
    ;
}

/// The word with ones exactly at the positions `start..end`.
pub open spec fn range_mask64(start: u64, end: u64) -> u64 {
    ((((!0u64) << ((64 - end) as u64)) >> ((64 - end) as u64)) >> start) << start
}

/// The range mask has exactly the positions of its range.
pub proof fn lemma_range_mask64(start: u64, end: u64)
    requires
        start < end <= 64,
    ensures
        forall|i: int| bit64(range_mask64(start, end), i) == (start <= i < end),
        field64(u64::MAX, start, end) << start == range_mask64(start, end),
{
    let m = range_mask64(start, end);
    assert(forall|j: u64| j < 64 ==> (((m >> j) & 1 == 1) == (start <= j && j < end)))
        by (bit_vector)
        requires
            start < end <= 64,
            m == ((((!0u64) << ((64 - end) as u64)) >> ((64 - end) as u64)) >> start) << start,
    ;
    assert forall|i: int| bit64(m, i) == (start <= i < end) by {
        if 0 <= i < 64 {
            let j = i as u64;
            assert(((m >> j) & 1 == 1) == (start <= j && j < end));
        }
    }
    assert(!0u64 == 0xffff_ffff_ffff_ffffu64) by (bit_vector);
}

/// Writing the all-ones field into a range sets every position of the range
/// and leaves the others.
pub proof fn lemma_fill64(word: u64, start: u64, end: u64)
    requires
        start < end <= 64,
    ensures
        forall|i: int|
            bit64(with_bits64(word, start, end, field64(u64::MAX, start, end)), i) == ((start
                <= i < end) || bit64(word, i)),
{
    let m = range_mask64(start, end);
    let after = with_bits64(word, start, end, field64(u64::MAX, start, end));
    lemma_range_mask64(start, end);
    assert(after == (word & !m) | m);
    assert(forall|j: u64|
        j < 64 ==> (((after >> j) & 1 == 1) == ((m >> j) & 1 == 1 || (word >> j) & 1 == 1)))
        by (bit_vector)
        requires
            after == (word & !m) | m,
    ;
    assert forall|i: int| bit64(after, i) == ((start <= i < end) || bit64(word, i)) by {
        if 0 <= i < 64 {
            let j = i as u64;
            assert(bit64(m, i) == (start <= i < end));
            assert(((after >> j) & 1 == 1) == ((m >> j) & 1 == 1 || (word >> j) & 1 == 1));
        }
    }
}

/// Writing zero into a range clears every position of the range and leaves
/// the others.
pub proof fn lemma_wipe64(word: u64, start: u64, end: u64)
    requires
        start < end <= 64,
    ensures
        fits64(0, (end - start) as u64),
        forall|i: int|
            bit64(with_bits64(word, start, end, 0), i) == (!(start <= i < end) && bit64(word, i)),
{
    let m = range_mask64(start, end);
    let after = with_bits64(word, start, end, 0);
    let len = (end - start) as u64;
    lemma_range_mask64(start, end);
    assert(((0u64 << ((64 - len) as u64)) >> ((64 - len) as u64)) == 0) by (bit_vector)
        requires
            0 < len <= 64,
    ;
    assert(after == (word & !m) | (0u64 << start));
    assert(forall|j: u64|
        j < 64 ==> (((after >> j) & 1 == 1) == (!((m >> j) & 1 == 1) && (word >> j) & 1 == 1)))
        by (bit_vector)
        requires
            start < 64,
            after == (word & !m) | (0u64 << start),
    ;
    assert forall|i: int| bit64(after, i) == (!(start <= i < end) && bit64(word, i)) by {
        if 0 <= i < 64 {
            let j = i as u64;
            assert(bit64(m, i) == (start <= i < end));
            assert(((after >> j) & 1 == 1) == (!((m >> j) & 1 == 1) && (word >> j) & 1 == 1));
        }
    }
}

/// The zero 8-bit word has no bit set, and a non-zero one has its lowest
/// set bit where its trailing zeros end.
pub proof fn lemma_lowest8(word: u8)
    ensures
        word == 0 <==> (forall|i: int| !bit8(word, i)),
        word == 0 <==> word.trailing_zeros() == 8,
        word != 0 ==> bit8(word, word.trailing_zeros() as int),
        forall|i: int| 0 <= i < word.trailing_zeros() ==> !bit8(word, i),
        word.trailing_zeros() <= 8,
{
    vstd::std_specs::bits::axiom_u8_trailing_zeros(word);
    let t = word.trailing_zeros();
    if word == 0 {
        assert(forall|j: u8| j < 8 ==> (0u8 >> j) & 1 == 0) by (bit_vector);
        assert forall|i: int| !bit8(word, i) by {
            if 0 <= i < 8 {
                assert((0u8 >> (i as u8)) & 1 == 0);
            }
        }
    } else {
        assert(bit8(word, t as int));
    }
    assert forall|i: int| 0 <= i < t implies !bit8(word, i) by {
        assert((word >> (i as u8)) & 1 == 0);
    }
}

/// What `get_bit` computes on a `u8` is membership of the position.
pub proof fn lemma_get_bit8(word: u8, bit: u8)
    requires
        bit < 8,
    ensures
        ((word & (1u8 << bit)) != 0) == bit8(word, bit as int),
{
    assert(((word & (1u8 << bit)) != 0) == ((word >> bit) & 1 == 1)) by (bit_vector)
        requires
            bit < 8,
    ;
}

/// What `set_bit` computes on a `u8` changes the one position and leaves
/// the others.
pub proof fn lemma_set_bit8(word: u8, bit: u8)
    requires
        bit < 8,
    ensures
        forall|i: int| bit8(word | (1u8 << bit), i) == (i == bit || bit8(word, i)),
        forall|i: int| bit8(word & !(1u8 << bit), i) == (i != bit && bit8(word, i)),
{
    let up = word | (1u8 << bit);
    let down = word & !(1u8 << bit);
    assert(forall|j: u8|
        j < 8 ==> (((up >> j) & 1 == 1) == (j == bit || (word >> j) & 1 == 1))) by (bit_vector)
        requires
            bit < 8,
            up == word | (1u8 << bit),
    ;
    assert(forall|j: u8|
        j < 8 ==> (((down >> j) & 1 == 1) == (j != bit && (word >> j) & 1 == 1)))
        by (bit_vector)
        requires
            bit < 8,
            down == word & !(1u8 << bit),
    ;
    assert forall|i: int| bit8(up, i) == (i == bit || bit8(word, i)) by {
        if 0 <= i < 8 {
            let j = i as u8;
            assert(((up >> j) & 1 == 1) == (j == bit || (word >> j) & 1 == 1));
        }
    }
    assert forall|i: int| bit8(down, i) == (i != bit && bit8(word, i)) by {
        if 0 <= i < 8 {
            let j = i as u8;
            assert(((down >> j) & 1 == 1) == (j != bit && (word >> j) & 1 == 1));
        }
    }
}

} // verus!
