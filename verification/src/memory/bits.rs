//! Bit-level facts about the 64-bit words that back the allocator bitmaps.

use vstd::prelude::*;
use vstd::std_specs::bits::{u64_trailing_zeros, axiom_u64_trailing_zeros};

verus! {

/// Whether bit `b` of `w` is set.
pub open spec fn bit_set(w: u64, b: u64) -> bool {
    (w >> b) & 1u64 == 1u64
}

/// Setting bit `b` leaves every other bit unchanged.
pub proof fn lemma_or_bit(w: u64, b: u64, j: u64)
    requires
        b < 64,
        j < 64,
    ensures
        bit_set(w | (1u64 << b), j) == (j == b || bit_set(w, j)),
{
    assert(((w | (1u64 << b)) >> j) & 1u64 == 1u64 <==> (j == b || (w >> j) & 1u64 == 1u64))
        by (bit_vector)
        requires
            b < 64,
            j < 64,
    ;
}

/// Clearing bit `b` leaves every other bit unchanged.
pub proof fn lemma_and_not_bit(w: u64, b: u64, j: u64)
    requires
        b < 64,
        j < 64,
    ensures
        bit_set(w & !(1u64 << b), j) == (j != b && bit_set(w, j)),
{
    assert(((w & !(1u64 << b)) >> j) & 1u64 == 1u64 <==> (j != b && (w >> j) & 1u64 == 1u64))
        by (bit_vector)
        requires
            b < 64,
            j < 64,
    ;
}

/// Testing a word against a one-bit mask reads that bit.
pub proof fn lemma_mask_test(w: u64, b: u64)
    requires
        b < 64,
    ensures
        (w & (1u64 << b) == 0) == !bit_set(w, b),
{
    assert((w & (1u64 << b) == 0) <==> !((w >> b) & 1u64 == 1u64)) by (bit_vector)
        requires
            b < 64,
    ;
}

/// A word with every bit set has each of its 64 bits set.
pub proof fn lemma_full_word(w: u64, j: u64)
    requires
        w == 0xffff_ffff_ffff_ffffu64,
        j < 64,
    ensures
        bit_set(w, j),
{
    assert((0xffff_ffff_ffff_ffffu64 >> j) & 1u64 == 1u64) by (bit_vector)
        requires
            j < 64,
    ;
}

/// A word whose 64 bits are all set equals `u64::MAX`.
pub proof fn lemma_all_bits_full(w: u64)
    requires
        forall|j: u64| j < 64 ==> #[trigger] bit_set(w, j),
    ensures
        w == 0xffff_ffff_ffff_ffffu64,
{
    assert(!w != 0u64 ==> !w >> u64_trailing_zeros(!w) as u64 & 1u64 == 1u64) by {
        axiom_u64_trailing_zeros(!w);
    }
    if w != 0xffff_ffff_ffff_ffffu64 {
        let t = u64_trailing_zeros(!w) as u64;
        axiom_u64_trailing_zeros(!w);
        assert(!w != 0u64) by (bit_vector)
            requires
                w != 0xffff_ffff_ffff_ffffu64,
        ;
        assert(bit_set(w, t));
        assert(((!w) >> t) & 1u64 == 1u64 ==> !((w >> t) & 1u64 == 1u64)) by (bit_vector);
    }
}

/// The complement of a word has exactly the opposite bits.
pub proof fn lemma_not_bit(w: u64, j: u64)
    requires
        j < 64,
    ensures
        bit_set(!w, j) == !bit_set(w, j),
{
    assert((((!w) >> j) & 1u64 == 1u64) <==> !((w >> j) & 1u64 == 1u64)) by (bit_vector)
        requires
            j < 64,
    ;
}

/// The first clear bit of a word that is not full: `trailing_zeros(!w)`
/// is below 64, that bit is clear and every lower bit is set.
pub proof fn lemma_first_clear_bit(w: u64)
    requires
        w != 0xffff_ffff_ffff_ffffu64,
    ensures
        u64_trailing_zeros(!w) < 64,
        !bit_set(w, u64_trailing_zeros(!w) as u64),
        forall|j: u64| j < u64_trailing_zeros(!w) ==> #[trigger] bit_set(w, j),
{
    axiom_u64_trailing_zeros(!w);
    assert(!w != 0u64) by (bit_vector)
        requires
            w != 0xffff_ffff_ffff_ffffu64,
    ;
    let t = u64_trailing_zeros(!w) as u64;
    lemma_not_bit(w, t);
    assert forall|j: u64| j < u64_trailing_zeros(!w) implies #[trigger] bit_set(w, j) by {
        assert(((!w) >> j) & 1u64 == 0u64);
        lemma_not_bit(w, j);
    }
}

/// The word that marks every bit from `r` upward: bit `j` is set exactly
/// when `j >= r`.
pub proof fn lemma_high_mask_bits(r: u64, j: u64)
    requires
        0 < r < 64,
        j < 64,
    ensures
        bit_set(!(((1u64 << r) - 1) as u64), j) == (j >= r),
{
    assert(((!(((1u64 << r) - 1) as u64)) >> j) & 1u64 == 1u64 <==> j >= r) by (bit_vector)
        requires
            0 < r < 64,
            j < 64,
    ;
}

/// A zero word has no bit set.
pub proof fn lemma_zero_word(j: u64)
    requires
        j < 64,
    ensures
        !bit_set(0u64, j),
{
    assert(!((0u64 >> j) & 1u64 == 1u64)) by (bit_vector);
}

} // verus!
