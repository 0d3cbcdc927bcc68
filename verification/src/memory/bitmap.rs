//! Word-packed bitmaps: one bit per frame or page, 64 per word.
//!
//! Bit `i` of a bitmap lives in word `i / 64` at position `i % 64`;
//! a set bit means "allocated".

use vstd::prelude::*;
use crate::memory::bits::{bit_set, lemma_or_bit, lemma_and_not_bit, lemma_mask_test, lemma_full_word, lemma_first_clear_bit};

verus! {

/// Bit `i` of the bitmap stored in `words`.
pub open spec fn word_bit(words: Seq<u64>, i: int) -> bool {
    bit_set(words[i / 64], (i % 64) as u64)
}

/// The first `n` bits of the bitmap as a sequence.
pub open spec fn bits_view(words: Seq<u64>, n: nat) -> Seq<bool> {
    Seq::new(n, |i: int| word_bit(words, i))
}

/// Number of clear (free) entries in a sequence of allocation bits.
pub open spec fn count_free(s: Seq<bool>) -> nat
    decreases s.len(),
{
    if s.len() == 0 {
        0
    } else {
        count_free(s.drop_last()) + if s.last() {
            0nat
        } else {
            1nat
        }
    }
}

/// Changing one entry changes the free count by at most one, as expected.
pub proof fn lemma_count_free_update(s: Seq<bool>, i: int, v: bool)
    requires
        0 <= i < s.len(),
    ensures
        count_free(s.update(i, v)) + (if s[i] {
            0int
        } else {
            1int
        }) == count_free(s) + (if v {
            0int
        } else {
            1int
        }),
    decreases s.len(),
{
    let t = s.update(i, v);
    if i == s.len() - 1 {
        assert(t.drop_last() =~= s.drop_last());
    } else {
        lemma_count_free_update(s.drop_last(), i, v);
        assert(t.drop_last() =~= s.drop_last().update(i, v));
    }
}

/// The free count never exceeds the length.
pub proof fn lemma_count_free_le(s: Seq<bool>)
    ensures
        count_free(s) <= s.len(),
    decreases s.len(),
{
    if s.len() > 0 {
        lemma_count_free_le(s.drop_last());
    }
}

/// A sequence without a clear entry has no free entry.
pub proof fn lemma_count_free_all_set(s: Seq<bool>)
    requires
        forall|i: int| 0 <= i < s.len() ==> #[trigger] s[i],
    ensures
        count_free(s) == 0,
    decreases s.len(),
{
    if s.len() > 0 {
        lemma_count_free_all_set(s.drop_last());
    }
}

/// A sequence where every entry is clear is entirely free.
pub proof fn lemma_count_free_all_clear(s: Seq<bool>)
    requires
        forall|i: int| 0 <= i < s.len() ==> !#[trigger] s[i],
    ensures
        count_free(s) == s.len(),
    decreases s.len(),
{
    if s.len() > 0 {
        lemma_count_free_all_clear(s.drop_last());
    }
}

/// Whether `i` is the lowest-numbered clear entry of `v`.
pub open spec fn is_lowest_free(v: Seq<bool>, i: int) -> bool {
    &&& 0 <= i < v.len()
    &&& !v[i]
    &&& forall|j: int| 0 <= j < i ==> #[trigger] v[j]
}

/// The lowest-numbered clear entry of `v`, if any.
pub open spec fn lowest_free(v: Seq<bool>) -> Option<int> {
    if exists|i: int| #[trigger] is_lowest_free(v, i) {
        Some(choose|i: int| #[trigger] is_lowest_free(v, i))
    } else {
        None
    }
}

/// The lowest clear entry is unique.
pub proof fn lemma_lowest_free_is(v: Seq<bool>, i: int)
    requires
        is_lowest_free(v, i),
    ensures
        lowest_free(v) == Some(i),
{
    let k = choose|k: int| #[trigger] is_lowest_free(v, k);
    if k < i {
        assert(v[k]);
    } else if k > i {
        assert(v[i]);
    }
}

/// Freeing the entry an allocation just took gives the allocator its
/// state back: the entry is allocated after the allocation, so the free
/// succeeds, and clearing it again restores the bits and the free count.
pub proof fn law_free_undoes_allocate(v: Seq<bool>, n: int)
    requires
        lowest_free(v) == Some(n),
    ensures
        v.update(n, true)[n],
        v.update(n, true).update(n, false) == v,
        count_free(v.update(n, true)) + 1 == count_free(v),
{
    let i = choose|i: int| #[trigger] is_lowest_free(v, i);
    assert(is_lowest_free(v, i));
    lemma_count_free_update(v, n, true);
    assert(v.update(n, true).update(n, false) =~= v);
}

/// An entry freed while every lower entry is allocated is the next one an
/// allocation takes.
pub proof fn law_freed_lowest_is_reused(v: Seq<bool>, n: int)
    requires
        0 <= n < v.len(),
        forall|j: int| 0 <= j < n ==> #[trigger] v[j],
    ensures
        lowest_free(v.update(n, false)) == Some(n),
{
    let w = v.update(n, false);
    assert forall|j: int| 0 <= j < n implies #[trigger] w[j] by {
        assert(w[j] == v[j]);
    }
    lemma_lowest_free_is(w, n);
}

/// Freeing an entry twice is refused: after the first free the entry is
/// clear, which the allocators answer with an error.
pub proof fn law_second_free_refused(v: Seq<bool>, n: int)
    requires
        0 <= n < v.len(),
    ensures
        !v.update(n, false)[n],
{
}

/// Without free entries there is no lowest free entry.
pub proof fn lemma_lowest_free_none(v: Seq<bool>)
    requires
        count_free(v) == 0,
    ensures
        lowest_free(v) is None,
        forall|i: int| 0 <= i < v.len() ==> #[trigger] v[i],
    decreases v.len(),
{
    if v.len() > 0 {
        lemma_count_free_le(v.drop_last());
        lemma_lowest_free_none(v.drop_last());
        assert forall|i: int| 0 <= i < v.len() implies #[trigger] v[i] by {
            if i < v.len() - 1 {
                assert(v.drop_last()[i]);
            }
        }
    }
    if exists|i: int| #[trigger] is_lowest_free(v, i) {
        let i = choose|i: int| #[trigger] is_lowest_free(v, i);
        assert(v[i]);
    }
}

/// Setting bit `index`.
pub fn set_bit(words: &mut Vec<u64>, index: usize)
    requires
        index < old(words).len() * 64,
    ensures
        final(words).len() == old(words).len(),
        forall|i: int|
            0 <= i < old(words).len() * 64 ==> #[trigger] word_bit(final(words)@, i) == (i
                == index || word_bit(old(words)@, i)),
{
    let w = index / 64;
    let b = (index % 64) as u64;
    let ghost old_words = words@;
    words.set(w, words[w] | (1u64 << b));
    proof {
        assert forall|i: int| 0 <= i < old_words.len() * 64 implies #[trigger] word_bit(
            words@,
            i,
        ) == (i == index || word_bit(old_words, i)) by {
            if i / 64 == w as int {
                lemma_or_bit(old_words[w as int], b, (i % 64) as u64);
            }
        }
    }
}

/// Clearing bit `index`.
pub fn clear_bit(words: &mut Vec<u64>, index: usize)
    requires
        index < old(words).len() * 64,
    ensures
        final(words).len() == old(words).len(),
        forall|i: int|
            0 <= i < old(words).len() * 64 ==> #[trigger] word_bit(final(words)@, i) == (i
                != index && word_bit(old(words)@, i)),
{
    let w = index / 64;
    let b = (index % 64) as u64;
    let ghost old_words = words@;
    words.set(w, words[w] & !(1u64 << b));
    proof {
        assert forall|i: int| 0 <= i < old_words.len() * 64 implies #[trigger] word_bit(
            words@,
            i,
        ) == (i != index && word_bit(old_words, i)) by {
            if i / 64 == w as int {
                lemma_and_not_bit(old_words[w as int], b, (i % 64) as u64);
            }
        }
    }
}

/// Reading bit `index`.
pub fn test_bit(words: &Vec<u64>, index: usize) -> (r: bool)
    requires
        index < words.len() * 64,
    ensures
        r == word_bit(words@, index as int),
{
    let w = index / 64;
    let b = (index % 64) as u64;
    proof {
        lemma_mask_test(words[w as int], b);
    }
    words[w] & (1u64 << b) != 0
}

/// The view after setting one bit.
pub proof fn lemma_view_set(old_words: Seq<u64>, new_words: Seq<u64>, n: nat, index: int)
    requires
        0 <= index < n,
        n <= old_words.len() * 64,
        forall|i: int|
            0 <= i < old_words.len() * 64 ==> #[trigger] word_bit(new_words, i) == (i == index
                || word_bit(old_words, i)),
    ensures
        bits_view(new_words, n) =~= bits_view(old_words, n).update(index, true),
{
}

/// The view after clearing one bit.
pub proof fn lemma_view_clear(old_words: Seq<u64>, new_words: Seq<u64>, n: nat, index: int)
    requires
        0 <= index < n,
        n <= old_words.len() * 64,
        forall|i: int|
            0 <= i < old_words.len() * 64 ==> #[trigger] word_bit(new_words, i) == (i != index
                && word_bit(old_words, i)),
    ensures
        bits_view(new_words, n) =~= bits_view(old_words, n).update(index, false),
{
}

/// The first clear bit of word `w`, when the word is not full, is bit
/// `trailing_zeros(!word)`: it is clear and every lower bit of the word is set.
pub proof fn lemma_first_free_in_word(words: Seq<u64>, w: int)
    requires
        0 <= w < words.len(),
        words[w] != 0xffff_ffff_ffff_ffffu64,
    ensures
        ({
            let t = vstd::std_specs::bits::u64_trailing_zeros(!words[w]) as int;
            &&& 0 <= t < 64
            &&& !word_bit(words, w * 64 + t)
            &&& forall|j: int| w * 64 <= j < w * 64 + t ==> #[trigger] word_bit(words, j)
        }),
{
    lemma_first_clear_bit(words[w]);
    let t = vstd::std_specs::bits::u64_trailing_zeros(!words[w]) as int;
    assert((w * 64 + t) / 64 == w);
    assert((w * 64 + t) % 64 == t);
    assert forall|j: int| w * 64 <= j < w * 64 + t implies #[trigger] word_bit(words, j) by {
        assert(j / 64 == w);
        assert(bit_set(words[w], (j % 64) as u64));
    }
}

/// Every bit of a full word is set.
pub proof fn lemma_full_word_bits(words: Seq<u64>, w: int)
    requires
        0 <= w < words.len(),
        words[w] == 0xffff_ffff_ffff_ffffu64,
    ensures
        forall|j: int| w * 64 <= j < w * 64 + 64 ==> #[trigger] word_bit(words, j),
{
    assert forall|j: int| w * 64 <= j < w * 64 + 64 implies #[trigger] word_bit(words, j) by {
        assert(j / 64 == w);
        lemma_full_word(words[w], (j % 64) as u64);
    }
}

} // verus!
