//! Flat bitsets packed into `u64` words: bit `i` is bit `i % 64` of word
//! `i / 64`.

use vstd::prelude::*;

verus! {

/// Whether bit `i` is set in the words `set`.
pub open spec fn bit_of(set: Seq<u64>, i: int) -> bool {
    0 <= i && i / 64 < set.len() && (set[i / 64] >> ((i % 64) as u64)) & 1 == 1
}

proof fn lemma_word_or(w: u64, b: u64, c: u64)
    requires
        b < 64,
        c < 64,
    ensures
        ((w | (1u64 << b)) >> c) & 1 == (if b == c { 1 } else { (w >> c) & 1 }),
{
    assert(((w | (1u64 << b)) >> c) & 1 == (if b == c { 1 } else { (w >> c) & 1 })) by (bit_vector)
        requires
            b < 64,
            c < 64,
    ;
}

proof fn lemma_word_andnot(w: u64, b: u64, c: u64)
    requires
        b < 64,
        c < 64,
    ensures
        ((w & !(1u64 << b)) >> c) & 1 == (if b == c { 0 } else { (w >> c) & 1 }),
{
    assert(((w & !(1u64 << b)) >> c) & 1 == (if b == c { 0 } else { (w >> c) & 1 })) by (bit_vector)
        requires
            b < 64,
            c < 64,
    ;
}

proof fn lemma_word_const(c: u64)
    requires
        c < 64,
    ensures
        (0u64 >> c) & 1 == 0,
        (!0u64 >> c) & 1 == 1,
{
    assert((0u64 >> c) & 1 == 0) by (bit_vector);
    assert((!0u64 >> c) & 1 == 1) by (bit_vector)
        requires
            c < 64,
    ;
}

/// Whether bit `i` is set.
pub fn bitset_get(set: &[u64], i: usize) -> (r: bool)
    requires
        i / 64 < set@.len(),
    ensures
        r == bit_of(set@, i as int),
{
    (set[i / 64] >> ((i % 64) as u64)) & 1 == 1
}

/// Set bit `i`; every other bit keeps its value.
pub fn bitset_set(set: &mut Vec<u64>, i: usize)
    requires
        i / 64 < old(set)@.len(),
    ensures
        final(set)@.len() == old(set)@.len(),
        forall|j: int| #[trigger] bit_of(final(set)@, j) == (j == i || bit_of(old(set)@, j)),
{
    let w = set[i / 64];
    let b = (i % 64) as u64;
    set.set(i / 64, w | (1u64 << b));
    proof {
        assert forall|j: int| #[trigger] bit_of(set@, j) == (j == i || bit_of(old(set)@, j)) by {
            if 0 <= j && j / 64 < set@.len() {
                if j / 64 == i / 64 {
                    lemma_word_or(w, b, (j % 64) as u64);
                } else {
                    assert(set@[j / 64] == old(set)@[j / 64]);
                }
            }
        }
    }
}

/// Clear bit `i`; every other bit keeps its value.
pub fn bitset_clear(set: &mut Vec<u64>, i: usize)
    requires
        i / 64 < old(set)@.len(),
    ensures
        final(set)@.len() == old(set)@.len(),
        forall|j: int| #[trigger] bit_of(final(set)@, j) == (j != i && bit_of(old(set)@, j)),
{
    let w = set[i / 64];
    let b = (i % 64) as u64;
    set.set(i / 64, w & !(1u64 << b));
    proof {
        assert forall|j: int| #[trigger] bit_of(set@, j) == (j != i && bit_of(old(set)@, j)) by {
            if 0 <= j && j / 64 < set@.len() {
                if j / 64 == i / 64 {
                    lemma_word_andnot(w, b, (j % 64) as u64);
                } else {
                    assert(set@[j / 64] == old(set)@[j / 64]);
                }
            }
        }
    }
}

/// Set every bit of every word (`ones`) or clear every bit.
pub fn bitset_fill(set: &mut Vec<u64>, ones: bool)
    ensures
        final(set)@.len() == old(set)@.len(),
        forall|j: int| #[trigger] bit_of(final(set)@, j) == (ones && 0 <= j && j / 64 < old(set)@.len()),
{
    let word: u64 = if ones { !0u64 } else { 0u64 };
    let mut k: usize = 0;
    while k < set.len()
        invariant
            set@.len() == old(set)@.len(),
            k <= set@.len(),
            forall|m: int| 0 <= m < k ==> #[trigger] set@[m] == word,
        decreases set@.len() - k,
    {
        set.set(k, word);
        k = k + 1;
    }
    proof {
        assert forall|j: int| #[trigger] bit_of(set@, j) == (ones && 0 <= j && j / 64 < old(set)@.len()) by {
            if 0 <= j && j / 64 < set@.len() {
                assert(set@[j / 64] == word);
                lemma_word_const((j % 64) as u64);
            }
        }
    }
}

/// A bitset of `words` zero words.
pub fn bitset_new(words: usize) -> (set: Vec<u64>)
    ensures
        set@.len() == words,
        forall|j: int| !#[trigger] bit_of(set@, j),
{
    let mut set: Vec<u64> = Vec::new();
    let mut k: usize = 0;
    while k < words
        invariant
            k <= words,
            set@.len() == k,
            forall|m: int| 0 <= m < k ==> #[trigger] set@[m] == 0,
        decreases words - k,
    {
        set.push(0);
        k = k + 1;
    }
    proof {
        assert forall|j: int| !#[trigger] bit_of(set@, j) by {
            if 0 <= j && j / 64 < set@.len() {
                assert(set@[j / 64] == 0);
                lemma_word_const((j % 64) as u64);
            }
        }
    }
    set
}

} // verus!
