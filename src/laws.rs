//! Properties of the bitset operations, stated over the spec functions that
//! their contracts use.

use vstd::prelude::*;
use crate::bitset::{
    BitsetError,
    read_bit,
    write_bit,
    grow_bits,
    drop_last_word,
    zeros,
    word_to_bits,
    lemma_zero_word_bit,
};

verus! {

/// A freshly built bitset of `n` words reads `false` at every index below
/// `n * 32`.
pub proof fn lemma_new_reads_false(n: nat, i: int)
    requires
        0 <= i < n * 32,
    ensures
        read_bit(zeros(n * 32), i) == Ok::<bool, BitsetError>(false),
{
}

/// After writing `state` at a valid index `i`, reading `i` gives `state`,
/// and reading any other index `j` gives what it gave before.
pub proof fn lemma_set_then_get(bits: Seq<bool>, i: int, state: bool, j: int)
    requires
        0 <= i < bits.len(),
    ensures
        read_bit(write_bit(bits, i, state), i) == Ok::<bool, BitsetError>(state),
        j != i ==> read_bit(write_bit(bits, i, state), j) == read_bit(bits, j),
{
}

/// Growing to `m` words, with `m` at least the current word count, keeps
/// every existing bit.
pub proof fn lemma_grow_preserves(bits: Seq<bool>, m: nat, i: int)
    requires
        bits.len() % 32 == 0,
        m * 32 >= bits.len(),
        0 <= i < bits.len(),
    ensures
        read_bit(grow_bits(bits, m), i) == read_bit(bits, i),
{
}

/// A resize to fewer words than the bitset holds changes nothing.
pub proof fn lemma_shrink_rejected(bits: Seq<bool>, m: nat)
    requires
        bits.len() % 32 == 0,
        m * 32 < bits.len(),
    ensures
        grow_bits(bits, m) == bits,
{
}

/// A bit written in the last word is gone once that word is removed and a
/// zero word appended in its place: it reads `false`.
pub proof fn lemma_pop_is_lossy(bits: Seq<bool>, i: int, state: bool)
    requires
        bits.len() % 32 == 0,
        bits.len() >= 32,
        bits.len() - 32 <= i < bits.len(),
    ensures
        read_bit(drop_last_word(write_bit(bits, i, state)) + word_to_bits(0u32), i)
            == Ok::<bool, BitsetError>(false),
{
    let restored = drop_last_word(write_bit(bits, i, state)) + word_to_bits(0u32);
    lemma_zero_word_bit((i - (bits.len() - 32)) as u32);
    assert(restored[i] == word_to_bits(0u32)[i - (bits.len() - 32)]);
}

/// At an index at or beyond the capacity, reading fails with `OutOfBounds`
/// and writing changes nothing.
pub proof fn lemma_out_of_bounds(bits: Seq<bool>, i: int, state: bool)
    requires
        i >= bits.len(),
    ensures
        read_bit(bits, i) == Err::<bool, BitsetError>(BitsetError::OutOfBounds),
        write_bit(bits, i, state) == bits,
{
}

} // verus!
