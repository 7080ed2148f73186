//! The bitset type, its model as a sequence of bits, and its error kinds.

use vstd::prelude::*;

verus! {

/// Whether bit `b` of the word `w` is set: `(w >> b) & 1 != 0`.
pub open spec fn word_bit(w: u32, b: u32) -> bool {
    (w >> b) & 1u32 == 1u32
}

/// The 32 bits of one word, lowest bit first.
pub open spec fn word_to_bits(w: u32) -> Seq<bool> {
    Seq::new(32, |b: int| word_bit(w, b as u32))
}

/// The bits of a sequence of words: bit `i` is bit `i % 32` of word `i / 32`.
pub open spec fn words_to_bits(words: Seq<u32>) -> Seq<bool> {
    Seq::new(words.len() * 32, |i: int| word_bit(words[i / 32], (i % 32) as u32))
}

/// `n` cleared bits.
pub open spec fn zeros(n: nat) -> Seq<bool> {
    Seq::new(n, |i: int| false)
}

/// Why an operation on a bitset was refused.
#[derive(Clone, Copy, Debug, PartialEq, Eq, Structural)]
pub enum BitsetError {
    /// A bit index at or beyond the capacity.
    OutOfBounds,
    /// A resize to fewer words than the bitset holds.
    InvalidResize,
    /// Removing a word from a bitset that holds none.
    InvalidOperation,
}

/// What reading bit `index` of `bits` gives.
pub open spec fn read_bit(bits: Seq<bool>, index: int) -> Result<bool, BitsetError> {
    if 0 <= index < bits.len() {
        Ok(bits[index])
    } else {
        Err(BitsetError::OutOfBounds)
    }
}

/// The bits after writing `state` at `index`; out of range, nothing changes.
pub open spec fn write_bit(bits: Seq<bool>, index: int, state: bool) -> Seq<bool> {
    if 0 <= index < bits.len() {
        bits.update(index, state)
    } else {
        bits
    }
}

/// The bits after growing to `word_count` words, zero-filling the new ones;
/// fewer words than `bits` holds leave it as it is.
pub open spec fn grow_bits(bits: Seq<bool>, word_count: nat) -> Seq<bool> {
    if word_count * 32 >= bits.len() {
        bits + zeros((word_count * 32 - bits.len()) as nat)
    } else {
        bits
    }
}

/// The bits after dropping the last word; with no word, nothing changes.
pub open spec fn drop_last_word(bits: Seq<bool>) -> Seq<bool> {
    if bits.len() >= 32 {
        bits.subrange(0, bits.len() - 32)
    } else {
        bits
    }
}

/// Bit `b` of a word of zeros is clear.
pub proof fn lemma_zero_word_bit(b: u32)
    requires
        b < 32,
    ensures
        !word_bit(0u32, b),
{
    assert((0u32 >> b) & 1u32 == 0u32) by (bit_vector);
}

/// Assigning `s` to bit `b` by mask sets that bit and keeps the other 31.
proof fn lemma_assign_bit(w: u32, b: u32, s: u32, c: u32)
    requires
        b < 32,
        c < 32,
        s <= 1,
    ensures
        word_bit((w & !(1u32 << b)) | (s << b), c) == if c == b {
            s == 1
        } else {
            word_bit(w, c)
        },
{
    assert(((((w & !(1u32 << b)) | (s << b)) >> c) & 1u32 == 1u32) == if c == b {
        s == 1
    } else {
        (w >> c) & 1u32 == 1u32
    }) by (bit_vector)
        requires
            b < 32,
            c < 32,
            s <= 1,
    ;
}

/// A growable bitset whose capacity is always a whole number of 32-bit words.
/// `SIZE` is the number of words that `new` allocates.
pub struct DynamicBitset<const SIZE: usize> {
    data: Vec<u32>,
}

impl<const SIZE: usize> View for DynamicBitset<SIZE> {
    type V = Seq<bool>;

    /// Every addressable bit, in index order.
    open spec fn view(&self) -> Seq<bool> {
        words_to_bits(self.words())
    }
}

impl<const SIZE: usize> DynamicBitset<SIZE> {
    /// The storage words, first word first.
    pub closed spec fn words(&self) -> Seq<u32> {
        self.data@
    }

    /// The capacity in bits fits in a `usize`.
    pub open spec fn wf(&self) -> bool {
        self.words().len() * 32 <= usize::MAX
    }

    /// Creates a bitset of `SIZE` words with every bit cleared.
    #[must_use]
    pub fn new() -> (r: Self)
        requires
            SIZE * 32 <= usize::MAX,
        ensures
            r.wf(),
            r.words() == Seq::new(SIZE as nat, |i: int| 0u32),
            r@ == zeros((SIZE * 32) as nat),
    {
        let mut data: Vec<u32> = Vec::new();
        let mut k: usize = 0;
        while k < SIZE
            invariant
                k <= SIZE,
                data@ == Seq::new(k as nat, |i: int| 0u32),
            decreases SIZE - k,
        {
            data.push(0);
            k = k + 1;
        }
        let r = DynamicBitset { data };
        proof {
            assert forall|i: int| 0 <= i < r@.len() implies !r@[i] by {
                lemma_zero_word_bit((i % 32) as u32);
            }
            assert(r@ =~= zeros((SIZE * 32) as nat));
        }
        r
    }

    /// Clears every word whose index lies in `min_array_index..max_array_index`.
    pub fn reset_array(&mut self, min_array_index: usize, max_array_index: usize)
        requires
            min_array_index < max_array_index ==> max_array_index <= old(self).words().len(),
        ensures
            final(self).words().len() == old(self).words().len(),
            forall|k: int|
                0 <= k < old(self).words().len() ==> #[trigger] final(self).words()[k] == if min_array_index
                    <= k < max_array_index {
                    0u32
                } else {
                    old(self).words()[k]
                },
    {
        let mut i: usize = min_array_index;
        while i < max_array_index
            invariant
                min_array_index <= i,
                min_array_index < max_array_index ==> i <= max_array_index,
                min_array_index >= max_array_index ==> i == min_array_index,
                min_array_index < max_array_index ==> max_array_index <= old(self).words().len(),
                self.data@.len() == old(self).words().len(),
                forall|k: int|
                    0 <= k < self.data@.len() ==> #[trigger] self.data@[k] == if min_array_index <= k
                        < i {
                        0u32
                    } else {
                        old(self).words()[k]
                    },
            decreases max_array_index - i,
        {
            self.data.set(i, 0);
            i = i + 1;
        }
    }

    /// Whether `inner_index` is a bit offset within a word.
    fn is_valid_inner_index(&self, inner_index: usize) -> (r: bool)
        ensures
            r == (inner_index < 32),
    {
        inner_index <= 31
    }

    /// Whether `array_index` names a word of the bitset.
    fn is_valid_array_index(&self, array_index: usize) -> (r: bool)
        ensures
            r == (array_index < self.words().len()),
    {
        array_index < self.data.len()
    }

    /// The capacity in bits.
    #[must_use]
    pub fn len(&self) -> (r: usize)
        requires
            self.wf(),
        ensures
            r == self@.len(),
    {
        self.data.len() * 32
    }

    /// Whether the capacity is zero.
    #[must_use]
    pub fn is_empty(&self) -> (r: bool)
        requires
            self.wf(),
        ensures
            r == (self@.len() == 0),
    {
        self.len() == 0
    }

    /// The number of storage words.
    #[must_use]
    pub fn data_len(&self) -> (r: usize)
        ensures
            r == self.words().len(),
            r * 32 == self@.len(),
    {
        self.data.len()
    }

    /// Reads bit `inner_index` of word `array_index`.
    fn get_from_array_and_inner_index(&self, array_index: usize, inner_index: usize) -> (r: Result<bool, BitsetError>)
        ensures
            r == if array_index < self.words().len() && inner_index < 32 {
                Ok(word_bit(self.words()[array_index as int], inner_index as u32))
            } else {
                Err(BitsetError::OutOfBounds)
            },
    {
        if !self.is_valid_array_index(array_index) || !self.is_valid_inner_index(inner_index) {
            return Err(BitsetError::OutOfBounds);
        }
        let b = inner_index as u32;
        let w = self.data[array_index];
        proof {
            assert(((w >> b) & 1u32 != 0u32) == ((w >> b) & 1u32 == 1u32)) by (bit_vector);
        }
        Ok((w >> b) & 1u32 != 0)
    }

    /// Reads the bit at `index`; `OutOfBounds` at or beyond the capacity.
    pub fn get(&self, index: usize) -> (r: Result<bool, BitsetError>)
        ensures
            r == read_bit(self@, index as int),
    {
        let quotient = index / 32;
        let remainder = index % 32;
        self.get_from_array_and_inner_index(quotient, remainder)
    }

    /// Assigns `state` to bit `inner_index` of word `array_index` by mask,
    /// leaving the word's other bits and the other words as they were.
    fn set_from_array_and_inner_index(&mut self, array_index: usize, inner_index: usize, state: bool) -> (r: Result<(), BitsetError>)
        ensures
            final(self).words().len() == old(self).words().len(),
            r == if array_index < old(self).words().len() && inner_index < 32 {
                Ok::<(), BitsetError>(())
            } else {
                Err(BitsetError::OutOfBounds)
            },
            r is Err ==> final(self).words() == old(self).words(),
            forall|k: int|
                0 <= k < old(self).words().len() && k != array_index ==> #[trigger] final(self).words()[k]
                    == old(self).words()[k],
            r is Ok ==> forall|c: u32|
                c < 32 ==> #[trigger] word_bit(final(self).words()[array_index as int], c) == if c
                    == inner_index {
                    state
                } else {
                    word_bit(old(self).words()[array_index as int], c)
                },
    {
        if !self.is_valid_array_index(array_index) || !self.is_valid_inner_index(inner_index) {
            return Err(BitsetError::OutOfBounds);
        }
        let b = inner_index as u32;
        let w = self.data[array_index];
        let s: u32 = if state {
            1
        } else {
            0
        };
        let nw = (w & !(1u32 << b)) | (s << b);
        proof {
            assert forall|c: u32| c < 32 implies #[trigger] word_bit(nw, c) == if c == b {
                state
            } else {
                word_bit(w, c)
            } by {
                lemma_assign_bit(w, b, s, c);
            }
        }
        self.data.set(array_index, nw);
        Ok(())
    }

    /// Writes `state` to the bit at `index`; `OutOfBounds` at or beyond the
    /// capacity, and then nothing changes.
    pub fn set(&mut self, index: usize, state: bool) -> (r: Result<(), BitsetError>)
        ensures
            final(self).words().len() == old(self).words().len(),
            r == if index < old(self)@.len() {
                Ok::<(), BitsetError>(())
            } else {
                Err(BitsetError::OutOfBounds)
            },
            final(self)@ == write_bit(old(self)@, index as int, state),
    {
        let quotient = index / 32;
        let remainder = index % 32;
        let r = self.set_from_array_and_inner_index(quotient, remainder, state);
        proof {
            if r is Ok {
                assert forall|i: int| 0 <= i < self@.len() implies #[trigger] self@[i] == old(
                    self,
                )@.update(index as int, state)[i] by {
                    if i / 32 == quotient as int {
                        assert(word_bit(self.words()[quotient as int], (i % 32) as u32) == if (i
                            % 32) as u32 == remainder as u32 {
                            state
                        } else {
                            word_bit(old(self).words()[quotient as int], (i % 32) as u32)
                        });
                    }
                }
                assert(self@ =~= write_bit(old(self)@, index as int, state));
            }
        }
        r
    }

    /// Grows the bitset to `new_len` words, zero-filling the new ones;
    /// `InvalidResize`, with nothing changed, when `new_len` is below the
    /// current word count.
    pub fn resize(&mut self, new_len: usize) -> (r: Result<(), BitsetError>)
        requires
            new_len * 32 <= usize::MAX,
        ensures
            r == if new_len < old(self).words().len() {
                Err(BitsetError::InvalidResize)
            } else {
                Ok::<(), BitsetError>(())
            },
            r is Ok ==> final(self).words().len() == new_len,
            r is Err ==> final(self).words() == old(self).words(),
            final(self)@ == grow_bits(old(self)@, new_len as nat),
            old(self).wf() ==> final(self).wf(),
    {
        if new_len < self.data.len() {
            return Err(BitsetError::InvalidResize);
        }
        let ghost n0 = self.data@.len();
        while self.data.len() < new_len
            invariant
                n0 <= self.data@.len() <= new_len,
                n0 == old(self).words().len(),
                self.data@.subrange(0, n0 as int) == old(self).words(),
                forall|k: int| n0 <= k < self.data@.len() ==> #[trigger] self.data@[k] == 0u32,
            decreases new_len - self.data@.len(),
        {
            self.data.push(0);
            proof {
                assert(self.data@.subrange(0, n0 as int) =~= old(self).words());
            }
        }
        proof {
            assert forall|i: int| 0 <= i < self@.len() implies #[trigger] self@[i] == grow_bits(
                old(self)@,
                new_len as nat,
            )[i] by {
                if i >= n0 * 32 {
                    lemma_zero_word_bit((i % 32) as u32);
                } else {
                    assert(self.data@[i / 32] == self.data@.subrange(0, n0 as int)[i / 32]);
                }
            }
            assert(self@ =~= grow_bits(old(self)@, new_len as nat));
        }
        Ok(())
    }

    /// Appends `value` verbatim as the last word.
    pub fn push(&mut self, value: u32)
        requires
            (old(self).words().len() + 1) * 32 <= usize::MAX,
        ensures
            final(self).words() == old(self).words().push(value),
            final(self)@ == old(self)@ + word_to_bits(value),
            final(self).wf(),
    {
        self.data.push(value);
        proof {
            assert(self@ =~= old(self)@ + word_to_bits(value));
        }
    }

    /// Removes the last word and every bit in it; `InvalidOperation`, with
    /// nothing changed, when the bitset holds no word.
    pub fn pop(&mut self) -> (r: Result<(), BitsetError>)
        ensures
            r == if old(self).words().len() > 0 {
                Ok::<(), BitsetError>(())
            } else {
                Err(BitsetError::InvalidOperation)
            },
            r is Ok ==> final(self).words() == old(self).words().drop_last(),
            r is Err ==> final(self).words() == old(self).words(),
            final(self)@ == drop_last_word(old(self)@),
            old(self).wf() ==> final(self).wf(),
    {
        if self.data.len() == 0 {
            return Err(BitsetError::InvalidOperation);
        }
        self.data.pop();
        proof {
            assert(self.data@ =~= old(self).words().drop_last());
            assert(self@ =~= drop_last_word(old(self)@));
        }
        Ok(())
    }
}

} // verus!
