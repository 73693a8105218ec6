//! The bitset storage, held in a `bitvec::vec::BitVec` of 64-bit words in
//! least-significant-bit-first order.

use bitvec::order::Lsb0;
use bitvec::vec::BitVec;
use vstd::prelude::*;

verus! {

/// Whether bit `j` (0 = least significant) of `w` is set.
pub open spec fn word_bit(w: u64, j: int) -> bool {
    (w >> (j as u64)) & 1u64 == 1u64
}

/// The number of 64-bit words that hold `n` bits.
pub open spec fn words_for(n: nat) -> nat {
    (n + 63) / 64
}

/// The first `n` bits of a little-endian stream of 64-bit words.
pub open spec fn unpack(words: Seq<u64>, n: nat) -> Seq<bool> {
    Seq::new(n, |i: int| word_bit(words[i / 64], i % 64))
}

/// Whether `words` holds exactly the bits of `bits`, packed 64 to a word.
pub open spec fn packs(words: Seq<u64>, bits: Seq<bool>) -> bool {
    &&& words.len() == words_for(bits.len())
    &&& forall|i: int| 0 <= i < bits.len() ==> word_bit(#[trigger] words[i / 64], i % 64) == bits[i]
}

/// A fixed-length array of bits. The `BitVec` is held in a field that Verus
/// does not see, since its type's bounds are traits of `bitvec`.
#[verifier::external_body]
pub struct Bits {
    inner: BitVec<u64, Lsb0>,
}

/// The bits that a `Bits` holds, index 0 first.
pub uninterp spec fn bits_of(b: Bits) -> Seq<bool>;

impl View for Bits {
    type V = Seq<bool>;

    open spec fn view(&self) -> Seq<bool> {
        bits_of(*self)
    }
}

impl Bits {
    /// Relies on `BitVec::repeat(false, len)`: `len` cleared bits. It panics
    /// for lengths that a bit-span cannot encode (above `usize::MAX >> 3`).
    #[verifier::external_body]
    pub fn zeroed(len: usize) -> (r: Bits)
        requires
            len <= usize::MAX / 8,
        ensures
            bits_of(r) == Seq::new(len as nat, |i: int| false),
    {
        Bits { inner: BitVec::repeat(false, len) }
    }

    /// Relies on `BitVec::len`: the number of bits held.
    #[verifier::external_body]
    pub fn len(&self) -> (r: usize)
        ensures
            r == bits_of(*self).len(),
    {
        self.inner.len()
    }

    /// Relies on indexing a `BitSlice`: the bit at `index`; it panics out of
    /// bounds.
    #[verifier::external_body]
    pub fn get(&self, index: usize) -> (r: bool)
        requires
            index < self@.len(),
        ensures
            r == bits_of(*self)[index as int],
    {
        self.inner[index]
    }

    /// Relies on `BitSlice::set`: writes one bit; it panics out of bounds.
    #[verifier::external_body]
    pub fn set(&mut self, index: usize, value: bool)
        requires
            index < old(self)@.len(),
        ensures
            bits_of(*final(self)) == bits_of(*old(self)).update(index as int, value),
    {
        self.inner.set(index, value)
    }

    /// Relies on `BitVec::as_raw_slice`: the storage words, bit `i` at
    /// position `i % 64` of word `i / 64`. Every `Bits` starts at the first
    /// bit of its first word, so the words are exactly those that hold bits.
    #[verifier::external_body]
    pub fn words(&self) -> (r: Vec<u64>)
        ensures
            packs(r@, bits_of(*self)),
    {
        self.inner.as_raw_slice().to_vec()
    }
}

} // verus!
