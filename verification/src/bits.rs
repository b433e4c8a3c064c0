//! The set of visited nodes of a traversal, kept in a `bitvec` bit vector.

use vstd::prelude::*;
use bitvec::order::Lsb0;
use bitvec::vec::BitVec;

verus! {

/// A vector of bits of fixed length, stored by the `bitvec` crate.
///
/// The verifier does not look inside: what it knows of the bits is what
/// the functions below state in terms of [`bit_values`].
#[verifier::external_body]
pub struct BitVector {
    bits: BitVec<usize, Lsb0>,
}

/// The bits that a vector holds, by position.
pub uninterp spec fn bit_values(v: BitVector) -> Seq<bool>;

/// Largest number of bits that a vector can hold.
pub const MAX_BITS: usize = usize::MAX / 8;

impl BitVector {
    /// The bits of the vector, by position.
    pub open spec fn view(&self) -> Seq<bool> {
        bit_values(*self)
    }

    /// Positions of the bits that are set.
    pub open spec fn members(&self) -> Set<int> {
        Set::new(|i: int| 0 <= i < self@.len() && self@[i])
    }

    /// Calls `BitVec::repeat(false, num_bits)`: a vector of `num_bits`
    /// bits, all clear. The crate panics above [`MAX_BITS`] bits, which the
    /// precondition rules out; that the result has exactly `num_bits`
    /// clear bits is taken on trust.
    #[verifier::external_body]
    pub(crate) fn cleared(num_bits: usize) -> (v: BitVector)
        requires
            num_bits <= MAX_BITS,
        ensures
            bit_values(v) == Seq::new(num_bits as nat, |i: int| false),
    {
        BitVector { bits: BitVec::repeat(false, num_bits) }
    }

    /// Calls `BitSlice::replace(bit, value)`: writes `value` at position
    /// `bit` and returns the bit that stood there. The crate panics when
    /// `bit` is not below the length, which the precondition rules out;
    /// that only this position changes is taken on trust.
    #[verifier::external_body]
    pub(crate) fn replace(&mut self, bit: usize, value: bool) -> (prior: bool)
        requires
            bit < bit_values(*old(self)).len(),
        ensures
            prior == bit_values(*old(self))[bit as int],
            bit_values(*final(self)) == bit_values(*old(self)).update(bit as int, value),
    {
        self.bits.replace(bit, value)
    }

    /// Reads position `bit` with `BitVec`'s `Index<usize>`, which looks the
    /// bit up in the underlying `BitSlice`. The crate panics when `bit` is
    /// not below the length, which the precondition rules out.
    #[verifier::external_body]
    pub(crate) fn contains(&self, bit: usize) -> (set: bool)
        requires
            bit < bit_values(*self).len(),
        ensures
            set == bit_values(*self)[bit as int],
    {
        self.bits[bit]
    }

    /// Sets position `bit`. Returns true if the bit has changed.
    pub(crate) fn insert(&mut self, bit: usize) -> (changed: bool)
        requires
            bit < old(self)@.len(),
        ensures
            changed == !old(self)@[bit as int],
            final(self)@ == old(self)@.update(bit as int, true),
            final(self).members() == old(self).members().insert(bit as int),
    {
        let prior = self.replace(bit, true);
        assert(self.members() =~= old(self).members().insert(bit as int));
        !prior
    }
}

} // verus!
