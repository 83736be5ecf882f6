//! Growable bit sequences, stored in a `bitvec` bit-vector.
//!
//! The code table maps characters to bit sequences, and the encoder and
//! decoder accumulate bit sequences while packing and unpacking bytes. All
//! of them hold their bits in a [`NewBitVec`], a thin wrapper around the
//! `bitvec` crate's `BitVec`. Verus sees the wrapper as opaque: the spec
//! function [`bits_of`] names the bits it holds, first-pushed first, and the
//! trusted methods below state how each `bitvec` call changes them.
//! `NewBitVec@` abbreviates `bits_of`.

use vstd::prelude::*;

verus! {

/// The bits a [`NewBitVec`] holds, first-pushed first.
pub uninterp spec fn bits_of(v: NewBitVec) -> Seq<bool>;

/// A growable sequence of bits backed by the `bitvec` crate.
#[verifier::external_body]
pub struct NewBitVec {
    inner: bitvec::vec::BitVec<u8, bitvec::order::Lsb0>,
}

impl View for NewBitVec {
    type V = Seq<bool>;

    open spec fn view(&self) -> Seq<bool> {
        bits_of(*self)
    }
}

/// Longest bit sequence a `NewBitVec` is asked to hold: `bitvec` aborts
/// when a bit-vector outgrows an eighth of the address space.
pub open spec fn bit_vec_capacity() -> int {
    usize::MAX as int / 8
}

impl NewBitVec {
    /// Relies on `bitvec::vec::BitVec::new`: the new bit-vector is empty.
    #[verifier::external_body]
    pub fn new() -> (r: NewBitVec)
        ensures
            bits_of(r) == Seq::<bool>::empty(),
    {
        NewBitVec { inner: bitvec::vec::BitVec::new() }
    }

    /// Relies on `bitvec::vec::BitVec::len`: the number of bits held.
    #[verifier::external_body]
    pub fn len(&self) -> (r: usize)
        ensures
            r == bits_of(*self).len(),
    {
        self.inner.len()
    }

    /// Relies on `bitvec::vec::BitVec::push`: appends one bit at the end.
    #[verifier::external_body]
    pub fn push(&mut self, bit: bool)
        requires
            old(self)@.len() < bit_vec_capacity(),
        ensures
            bits_of(*final(self)) == bits_of(*old(self)).push(bit),
    {
        self.inner.push(bit);
    }

    /// Relies on `bitvec::vec::BitVec::clear`: removes every bit.
    #[verifier::external_body]
    pub fn clear(&mut self)
        ensures
            bits_of(*final(self)) == Seq::<bool>::empty(),
    {
        self.inner.clear();
    }

    /// Relies on `bitvec` bit-slice indexing: the bit at `index`.
    #[verifier::external_body]
    pub(crate) fn get(&self, index: usize) -> (r: bool)
        requires
            index < self@.len(),
        ensures
            r == bits_of(*self)[index as int],
    {
        self.inner[index]
    }

    /// Relies on `bitvec::vec::BitVec::insert`: shifts the bits at and after
    /// `index` one place up and writes `bit` between them.
    #[verifier::external_body]
    pub(crate) fn insert(&mut self, index: usize, bit: bool)
        requires
            index <= old(self)@.len(),
            old(self)@.len() < bit_vec_capacity(),
        ensures
            bits_of(*final(self)) == bits_of(*old(self)).insert(index as int, bit),
    {
        self.inner.insert(index, bit);
    }

    /// Relies on `bitvec::vec::BitVec::clone`: the copy holds the same bits.
    #[verifier::external_body]
    pub(crate) fn duplicate(&self) -> (r: NewBitVec)
        ensures
            bits_of(r) == bits_of(*self),
    {
        NewBitVec { inner: self.inner.clone() }
    }

    /// Copies the bits out, first-pushed first.
    pub fn to_bools(&self) -> (r: Vec<bool>)
        ensures
            r@ == self@,
    {
        let mut out: Vec<bool> = Vec::new();
        let n = self.len();
        let mut i: usize = 0;
        while i < n
            invariant
                i <= n,
                n == self@.len(),
                out@ == self@.take(i as int),
            decreases n - i,
        {
            out.push(self.get(i));
            proof {
                assert(self@.take(i as int + 1) =~= self@.take(i as int).push(self@[i as int]));
            }
            i = i + 1;
        }
        proof {
            assert(self@.take(n as int) =~= self@);
        }
        out
    }
}

} // verus!
