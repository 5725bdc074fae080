use vstd::prelude::*;

verus! {

/// Owns the filter's backing bit array: bitvec's `BitVec` with its default
/// `usize` store and `Lsb0` ordering. The struct is opaque to the verifier;
/// `bit_seq` names the bits it holds, and the functions below state what each
/// bitvec call does to them.
#[verifier::external_body]
pub struct BitArray {
    bits: bitvec::vec::BitVec<usize, bitvec::order::Lsb0>,
}

/// The bits a `BitArray` holds, as a mathematical sequence indexed from bit 0.
pub uninterp spec fn bit_seq(v: BitArray) -> Seq<bool>;

/// Relies on bitvec's `BitVec::repeat`: a fresh vector of `len` copies of the
/// given bit, here all zero.
#[verifier::external_body]
pub(crate) fn bv_zeroed(len: usize) -> (r: BitArray)
    ensures
        bit_seq(r) == Seq::new(len as nat, |j: int| false),
{
    BitArray { bits: bitvec::vec::BitVec::repeat(false, len) }
}

/// Relies on bitvec's `Index<usize>` on bit-slices: reads the bit at `i`.
#[verifier::external_body]
pub(crate) fn bv_get(v: &BitArray, i: usize) -> (r: bool)
    requires
        i < bit_seq(*v).len(),
    ensures
        r == bit_seq(*v)[i as int],
{
    v.bits[i]
}

/// Relies on bitvec's `BitSlice::set`: writes one bit in place, leaving every
/// other bit as it was.
#[verifier::external_body]
pub(crate) fn bv_set(v: &mut BitArray, i: usize)
    requires
        i < bit_seq(*old(v)).len(),
    ensures
        bit_seq(*final(v)) == bit_seq(*old(v)).update(i as int, true),
{
    v.bits.set(i, true);
}

/// Relies on bitvec's `BitSlice::fill` on the sub-slice `start..end`: sets
/// every bit of that range, here to zero, and no other.
#[verifier::external_body]
pub(crate) fn bv_clear_range(v: &mut BitArray, start: usize, end: usize)
    requires
        start <= end <= bit_seq(*old(v)).len(),
    ensures
        bit_seq(*final(v)) == Seq::new(
            bit_seq(*old(v)).len(),
            |j: int| if start <= j < end { false } else { bit_seq(*old(v))[j] },
        ),
{
    v.bits[start..end].fill(false);
}

} // verus!
