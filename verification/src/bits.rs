//! The bit storage: a fixed-length vector of boolean flags held in
//! bit_vec's `BitVec`, modelled in specifications as the `Seq<bool>` of
//! its bits.

use vstd::prelude::*;

verus! {

#[verifier::external_type_specification]
#[verifier::external_body]
#[verifier::reject_recursive_types(B)]
pub struct ExBitVec<B>(bit_vec::BitVec<B>);

/// The bits that a `BitVec` holds, in index order.
pub uninterp spec fn bits_of(bv: bit_vec::BitVec<u32>) -> Seq<bool>;

/// Relies on `BitVec::from_elem(len, false)`: it builds a vector of
/// exactly `len` bits, each equal to the given element, here `false`.
#[verifier::external_body]
pub(crate) fn bv_all_false(len: usize) -> (bv: bit_vec::BitVec<u32>)
    ensures
        bits_of(bv).len() == len,
        forall|j: int| 0 <= j < len ==> !bits_of(bv)[j],
{
    bit_vec::BitVec::from_elem(len, false)
}

/// Relies on `BitVec::set(i, true)`: it stores the given value at index
/// `i` and touches no other bit; it panics only when `i` is out of
/// bounds, which the precondition rules out.
#[verifier::external_body]
pub(crate) fn bv_set_true(bv: &mut bit_vec::BitVec<u32>, i: usize)
    requires
        i < bits_of(*old(bv)).len(),
    ensures
        bits_of(*final(bv)) == bits_of(*old(bv)).update(i as int, true),
{
    bv.set(i, true);
}

/// Relies on `BitVec::get(i)`: it returns `Some` of the bit at index `i`
/// whenever `i` is in bounds, which the precondition guarantees.
#[verifier::external_body]
pub(crate) fn bv_get(bv: &bit_vec::BitVec<u32>, i: usize) -> (b: bool)
    requires
        i < bits_of(*bv).len(),
    ensures
        b == bits_of(*bv)[i as int],
{
    bv.get(i).unwrap()
}

/// Relies on `BitVec::fill(false)`: it assigns every bit of the vector to
/// the given value, here `false`, and leaves the length unchanged.
#[verifier::external_body]
pub(crate) fn bv_fill_false(bv: &mut bit_vec::BitVec<u32>)
    ensures
        bits_of(*final(bv)).len() == bits_of(*old(bv)).len(),
        forall|j: int| 0 <= j < bits_of(*old(bv)).len() ==> !bits_of(*final(bv))[j],
{
    bv.fill(false);
}

} // verus!
