//! A bit buffer backed by `bit_vec::BitVec`.
//!
//! The decoded body of a packed trie is held in a `BitVec`, one bit per
//! position.  Verus sees the buffer through the abstract contents function
//! [`bv_bits`] and a few small wrappers around the `bit_vec` methods the
//! engine uses.

use vstd::prelude::*;

verus! {

#[verifier::external_type_specification]
#[verifier::external_body]
#[verifier::reject_recursive_types(B)]
pub struct ExBitVec<B>(bit_vec::BitVec<B>);

/// The sequence of bits held by a buffer, in index order.
pub uninterp spec fn bv_bits(v: bit_vec::BitVec) -> Seq<bool>;

/// Relies on bit_vec::BitVec::from_elem: a buffer of `len` copies of the
/// given element; here always `false`.
#[verifier::external_body]
pub fn bv_new(len: usize) -> (r: bit_vec::BitVec)
    ensures
        bv_bits(r) == Seq::new(len as nat, |i: int| false),
{
    bit_vec::BitVec::from_elem(len, false)
}

/// Relies on bit_vec::BitVec::len: the number of bits in the buffer.
#[verifier::external_body]
pub fn bv_len(v: &bit_vec::BitVec) -> (r: usize)
    ensures
        r == bv_bits(*v).len(),
{
    v.len()
}

/// Relies on bit_vec::BitVec::set: stores a bit at index `i`; it panics when
/// `i` is out of bounds, so that case is excluded here.
#[verifier::external_body]
pub fn bv_set(v: &mut bit_vec::BitVec, i: usize, x: bool)
    requires
        i < bv_bits(*old(v)).len(),
    ensures
        bv_bits(*final(v)) == bv_bits(*old(v)).update(i as int, x),
{
    v.set(i, x)
}

/// Relies on bit_vec::BitVec::get: the bit at index `i`, or `None` when `i`
/// is out of bounds.
#[verifier::external_body]
pub fn bv_get(v: &bit_vec::BitVec, i: usize) -> (r: Option<bool>)
    ensures
        r == (if i < bv_bits(*v).len() {
            Some(bv_bits(*v)[i as int])
        } else {
            None::<bool>
        }),
{
    v.get(i)
}

} // verus!
