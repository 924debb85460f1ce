//! The fixed-capacity byte buffer the encoders fill: an `arrayvec::ArrayVec`
//! sized to the longest possible encoding, so that encoding never allocates.

use vstd::prelude::*;

verus! {

/// Capacity that holds the LEB128 encoding of any supported width: the
/// byte bound of a 128-bit integer.
pub const MAX_ENCODED_SIZE: usize = 19;

#[verifier::external_type_specification]
#[verifier::external_body]
#[verifier::reject_recursive_types(T)]
pub struct ExArrayVec<T, const CAP: usize>(arrayvec::ArrayVec<T, CAP>);

/// The bytes an encode buffer holds, in order.
pub uninterp spec fn stored_bytes(v: arrayvec::ArrayVec<u8, MAX_ENCODED_SIZE>) -> Seq<u8>;

/// Relies on arrayvec::ArrayVec::new: a freshly made vector holds nothing.
#[verifier::external_body]
pub(crate) fn buf_new() -> (r: arrayvec::ArrayVec<u8, MAX_ENCODED_SIZE>)
    ensures
        stored_bytes(r) == Seq::<u8>::empty(),
{
    arrayvec::ArrayVec::new()
}

/// Relies on arrayvec::ArrayVec::push: appends one element at the back.
/// `push` panics on a full vector, so a free slot is required here.
#[verifier::external_body]
pub(crate) fn buf_push(v: &mut arrayvec::ArrayVec<u8, MAX_ENCODED_SIZE>, b: u8)
    requires
        stored_bytes(*old(v)).len() < MAX_ENCODED_SIZE,
    ensures
        stored_bytes(*final(v)) == stored_bytes(*old(v)).push(b),
{
    v.push(b)
}

} // verus!
