use vstd::prelude::*;

verus! {

/// Fixed-length array of boolean slots backing a filter's membership mask.
/// Holds bitvec's bit vector, whose contents `bits_of` describes.
#[verifier::external_body]
pub struct Mask {
    slots: bitvec::vec::BitVec,
}

/// The ordered sequence of boolean slots a mask holds.
pub uninterp spec fn bits_of(m: Mask) -> Seq<bool>;

/// A sequence of `n` cleared slots.
pub open spec fn all_false(n: nat) -> Seq<bool> {
    Seq::new(n, |i: int| false)
}

/// Relies on bitvec's BitVec::repeat: a vector of `len` bits, every one
/// equal to the given bit.
#[verifier::external_body]
pub(crate) fn mask_new(len: usize) -> (r: Mask)
    ensures
        bits_of(r) == all_false(len as nat),
{
    Mask { slots: bitvec::vec::BitVec::repeat(false, len) }
}

/// Relies on bitvec's BitSlice::len: the number of bits held.
#[verifier::external_body]
pub(crate) fn mask_len(m: &Mask) -> (r: usize)
    ensures
        r == bits_of(*m).len(),
{
    m.slots.len()
}

/// Relies on bitvec's BitSlice indexing: the bit at position `i`, which
/// must be in bounds.
#[verifier::external_body]
pub(crate) fn mask_get(m: &Mask, i: usize) -> (r: bool)
    requires
        i < bits_of(*m).len(),
    ensures
        r == bits_of(*m)[i as int],
{
    m.slots[i]
}

/// Relies on bitvec's BitSlice::set: stores `b` at the in-bounds position
/// `i` and moves no other bit.
#[verifier::external_body]
pub(crate) fn mask_set(m: &mut Mask, i: usize, b: bool)
    requires
        i < bits_of(*old(m)).len(),
    ensures
        bits_of(*final(m)) == bits_of(*old(m)).update(i as int, b),
{
    m.slots.set(i, b);
}

} // verus!
