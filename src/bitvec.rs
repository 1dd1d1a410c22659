use fid::FID;
use vstd::prelude::*;

use crate::keep::keep;

verus! {

#[verifier::external_type_specification]
#[verifier::external_body]
pub struct ExBitVector(fid::BitVector);

/// The bits held by a `fid::BitVector`, first pushed first.
pub uninterp spec fn bits_of(bv: fid::BitVector) -> Seq<bool>;

/// Bits equal to `b`.
pub open spec fn is_bit(b: bool) -> spec_fn(bool) -> bool {
    |x: bool| x == b
}

/// The number of bits equal to `b` among the first `i` bits of `bits`.
pub open spec fn rank_in(bits: Seq<bool>, b: bool, i: int) -> nat {
    keep(bits.subrange(0, i), is_bit(b)).len()
}

/// Relies on fid::BitVector::new: a vector that holds no bits.
#[verifier::external_body]
pub(crate) fn bv_new() -> (r: fid::BitVector)
    ensures
        bits_of(r) == Seq::<bool>::empty(),
{
    fid::BitVector::new()
}

/// Relies on fid::BitVector::push: appends one bit at the end.
#[verifier::external_body]
pub(crate) fn bv_push(bv: &mut fid::BitVector, b: bool)
    requires
        bits_of(*old(bv)).len() < u64::MAX,
    ensures
        bits_of(*final(bv)) == bits_of(*old(bv)).push(b),
{
    bv.push(b)
}

/// Relies on fid::FID::get for BitVector: the bit at position `i`.
#[verifier::external_body]
pub(crate) fn bv_get(bv: &fid::BitVector, i: u64) -> (r: bool)
    requires
        i < bits_of(*bv).len(),
    ensures
        r == bits_of(*bv)[i as int],
{
    bv.get(i)
}

/// Relies on fid::FID::rank for BitVector: the number of bits equal to `b`
/// in `[0, i)`.
#[verifier::external_body]
pub(crate) fn bv_rank(bv: &fid::BitVector, b: bool, i: u64) -> (r: u64)
    requires
        i <= bits_of(*bv).len(),
    ensures
        r == rank_in(bits_of(*bv), b, i as int),
{
    bv.rank(b, i)
}

/// Relies on fid::FID::select0 for BitVector: the position of the
/// `(r + 1)`-th zero.
#[verifier::external_body]
pub(crate) fn bv_select0(bv: &fid::BitVector, r: u64) -> (p: u64)
    requires
        r < rank_in(bits_of(*bv), false, bits_of(*bv).len() as int),
    ensures
        p < bits_of(*bv).len(),
        bits_of(*bv)[p as int] == false,
        rank_in(bits_of(*bv), false, p as int) == r,
{
    bv.select0(r)
}

/// Relies on fid::FID::select1 for BitVector: the position of the
/// `(r + 1)`-th one.
#[verifier::external_body]
pub(crate) fn bv_select1(bv: &fid::BitVector, r: u64) -> (p: u64)
    requires
        r < rank_in(bits_of(*bv), true, bits_of(*bv).len() as int),
    ensures
        p < bits_of(*bv).len(),
        bits_of(*bv)[p as int] == true,
        rank_in(bits_of(*bv), true, p as int) == r,
{
    bv.select1(r)
}

} // verus!
