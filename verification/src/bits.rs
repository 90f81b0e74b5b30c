//! The packed bit array, as the `bit-vec` crate provides it.
//!
//! Verus does not look inside a `BitVec`. What it holds is named by
//! [`bit_values`], and each method that the filter calls is reached through
//! one function of this module, whose contract is taken on trust: it says
//! what the method's source shows, and nothing proves it.
use bit_vec::BitVec;
use vstd::prelude::*;

verus! {

/// `bit_vec::BitVec`, a growable vector of bits packed into machine words.
#[verifier::external_type_specification]
#[verifier::external_body]
#[verifier::reject_recursive_types(B)]
pub struct ExBitVec<B>(BitVec<B>);

/// The bits that a bit vector holds, in index order.
pub uninterp spec fn bit_values(v: BitVec) -> Seq<bool>;

/// Calls `BitVec::from_elem`: the result holds `len` bits, each equal to
/// `bit`.
#[verifier::external_body]
pub(crate) fn filled(len: usize, bit: bool) -> (v: BitVec)
    ensures
        bit_values(v) == Seq::new(len as nat, |i: int| bit),
{
    BitVec::from_elem(len, bit)
}

/// Calls `BitVec::len`: the number of bits held.
#[verifier::external_body]
pub(crate) fn length(v: &BitVec) -> (n: usize)
    ensures
        n == bit_values(*v).len(),
{
    v.len()
}

/// Calls `BitVec::get`: the bit at index `i`, or `None` where `i` is not
/// below the length.
#[verifier::external_body]
pub(crate) fn get(v: &BitVec, i: usize) -> (b: Option<bool>)
    ensures
        b == (if i < bit_values(*v).len() {
            Some(bit_values(*v)[i as int])
        } else {
            None
        }),
{
    v.get(i)
}

/// Calls `BitVec::set`, which panics on an index that is not below the
/// length. On any other index it returns without unwinding: the bit at index
/// `i` has become `x` and every other bit is as it was.
#[verifier::external_body]
pub(crate) fn set(v: &mut BitVec, i: usize, x: bool)
    requires
        i < bit_values(*old(v)).len(),
    ensures
        bit_values(*final(v)) == bit_values(*old(v)).update(i as int, x),
    no_unwind
{
    v.set(i, x)
}

/// Calls `BitVec::clear`, which returns without unwinding: every bit has
/// become `false` and the length is as it was.
#[allow(deprecated)]
#[verifier::external_body]
pub(crate) fn clear(v: &mut BitVec)
    ensures
        bit_values(*final(v)) == Seq::new(bit_values(*old(v)).len(), |i: int| false),
    no_unwind
{
    v.clear()
}

} // verus!
