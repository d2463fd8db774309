//! The trusted boundary.
//!
//! Nothing in this module is proved. Each function below is a thin call into
//! `bit_vec::BitVec`, and its contract records what the crate's source does to
//! the bits that the vector holds. The last one is a call of `String::push`,
//! which the verifier's library leaves without a contract.

use bit_vec::BitVec;
use vstd::prelude::*;

verus! {

/// `bit_vec::BitVec`, opaque to the verifier.
#[verifier::external_type_specification]
#[verifier::external_body]
#[verifier::reject_recursive_types(B)]
pub struct ExBitVec<B>(BitVec<B>);

/// The bits that a vector holds, lowest index first.
pub uninterp spec fn bits(v: BitVec) -> Seq<bool>;

/// `BitVec::from_elem`: a vector of `len` bits, every one equal to `bit`.
#[verifier::external_body]
pub(crate) fn bits_from_elem(len: usize, bit: bool) -> (v: BitVec)
    ensures
        bits(v) == Seq::new(len as nat, |i: int| bit),
{
    BitVec::from_elem(len, bit)
}

/// `BitVec::set`: bit `i` becomes `x`, the others stay. The crate panics on an
/// index out of bounds, so the index must be in range.
#[verifier::external_body]
pub(crate) fn bits_set(v: &mut BitVec, i: usize, x: bool)
    requires
        i < bits(*old(v)).len(),
    ensures
        bits(*final(v)) == bits(*old(v)).update(i as int, x),
{
    v.set(i, x)
}

/// `BitVec::negate`: every bit is flipped.
#[verifier::external_body]
pub(crate) fn bits_negate(v: &mut BitVec)
    ensures
        bits(*final(v)) == Seq::new(bits(*old(v)).len(), |i: int| !bits(*old(v))[i]),
{
    v.negate()
}

/// `BitVec::or`: each bit becomes its disjunction with the bit of `other` at
/// the same index; the result says whether any bit changed. The crate panics
/// on vectors of different lengths.
#[verifier::external_body]
pub(crate) fn bits_or(v: &mut BitVec, other: &BitVec) -> (changed: bool)
    requires
        bits(*old(v)).len() == bits(*other).len(),
    ensures
        bits(*final(v)) == Seq::new(
            bits(*old(v)).len(),
            |i: int| bits(*old(v))[i] || bits(*other)[i],
        ),
        changed == (bits(*final(v)) != bits(*old(v))),
{
    v.or(other)
}

/// `BitVec::difference`: each bit stays set only where the bit of `other` at
/// the same index is clear; the result says whether any bit changed. The crate
/// panics on vectors of different lengths.
#[verifier::external_body]
pub(crate) fn bits_difference(v: &mut BitVec, other: &BitVec) -> (changed: bool)
    requires
        bits(*old(v)).len() == bits(*other).len(),
    ensures
        bits(*final(v)) == Seq::new(
            bits(*old(v)).len(),
            |i: int| bits(*old(v))[i] && !bits(*other)[i],
        ),
        changed == (bits(*final(v)) != bits(*old(v))),
{
    v.difference(other)
}

/// `BitVec::fill`: every bit becomes `bit`, the length stays.
#[verifier::external_body]
pub(crate) fn bits_fill(v: &mut BitVec, bit: bool)
    ensures
        bits(*final(v)) == Seq::new(bits(*old(v)).len(), |i: int| bit),
{
    v.fill(bit)
}

/// `BitVec::none`: whether no bit is set.
#[verifier::external_body]
pub(crate) fn bits_none(v: &BitVec) -> (r: bool)
    ensures
        r == (forall|i: int| 0 <= i < bits(*v).len() ==> !bits(*v)[i]),
{
    v.none()
}

/// `BitVec::iter`: the bits in order, collected into a vector.
#[verifier::external_body]
pub(crate) fn bits_iter(v: &BitVec) -> (r: Vec<bool>)
    ensures
        r@ == bits(*v),
{
    v.iter().collect()
}

/// `BitVec::clone`: a vector that holds the same bits.
#[verifier::external_body]
pub(crate) fn bits_clone(v: &BitVec) -> (r: BitVec)
    ensures
        bits(r) == bits(*v),
{
    v.clone()
}

/// `String::push`: the character is appended.
#[verifier::external_body]
pub(crate) fn push_char(s: &mut String, c: char)
    ensures
        final(s)@ == old(s)@.push(c),
{
    s.push(c)
}

} // verus!
