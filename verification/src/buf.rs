//! A small fixed-capacity buffer for the elements an edit is about to
//! splice in, backed by `arrayvec::ArrayVec`. The editing policies never
//! need more than four elements at once.

use crate::tree::Element;
use vstd::prelude::*;

verus! {

#[verifier::external_type_specification]
#[verifier::external_body]
#[verifier::reject_recursive_types(T)]
pub struct ExArrayVec<T, const CAP: usize>(arrayvec::ArrayVec<T, CAP>);

/// The elements currently held by the buffer, in order.
pub uninterp spec fn av_elems(v: arrayvec::ArrayVec<Element, 4>) -> Seq<Element>;

/// Relies on `arrayvec::ArrayVec::new`: a fresh vector is empty.
#[verifier::external_body]
pub fn av_new() -> (r: arrayvec::ArrayVec<Element, 4>)
    ensures
        av_elems(r) == Seq::<Element>::empty(),
{
    arrayvec::ArrayVec::new()
}

/// Relies on `arrayvec::ArrayVec::push`: appends the element at the back;
/// it panics only when the vector is full, which the bound rules out.
#[verifier::external_body]
pub fn av_push(v: &mut arrayvec::ArrayVec<Element, 4>, e: Element)
    requires
        av_elems(*old(v)).len() < 4,
    ensures
        av_elems(*final(v)) == av_elems(*old(v)).push(e),
{
    v.push(e)
}

/// Relies on `arrayvec::ArrayVec::insert`: shifts the elements at and after
/// the index back by one and writes the element at the index; it panics only
/// past the length or when full, which the bounds rule out.
#[verifier::external_body]
pub fn av_insert(v: &mut arrayvec::ArrayVec<Element, 4>, index: usize, e: Element)
    requires
        av_elems(*old(v)).len() < 4,
        index <= av_elems(*old(v)).len(),
    ensures
        av_elems(*final(v)) == av_elems(*old(v)).insert(index as int, e),
{
    v.insert(index, e)
}

/// Relies on `arrayvec::ArrayVec::into_iter`: it yields the elements in
/// order, so collecting them gives back exactly the buffer's contents.
#[verifier::external_body]
pub fn av_into_vec(v: arrayvec::ArrayVec<Element, 4>) -> (r: Vec<Element>)
    ensures
        r@ == av_elems(v),
{
    v.into_iter().collect()
}

} // verus!
