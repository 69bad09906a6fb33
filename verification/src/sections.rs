//! The packet ranges of a request, in the fixed-size vector of the `arrayvec` crate.
use std::ops::Range;

use arrayvec::ArrayVec;
use vstd::prelude::*;

use crate::packet::IndexInPhase;

verus! {

/// The most packet ranges that one request holds.
pub const MAX_SECTIONS_PER_REQUEST: usize = 5;

/// The packet ranges of one request.
pub type Sections = ArrayVec<Range<IndexInPhase>, MAX_SECTIONS_PER_REQUEST>;

/// `arrayvec::ArrayVec`, a vector that never grows past its capacity.
#[verifier::external_type_specification]
#[verifier::external_body]
#[verifier::reject_recursive_types(T)]
pub struct ExArrayVec<T, const CAP: usize>(ArrayVec<T, CAP>);

/// The packet ranges that a `Sections` holds, each as its start and its end.
pub uninterp spec fn sections_of(sections: Sections) -> Seq<(u64, u64)>;

/// `ArrayVec::new` is empty.
#[verifier::external_body]
pub(crate) fn new() -> (r: Sections)
    ensures
        sections_of(r) == Seq::<(u64, u64)>::empty(),
{
    ArrayVec::new()
}

/// `ArrayVec::len` counts the elements, of which there are never more than the capacity.
#[verifier::external_body]
pub(crate) fn len(sections: &Sections) -> (r: usize)
    ensures
        r == sections_of(*sections).len(),
        r <= MAX_SECTIONS_PER_REQUEST,
{
    sections.len()
}

/// `ArrayVec::try_push` appends the element, unless the vector is full: then it fails and changes
/// nothing. The result says whether the element was appended.
#[verifier::external_body]
pub(crate) fn try_push(sections: &mut Sections, section: Range<IndexInPhase>) -> (r: bool)
    ensures
        r == (sections_of(*old(sections)).len() < MAX_SECTIONS_PER_REQUEST),
        r ==> sections_of(*final(sections)) == sections_of(*old(sections)).push(
            (section.start.0, section.end.0),
        ),
        !r ==> sections_of(*final(sections)) == sections_of(*old(sections)),
{
    sections.try_push(section).is_ok()
}

/// Indexing, through `ArrayVec`'s slice, gives the element at a place; it panics past the end.
#[verifier::external_body]
pub(crate) fn get(sections: &Sections, i: usize) -> (r: Range<IndexInPhase>)
    requires
        i < sections_of(*sections).len(),
    ensures
        (r.start.0, r.end.0) == sections_of(*sections)[i as int],
{
    sections[i].clone()
}

} // verus!
