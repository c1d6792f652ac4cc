//! Bounded inline vectors from the `arrayvec` crate, as the move generator and
//! the change records use them: a list of up to 10 candidate steps per piece,
//! and a list of up to 6 reversible edits per applied move.
//!
//! Verus does not read `arrayvec`, so the two instantiations are declared
//! here, the contents of each is given a name, and every method the core
//! calls is wrapped with the contract that the crate's source shows.

use vstd::prelude::*;
use crate::Pos;
use crate::board::Undo;

verus! {

#[verifier::external_type_specification]
#[verifier::external_body]
#[verifier::reject_recursive_types(T)]
pub struct ExArrayVec<T, const CAP: usize>(arrayvec::ArrayVec<T, CAP>);

/// The elements a step list holds, first pushed first.
pub uninterp spec fn pos_av_seq(v: arrayvec::ArrayVec<Pos, 10>) -> Seq<Pos>;

/// The elements a change record holds, first pushed first.
pub uninterp spec fn undo_av_seq(v: arrayvec::ArrayVec<Undo, 6>) -> Seq<Undo>;

/// Relies on arrayvec::ArrayVec::new: an empty vector.
#[verifier::external_body]
pub(crate) fn pos_av_new() -> (r: arrayvec::ArrayVec<Pos, 10>)
    ensures
        pos_av_seq(r) == Seq::<Pos>::empty(),
{
    arrayvec::ArrayVec::new()
}

/// Relies on arrayvec::ArrayVec::push: appends the element at the end; panics
/// only when the vector is full, which the precondition rules out.
#[verifier::external_body]
pub(crate) fn pos_av_push(v: &mut arrayvec::ArrayVec<Pos, 10>, p: Pos)
    requires
        pos_av_seq(*old(v)).len() < 10,
    ensures
        pos_av_seq(*final(v)) == pos_av_seq(*old(v)).push(p),
{
    v.push(p)
}

/// Relies on arrayvec::ArrayVec::len: the number of elements held, at most
/// the capacity.
#[verifier::external_body]
pub(crate) fn pos_av_len(v: &arrayvec::ArrayVec<Pos, 10>) -> (r: usize)
    ensures
        r == pos_av_seq(*v).len(),
        r <= 10,
{
    v.len()
}

/// Relies on the slice the vector dereferences to: element `i` of the
/// contents.
#[verifier::external_body]
pub(crate) fn pos_av_get(v: &arrayvec::ArrayVec<Pos, 10>, i: usize) -> (r: Pos)
    requires
        i < pos_av_seq(*v).len(),
    ensures
        r == pos_av_seq(*v)[i as int],
{
    v[i]
}

/// Relies on arrayvec::ArrayVec::new: an empty vector.
#[verifier::external_body]
pub(crate) fn undo_av_new() -> (r: arrayvec::ArrayVec<Undo, 6>)
    ensures
        undo_av_seq(r) == Seq::<Undo>::empty(),
{
    arrayvec::ArrayVec::new()
}

/// Relies on arrayvec::ArrayVec::push: appends the element at the end; panics
/// only when the vector is full, which the precondition rules out.
#[verifier::external_body]
pub(crate) fn undo_av_push(v: &mut arrayvec::ArrayVec<Undo, 6>, u: Undo)
    requires
        undo_av_seq(*old(v)).len() < 6,
    ensures
        undo_av_seq(*final(v)) == undo_av_seq(*old(v)).push(u),
{
    v.push(u)
}

/// Relies on arrayvec::ArrayVec::len: the number of elements held, at most
/// the capacity.
#[verifier::external_body]
pub(crate) fn undo_av_len(v: &arrayvec::ArrayVec<Undo, 6>) -> (r: usize)
    ensures
        r == undo_av_seq(*v).len(),
        r <= 6,
{
    v.len()
}

/// Relies on the slice the vector dereferences to: element `i` of the
/// contents, copied out.
#[verifier::external_body]
pub(crate) fn undo_av_get(v: &arrayvec::ArrayVec<Undo, 6>, i: usize) -> (r: Undo)
    requires
        i < undo_av_seq(*v).len(),
    ensures
        r == undo_av_seq(*v)[i as int],
{
    v[i]
}

} // verus!
