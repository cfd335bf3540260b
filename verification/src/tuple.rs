//! The homogeneous-coordinate typing discipline.
//!
//! Points and vectors are both 4-tuples; the `w` component tells them
//! apart: `w == 1` for a point, `w == 0` for a vector, anything else is
//! untyped.  Arithmetic on tuples adds or subtracts `w` along with the
//! other components, so the classification of a sum or difference
//! follows from the `w` arithmetic alone, and that rule is proved here.

use vstd::prelude::*;

verus! {

/// What a 4-tuple's `w` component says it is.
#[derive(Clone, Copy, Debug, PartialEq, Eq, Structural)]
pub enum TupleType {
    Vector,
    Point,
    Untyped,
}

/// The classification a `w` component carries.
pub open spec fn kind_of(w: int) -> TupleType {
    if w == 0 {
        TupleType::Vector
    } else if w == 1 {
        TupleType::Point
    } else {
        TupleType::Untyped
    }
}

/// Classify a `w` component.
pub fn tuple_type_of(w: i64) -> (t: TupleType)
    ensures
        t == kind_of(w as int),
{
    if w == 0 {
        TupleType::Vector
    } else if w == 1 {
        TupleType::Point
    } else {
        TupleType::Untyped
    }
}

/// The tuple algebra of points and vectors: a point moved by the
/// difference of two points is a point, the sum of two vectors is a
/// vector, and the difference of two points is a vector.  Stated over
/// the `w` components, which add and subtract along with the tuples.
pub proof fn lemma_point_vector_algebra(pw: int, qw: int, rw: int, vw: int, uw: int)
    requires
        kind_of(pw) == TupleType::Point,
        kind_of(qw) == TupleType::Point,
        kind_of(rw) == TupleType::Point,
        kind_of(vw) == TupleType::Vector,
        kind_of(uw) == TupleType::Vector,
    ensures
        kind_of(pw + (qw - rw)) == TupleType::Point,
        kind_of(vw + uw) == TupleType::Vector,
        kind_of(qw - rw) == TupleType::Vector,
        kind_of(pw + vw) == TupleType::Point,
        kind_of(pw - vw) == TupleType::Point,
        kind_of(vw - uw) == TupleType::Vector,
{
}

} // verus!

