//! Shape primitives.
//!
//! The cube is the axis-aligned unit cube: every face lies at distance
//! one from the origin along its axis.  It is a parameter-free shape,
//! so its record carries no state; the slab intersection arithmetic
//! lives with the renderer.

use vstd::prelude::*;

verus! {

/// The axis-aligned unit cube, spanning `-1..1` on every axis.
#[derive(Clone, Copy, Debug, PartialEq, Eq, Structural)]
pub struct Cube {}

impl Cube {
    pub fn new() -> (c: Self)
        ensures
            c == (Cube {  }),
    {
        Cube {  }
    }
}

} // verus!
