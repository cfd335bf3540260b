//! Light sources.
//!
//! A light is one of a closed set of kinds; the only kind so far is a
//! point light, a position with an intensity.  The numeric lighting
//! model lives with the renderer; the kind tag is shared here.

use vstd::prelude::*;

verus! {

/// The kind of a light source.
#[derive(Clone, Copy, Debug, PartialEq, Eq, Structural)]
pub enum LightType {
    Point,
}

} // verus!
