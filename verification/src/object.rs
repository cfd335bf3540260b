//! Scene objects.
//!
//! An object pairs a shape with a material and a transform.  The kind
//! tags of the original closed set of dispatchable objects are shared
//! here; the numeric shape bodies live with the renderer.

use vstd::prelude::*;

verus! {

/// The kind of a dispatchable scene object.
#[derive(Clone, Copy, Debug, PartialEq, Eq, Structural)]
pub enum ObjectType {
    Sphere,
    Plane,
    Test,
}

} // verus!
