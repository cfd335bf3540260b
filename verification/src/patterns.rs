//! Procedural colour patterns.
//!
//! The test pattern echoes the coordinates of the point it is sampled
//! at, which makes transform chains observable; it carries no state of
//! its own.  The numeric pattern fields live with the renderer.

use vstd::prelude::*;

verus! {

/// The pattern that returns its sample point as a colour.
#[derive(Clone, Copy, Debug, PartialEq, Eq, Structural)]
pub struct TestPattern {}

impl TestPattern {
    pub fn new() -> (p: Self)
        ensures
            p == (TestPattern {  }),
    {
        TestPattern {  }
    }
}

} // verus!
