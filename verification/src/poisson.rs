//! Poisson-disc point placement used when a host populates a scene with
//! non-overlapping spheres. The placement itself is floating-point geometry
//! and lives with the host; the type is kept here as the stable handle the
//! public surface exposes.

use vstd::prelude::*;

verus! {

/// Generator of candidate points that keep a minimum distance from a set of
/// existing points.
pub struct Poisson {}

impl Poisson {
    pub fn new() -> (p: Poisson) {
        Poisson {  }
    }
}

} // verus!
