//! What can stop the tracing of a ray.

use vstd::prelude::*;

verus! {

/// Why a ray could not be traced.
#[derive(Clone, Copy, Debug, PartialEq, Eq, Structural)]
pub enum TraceError {
    /// A ray has the zero vector as its direction: the ray that was to be
    /// traced, the mirror image of a ray, or the ray from a hit point to
    /// a light.
    DegenerateRay,
    /// A hit point coincides with the centre of the sphere it lies on, so
    /// the surface has no normal there.
    DegenerateNormal,
    /// The mirror image of a ray has a component beyond the limit of a
    /// ray's direction.
    OutOfRange,
}

} // verus!
