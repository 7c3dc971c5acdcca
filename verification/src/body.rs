//! The data the core works on: three-component vectors and spherical bodies.

use vstd::prelude::*;

verus! {

/// A vector of three fixed-point components.
#[derive(Clone, Copy, Debug, PartialEq, Eq, Structural)]
pub struct Vec3 {
    pub x: i32,
    pub y: i32,
    pub z: i32,
}

impl Vec3 {
    /// The vector with the given components.
    pub fn new(x: i32, y: i32, z: i32) -> (v: Vec3)
        ensures
            v == (Vec3 { x, y, z }),
    {
        Vec3 { x, y, z }
    }

    /// The zero vector.
    pub fn zero() -> (v: Vec3)
        ensures
            v == (Vec3 { x: 0, y: 0, z: 0 }),
    {
        Vec3 { x: 0, y: 0, z: 0 }
    }
}

/// A sphere: the position of its centre, its linear velocity and its radius.
///
/// The core moves bodies and changes their velocities; it never creates or
/// removes one and never changes a radius.
#[derive(Clone, Copy, Debug, PartialEq, Eq, Structural)]
pub struct Body {
    pub position: Vec3,
    pub velocity: Vec3,
    pub radius: i32,
}

impl Body {
    /// A body is well formed when its radius is positive.
    pub open spec fn wf(&self) -> bool {
        self.radius > 0
    }

    /// Builds a body, or nothing when the radius is not positive.
    pub fn new(position: Vec3, velocity: Vec3, radius: i32) -> (b: Option<Body>)
        ensures
            radius > 0 ==> b == Some(Body { position, velocity, radius }),
            radius <= 0 ==> b.is_none(),
    {
        if radius > 0 {
            Some(Body { position, velocity, radius })
        } else {
            None
        }
    }

    /// Tells whether the body is well formed.
    pub fn is_valid(&self) -> (ok: bool)
        ensures
            ok == self.wf(),
    {
        self.radius > 0
    }
}

/// Every body of the collection is well formed.
pub open spec fn all_wf(bodies: Seq<Body>) -> bool {
    forall|i: int| 0 <= i < bodies.len() ==> (#[trigger] bodies[i]).wf()
}

} // verus!
