//! One step of motion under constant gravity.
//!
//! The step is semi-implicit: the velocity is advanced first and the new
//! velocity then moves the position.

use vstd::prelude::*;
use crate::body::{Body, Vec3};
use crate::fixed::{
    add_scaled, fits, lemma_product_negated, lemma_product_zero, product, saturate,
};

verus! {

/// The velocity after a step of length `dt`: gravity acts on the vertical
/// component alone.
pub open spec fn integrated_velocity(v: Vec3, gravity: int, dt: int) -> Vec3 {
    Vec3 { x: v.x, y: saturate(v.y + product(gravity, dt)) as i32, z: v.z }
}

/// The position after moving for `dt` at velocity `v`.
pub open spec fn advanced_position(p: Vec3, v: Vec3, dt: int) -> Vec3 {
    Vec3 {
        x: saturate(p.x + product(v.x as int, dt)) as i32,
        y: saturate(p.y + product(v.y as int, dt)) as i32,
        z: saturate(p.z + product(v.z as int, dt)) as i32,
    }
}

/// The body after one step of length `dt`.
pub open spec fn integrated(b: Body, gravity: int, dt: int) -> Body {
    let velocity = integrated_velocity(b.velocity, gravity, dt);
    Body { position: advanced_position(b.position, velocity, dt), velocity, radius: b.radius }
}

/// Advances one body by one step of length `dt`.
pub fn integrate_body(body: &mut Body, gravity: i32, dt: i32)
    requires
        dt >= 0,
    ensures
        *final(body) == integrated(*old(body), gravity as int, dt as int),
{
    let vy: i32 = add_scaled(body.velocity.y, gravity, dt);
    let velocity = Vec3 { x: body.velocity.x, y: vy, z: body.velocity.z };
    let position = Vec3 {
        x: add_scaled(body.position.x, velocity.x, dt),
        y: add_scaled(body.position.y, velocity.y, dt),
        z: add_scaled(body.position.z, velocity.z, dt),
    };
    body.velocity = velocity;
    body.position = position;
}

/// Advances every body by one step of length `dt`.
pub fn integrate(bodies: &mut Vec<Body>, gravity: i32, dt: i32)
    requires
        dt >= 0,
    ensures
        final(bodies)@ == old(bodies)@.map_values(|b: Body| integrated(b, gravity as int, dt as int)),
{
    let n: usize = bodies.len();
    let mut i: usize = 0;
    while i < n
        invariant
            dt >= 0,
            i <= n,
            bodies@.len() == n,
            old(bodies)@.len() == n,
            forall|k: int| 0 <= k < i ==> bodies@[k] == integrated(old(bodies)@[k], gravity as int, dt as int),
            forall|k: int| i <= k < n ==> bodies@[k] == old(bodies)@[k],
        decreases n - i,
    {
        let mut body: Body = bodies[i];
        integrate_body(&mut body, gravity, dt);
        bodies.set(i, body);
        i = i + 1;
    }
    assert(bodies@ =~= old(bodies)@.map_values(|b: Body| integrated(b, gravity as int, dt as int)));
}

/// No component that the step computes leaves the stored range.
pub open spec fn step_fits(b: Body, gravity: int, dt: int) -> bool {
    let v = integrated_velocity(b.velocity, gravity, dt);
    &&& fits(b.velocity.y + product(gravity, dt))
    &&& fits(b.position.x + product(v.x as int, dt))
    &&& fits(b.position.y + product(v.y as int, dt))
    &&& fits(b.position.z + product(v.z as int, dt))
}

/// A step changes the vertical velocity by exactly the product of gravity and
/// the step length, and then moves the position by exactly the product of the
/// new velocity and the step length, provided that no result leaves the
/// stored range. Under downward gravity the vertical velocity decreases by
/// the product of the magnitude of gravity and the step length. The
/// horizontal velocity and the radius are never changed.
pub proof fn step_is_semi_implicit(b: Body, gravity: i32, dt: i32)
    requires
        dt >= 0,
        step_fits(b, gravity as int, dt as int),
    ensures
        ({
            let a = integrated(b, gravity as int, dt as int);
            &&& a.velocity.y == b.velocity.y + product(gravity as int, dt as int)
            &&& gravity <= 0 ==> b.velocity.y - a.velocity.y == product(-gravity, dt as int)
            &&& a.velocity.x == b.velocity.x
            &&& a.velocity.z == b.velocity.z
            &&& a.position.x - b.position.x == product(a.velocity.x as int, dt as int)
            &&& a.position.y - b.position.y == product(a.velocity.y as int, dt as int)
            &&& a.position.z - b.position.z == product(a.velocity.z as int, dt as int)
            &&& a.radius == b.radius
        }),
{
    lemma_product_negated(gravity as int, dt as int);
}

/// A step of length zero changes nothing.
pub proof fn zero_step_is_identity(b: Body, gravity: i32)
    ensures
        integrated(b, gravity as int, 0) == b,
{
    lemma_product_zero(gravity as int);
    lemma_product_zero(b.velocity.x as int);
    lemma_product_zero(b.velocity.y as int);
    lemma_product_zero(b.velocity.z as int);
}

} // verus!
