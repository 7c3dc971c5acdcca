//! Contact with the floor: a fixed horizontal plane that bodies bounce off.
//!
//! The contact plane lies at half the configured floor height. A body whose
//! centre is strictly above the plane is airborne and is left alone. Any other
//! body is put back on the plane and its vertical velocity is reflected and
//! scaled by the bounce factor. There is no friction: the horizontal
//! components of the velocity are never touched.

use vstd::prelude::*;
use crate::body::{Body, Vec3};
use crate::fixed::{
    div_round, fits, half, lemma_product_negated, lemma_product_zero, lemma_rounding_agrees,
    mul_round, narrow, product, saturate,
};

verus! {

/// The height of the contact plane.
pub open spec fn contact_plane(floor_height: int) -> int {
    half(floor_height)
}

/// The body's centre is strictly above the contact plane.
pub open spec fn airborne(b: Body, floor_height: int) -> bool {
    b.position.y > contact_plane(floor_height)
}

/// The vertical velocity after a bounce: sign flipped, scaled by the bounce
/// factor.
pub open spec fn reflected(vy: int, bounce_factor: int) -> int {
    saturate(product(-vy, bounce_factor))
}

/// The body after contact with the floor has been resolved.
pub open spec fn floored(b: Body, floor_height: int, bounce_factor: int) -> Body {
    if airborne(b, floor_height) {
        b
    } else {
        Body {
            position: Vec3 {
                x: b.position.x,
                y: contact_plane(floor_height) as i32,
                z: b.position.z,
            },
            velocity: Vec3 {
                x: b.velocity.x,
                y: reflected(b.velocity.y as int, bounce_factor) as i32,
                z: b.velocity.z,
            },
            radius: b.radius,
        }
    }
}

/// The height of the contact plane for a given floor height.
pub fn floor_offset(floor_height: i32) -> (offset: i32)
    ensures
        offset == contact_plane(floor_height as int),
{
    proof {
        lemma_rounding_agrees(floor_height as int);
    }
    let q: i128 = div_round(floor_height as i128, 2);
    narrow(q)
}

/// Resolves contact between one body and the floor. Returns whether the body
/// was in contact.
pub fn resolve_floor_body(body: &mut Body, floor_height: i32, bounce_factor: i32) -> (contact: bool)
    ensures
        *final(body) == floored(*old(body), floor_height as int, bounce_factor as int),
        contact == !airborne(*old(body), floor_height as int),
{
    let offset: i32 = floor_offset(floor_height);
    if body.position.y > offset {
        return false;
    }
    let bounced: i128 = mul_round(-(body.velocity.y as i64), bounce_factor as i64);
    body.position.y = offset;
    body.velocity.y = narrow(bounced);
    true
}

/// Resolves contact between every body and the floor.
pub fn resolve_floor(bodies: &mut Vec<Body>, floor_height: i32, bounce_factor: i32)
    ensures
        final(bodies)@ == old(bodies)@.map_values(
            |b: Body| floored(b, floor_height as int, bounce_factor as int),
        ),
{
    let n: usize = bodies.len();
    let mut i: usize = 0;
    while i < n
        invariant
            i <= n,
            bodies@.len() == n,
            old(bodies)@.len() == n,
            forall|k: int|
                0 <= k < i ==> bodies@[k] == floored(
                    old(bodies)@[k],
                    floor_height as int,
                    bounce_factor as int,
                ),
            forall|k: int| i <= k < n ==> bodies@[k] == old(bodies)@[k],
        decreases n - i,
    {
        let mut body: Body = bodies[i];
        resolve_floor_body(&mut body, floor_height, bounce_factor);
        bodies.set(i, body);
        i = i + 1;
    }
    assert(bodies@ =~= old(bodies)@.map_values(
        |b: Body| floored(b, floor_height as int, bounce_factor as int),
    ));
}

/// A body that rests on the contact plane with no vertical velocity stays as
/// it is, however often the floor is resolved.
pub proof fn rest_state_is_stable(b: Body, floor_height: i32, bounce_factor: i32)
    requires
        b.position.y == contact_plane(floor_height as int),
        b.velocity.y == 0,
    ensures
        floored(b, floor_height as int, bounce_factor as int) == b,
{
    lemma_product_zero(bounce_factor as int);
}

/// A body whose centre is above the contact plane, by however little, is not
/// changed.
pub proof fn airborne_body_is_untouched(b: Body, floor_height: i32, bounce_factor: i32)
    requires
        b.position.y > contact_plane(floor_height as int),
    ensures
        floored(b, floor_height as int, bounce_factor as int) == b,
{
}

/// A body on or below the contact plane ends exactly on the plane. Its
/// vertical velocity is the old one with the sign flipped and scaled by the
/// bounce factor, saturated; everything else is unchanged.
pub proof fn sunken_body_is_put_on_the_plane(b: Body, floor_height: i32, bounce_factor: i32)
    requires
        b.position.y <= contact_plane(floor_height as int),
    ensures
        ({
            let a = floored(b, floor_height as int, bounce_factor as int);
            let scaled = product(b.velocity.y as int, bounce_factor as int);
            &&& a.position.y == contact_plane(floor_height as int)
            &&& a.velocity.y == saturate(-scaled)
            &&& fits(-scaled) ==> a.velocity.y == -scaled
            &&& a.position.x == b.position.x
            &&& a.position.z == b.position.z
            &&& a.velocity.x == b.velocity.x
            &&& a.velocity.z == b.velocity.z
            &&& a.radius == b.radius
        }),
{
    lemma_product_negated(b.velocity.y as int, bounce_factor as int);
}

/// Resolving the floor leaves every body on or above the contact plane.
pub proof fn no_body_stays_below_the_plane(b: Body, floor_height: i32, bounce_factor: i32)
    ensures
        floored(b, floor_height as int, bounce_factor as int).position.y >= contact_plane(
            floor_height as int,
        ),
{
}

} // verus!
