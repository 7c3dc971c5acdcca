//! Collision between two spheres.
//!
//! Two spheres collide when the distance between their centres is strictly
//! less than the sum of their radii. The test is made on squared lengths, so
//! it is exact. A detected collision changes the two velocities by equal and
//! opposite impulses along the line of centres, as for two bodies of the same
//! mass; positions are never corrected.

use vstd::prelude::*;
use vstd::arithmetic::mul::{
    lemma_mul_equality_converse, lemma_mul_is_associative, lemma_mul_is_commutative,
};
use crate::body::Vec3;
use vstd::arithmetic::div_mod::lemma_fundamental_div_mod;
use crate::fixed::{
    div_round, fits, lemma_product_bound, lemma_round_div_bound, lemma_round_div_error,
    lemma_round_div_exact, lemma_rounding_agrees, narrow, rescaled_half, round_div, saturate,
    SCALE,
};

verus! {

/// An exact difference of two vectors. Its components can lie outside the
/// stored range.
pub struct Offset {
    pub x: int,
    pub y: int,
    pub z: int,
}

/// How an examined pair of overlapping spheres was treated.
#[derive(Clone, Copy, Debug, PartialEq, Eq, Structural)]
pub enum Resolution {
    /// The centres coincide, so there is no line of centres: nothing changed.
    Coincident,
    /// The relative velocity along the line of centres is positive: nothing
    /// changed.
    Separating,
    /// Impulses were applied to both velocities.
    Bounced,
}

/// The vector that leads from `from` to `to`.
pub open spec fn offset(from: Vec3, to: Vec3) -> Offset {
    Offset { x: to.x - from.x, y: to.y - from.y, z: to.z - from.z }
}

/// The scalar product.
pub open spec fn dot(a: Offset, b: Offset) -> int {
    a.x * b.x + a.y * b.y + a.z * b.z
}

/// The square of the distance between two points.
pub open spec fn distance_squared(a: Vec3, b: Vec3) -> int {
    dot(offset(a, b), offset(a, b))
}

/// The distance between the centres is strictly less than the sum of the
/// radii. Spheres that touch in one point do not overlap.
pub open spec fn overlapping(pos_a: Vec3, radius_a: int, pos_b: Vec3, radius_b: int) -> bool {
    radius_a + radius_b > 0 && distance_squared(pos_a, pos_b) < (radius_a + radius_b) * (radius_a
        + radius_b)
}

/// The relative velocity `vel_a - vel_b` multiplied with the vector from the
/// centre of A to the centre of B. Where the centres differ this is the
/// velocity along the collision normal times the distance, so it has the same
/// sign.
pub open spec fn along_normal(pos_a: Vec3, vel_a: Vec3, pos_b: Vec3, vel_b: Vec3) -> int {
    dot(offset(vel_b, vel_a), offset(pos_a, pos_b))
}

/// The part of the relative velocity that lies along the collision normal,
/// as a vector, each component rounded.
pub open spec fn normal_part(pos_a: Vec3, vel_a: Vec3, pos_b: Vec3, vel_b: Vec3) -> Offset {
    let d = offset(pos_a, pos_b);
    let along = along_normal(pos_a, vel_a, pos_b, vel_b);
    let dd = distance_squared(pos_a, pos_b);
    Offset {
        x: round_div(along * d.x, dd),
        y: round_div(along * d.y, dd),
        z: round_div(along * d.z, dd),
    }
}

/// One component of the impulse: the matching component of the normal part of
/// the relative velocity times `-(1 + bounce_factor) / 2`.
pub open spec fn impulse_component(part: int, bounce_factor: int) -> int {
    rescaled_half(-(SCALE + bounce_factor) * part)
}

/// The impulse that a bounce gives to A; B receives the opposite.
pub open spec fn impulse(
    pos_a: Vec3,
    vel_a: Vec3,
    pos_b: Vec3,
    vel_b: Vec3,
    bounce_factor: int,
) -> Offset {
    let part = normal_part(pos_a, vel_a, pos_b, vel_b);
    Offset {
        x: impulse_component(part.x, bounce_factor),
        y: impulse_component(part.y, bounce_factor),
        z: impulse_component(part.z, bounce_factor),
    }
}

/// How a pair with these positions and velocities is treated once it is known
/// to overlap.
pub open spec fn resolution(pos_a: Vec3, vel_a: Vec3, pos_b: Vec3, vel_b: Vec3) -> Resolution {
    if distance_squared(pos_a, pos_b) == 0 {
        Resolution::Coincident
    } else if along_normal(pos_a, vel_a, pos_b, vel_b) > 0 {
        Resolution::Separating
    } else {
        Resolution::Bounced
    }
}

/// A velocity plus an exact change, saturated.
pub open spec fn pushed(v: Vec3, by: Offset) -> Vec3 {
    Vec3 {
        x: saturate(v.x + by.x) as i32,
        y: saturate(v.y + by.y) as i32,
        z: saturate(v.z + by.z) as i32,
    }
}

/// A velocity minus an exact change, saturated.
pub open spec fn pulled(v: Vec3, by: Offset) -> Vec3 {
    Vec3 {
        x: saturate(v.x - by.x) as i32,
        y: saturate(v.y - by.y) as i32,
        z: saturate(v.z - by.z) as i32,
    }
}

/// The velocity of A after the collision has been resolved.
pub open spec fn velocity_a_after(
    pos_a: Vec3,
    vel_a: Vec3,
    pos_b: Vec3,
    vel_b: Vec3,
    bounce_factor: int,
) -> Vec3 {
    if resolution(pos_a, vel_a, pos_b, vel_b) == Resolution::Bounced {
        pushed(vel_a, impulse(pos_a, vel_a, pos_b, vel_b, bounce_factor))
    } else {
        vel_a
    }
}

/// The velocity of B after the collision has been resolved.
pub open spec fn velocity_b_after(
    pos_a: Vec3,
    vel_a: Vec3,
    pos_b: Vec3,
    vel_b: Vec3,
    bounce_factor: int,
) -> Vec3 {
    if resolution(pos_a, vel_a, pos_b, vel_b) == Resolution::Bounced {
        pulled(vel_b, impulse(pos_a, vel_a, pos_b, vel_b, bounce_factor))
    } else {
        vel_b
    }
}

/// A stored vector, read as an exact one.
pub open spec fn exact(v: Vec3) -> Offset {
    Offset { x: v.x as int, y: v.y as int, z: v.z as int }
}

/// No component of either velocity leaves the stored range when the impulse
/// is applied.
pub open spec fn bounce_fits(
    pos_a: Vec3,
    vel_a: Vec3,
    pos_b: Vec3,
    vel_b: Vec3,
    bounce_factor: int,
) -> bool {
    let by = impulse(pos_a, vel_a, pos_b, vel_b, bounce_factor);
    &&& fits(vel_a.x + by.x) && fits(vel_a.y + by.y) && fits(vel_a.z + by.z)
    &&& fits(vel_b.x - by.x) && fits(vel_b.y - by.y) && fits(vel_b.z - by.z)
}

/// The part of the relative velocity along the collision normal has whole
/// components, so that rounding does not change it.
pub open spec fn normal_part_is_exact(pos_a: Vec3, vel_a: Vec3, pos_b: Vec3, vel_b: Vec3) -> bool {
    let d = offset(pos_a, pos_b);
    let along = along_normal(pos_a, vel_a, pos_b, vel_b);
    let dd = distance_squared(pos_a, pos_b);
    (along * d.x) % dd == 0 && (along * d.y) % dd == 0 && (along * d.z) % dd == 0
}

/// The absolute value.
pub open spec fn magnitude(x: int) -> int {
    if x >= 0 {
        x
    } else {
        -x
    }
}

/// The sum of the absolute values of the components.
pub open spec fn taxicab(d: Offset) -> int {
    magnitude(d.x) + magnitude(d.y) + magnitude(d.z)
}

/// The product of two components of a vector lies within the square of its
/// length.
proof fn lemma_component_product(a: int, b: int, c: int)
    by (nonlinear_arith)
    ensures
        -(a * a + b * b + c * c) <= a * b <= a * a + b * b + c * c,
        0 <= a * a <= a * a + b * b + c * c,
{
}

/// A sum of three terms times a factor, term by term.
proof fn lemma_sum_times(p: int, q: int, s: int, k: int)
    by (nonlinear_arith)
    ensures
        (p + q + s) * k == p * k + q * k + s * k,
{
}

/// The scalar product of `r` with `d`, times a component `dk` of `d`, is at
/// most three times the largest component of `r` times the squared length of
/// `d`.
proof fn lemma_projection_bound(r: Offset, d: Offset, dk: int, bound: int)
    requires
        -bound <= r.x <= bound,
        -bound <= r.y <= bound,
        -bound <= r.z <= bound,
        dk == d.x || dk == d.y || dk == d.z,
    ensures
        -(3 * (bound * dot(d, d))) <= dot(r, d) * dk <= 3 * (bound * dot(d, d)),
        dot(d, d) >= 0,
{
    let dd = dot(d, d);
    lemma_component_product(d.x, d.y, d.z);
    lemma_component_product(d.y, d.z, d.x);
    lemma_component_product(d.z, d.x, d.y);
    lemma_component_product(d.y, d.x, d.z);
    lemma_component_product(d.z, d.y, d.x);
    lemma_component_product(d.x, d.z, d.y);
    assert(-dd <= d.x * dk <= dd);
    assert(-dd <= d.y * dk <= dd);
    assert(-dd <= d.z * dk <= dd);
    lemma_product_bound(r.x, d.x * dk, bound, dd);
    lemma_product_bound(r.y, d.y * dk, bound, dd);
    lemma_product_bound(r.z, d.z * dk, bound, dd);
    lemma_sum_times(r.x * d.x, r.y * d.y, r.z * d.z, dk);
    lemma_mul_is_associative(r.x, d.x, dk);
    lemma_mul_is_associative(r.y, d.y, dk);
    lemma_mul_is_associative(r.z, d.z, dk);
}

/// Tells whether two spheres overlap.
pub fn check_collision(pos_a: Vec3, radius_a: i32, pos_b: Vec3, radius_b: i32) -> (hit: bool)
    ensures
        hit == overlapping(pos_a, radius_a as int, pos_b, radius_b as int),
{
    let reach: i64 = radius_a as i64 + radius_b as i64;
    if reach <= 0 {
        return false;
    }
    let dd: i128 = squared_distance(pos_a, pos_b);
    proof {
        lemma_product_bound(reach as int, reach as int, 0x1_0000_0000, 0x1_0000_0000);
    }
    dd < (reach as i128) * (reach as i128)
}

/// The square of the distance between two points.
pub fn squared_distance(a: Vec3, b: Vec3) -> (dd: i128)
    ensures
        dd == distance_squared(a, b),
        0 <= dd <= 0x3_0000_0000_0000_0000,
{
    let dx: i128 = b.x as i128 - a.x as i128;
    let dy: i128 = b.y as i128 - a.y as i128;
    let dz: i128 = b.z as i128 - a.z as i128;
    proof {
        lemma_product_bound(dx as int, dx as int, 0x1_0000_0000, 0x1_0000_0000);
        lemma_product_bound(dy as int, dy as int, 0x1_0000_0000, 0x1_0000_0000);
        lemma_product_bound(dz as int, dz as int, 0x1_0000_0000, 0x1_0000_0000);
        lemma_component_product(dx as int, dy as int, dz as int);
    }
    dx * dx + dy * dy + dz * dz
}

/// One component of the impulse, from the scalar product `along` of the
/// relative velocity with the line of centres, the matching component `dk` of
/// that line and its squared length `dd`.
fn impulse_along(along: i128, dk: i128, dd: i128, bounce_factor: i32) -> (imp: i128)
    requires
        0 < dd <= 0x3_0000_0000_0000_0000,
        -0x1_0000_0000 <= dk <= 0x1_0000_0000,
        -0x3_0000_0000_0000_0000 <= along <= 0x3_0000_0000_0000_0000,
        -(0x3_0000_0000 * dd) <= along * dk <= 0x3_0000_0000 * dd,
    ensures
        imp == impulse_component(round_div(along * dk, dd as int), bounce_factor as int),
        -0x3_0000_0000_0000_0000 <= imp <= 0x3_0000_0000_0000_0000,
{
    proof {
        lemma_product_bound(along as int, dk as int, 0x3_0000_0000_0000_0000, 0x1_0000_0000);
        lemma_round_div_bound(along * dk, dd as int, 0x3_0000_0000);
    }
    let part: i128 = div_round(along * dk, dd);
    let factor: i128 = -(SCALE as i128 + bounce_factor as i128);
    proof {
        lemma_product_bound(factor as int, part as int, 0x1_0000_0000, 0x3_0000_0000);
        lemma_round_div_bound(factor * part, 2 * SCALE, 0x3_0000_0000_0000_0000);
        lemma_rounding_agrees(factor * part);
    }
    div_round(factor * part, 2 * (SCALE as i128))
}

/// Resolves a collision between two spheres that are known to overlap.
///
/// Nothing changes when the centres coincide, or when the relative velocity
/// `vel_a - vel_b` along the line from A to B is positive. Otherwise A
/// receives the impulse and B the opposite impulse.
pub fn resolve_collision(
    pos_a: Vec3,
    vel_a: &mut Vec3,
    pos_b: Vec3,
    vel_b: &mut Vec3,
    bounce_factor: i32,
) -> (outcome: Resolution)
    ensures
        outcome == resolution(pos_a, *old(vel_a), pos_b, *old(vel_b)),
        *final(vel_a) == velocity_a_after(
            pos_a,
            *old(vel_a),
            pos_b,
            *old(vel_b),
            bounce_factor as int,
        ),
        *final(vel_b) == velocity_b_after(
            pos_a,
            *old(vel_a),
            pos_b,
            *old(vel_b),
            bounce_factor as int,
        ),
{
    let dd: i128 = squared_distance(pos_a, pos_b);
    if dd == 0 {
        return Resolution::Coincident;
    }
    let dx: i128 = pos_b.x as i128 - pos_a.x as i128;
    let dy: i128 = pos_b.y as i128 - pos_a.y as i128;
    let dz: i128 = pos_b.z as i128 - pos_a.z as i128;
    let rx: i128 = vel_a.x as i128 - vel_b.x as i128;
    let ry: i128 = vel_a.y as i128 - vel_b.y as i128;
    let rz: i128 = vel_a.z as i128 - vel_b.z as i128;
    proof {
        lemma_product_bound(rx as int, dx as int, 0x1_0000_0000, 0x1_0000_0000);
        lemma_product_bound(ry as int, dy as int, 0x1_0000_0000, 0x1_0000_0000);
        lemma_product_bound(rz as int, dz as int, 0x1_0000_0000, 0x1_0000_0000);
    }
    let along: i128 = rx * dx + ry * dy + rz * dz;
    if along > 0 {
        return Resolution::Separating;
    }
    proof {
        let r = offset(*vel_b, *vel_a);
        let d = offset(pos_a, pos_b);
        lemma_projection_bound(r, d, d.x, 0x1_0000_0000);
        lemma_projection_bound(r, d, d.y, 0x1_0000_0000);
        lemma_projection_bound(r, d, d.z, 0x1_0000_0000);
    }
    let ix: i128 = impulse_along(along, dx, dd, bounce_factor);
    let iy: i128 = impulse_along(along, dy, dd, bounce_factor);
    let iz: i128 = impulse_along(along, dz, dd, bounce_factor);
    let new_a = Vec3 {
        x: narrow(vel_a.x as i128 + ix),
        y: narrow(vel_a.y as i128 + iy),
        z: narrow(vel_a.z as i128 + iz),
    };
    let new_b = Vec3 {
        x: narrow(vel_b.x as i128 - ix),
        y: narrow(vel_b.y as i128 - iy),
        z: narrow(vel_b.z as i128 - iz),
    };
    *vel_a = new_a;
    *vel_b = new_b;
    Resolution::Bounced
}

/// A whole quotient is what rounding returns.
proof fn lemma_whole_quotient(n: int, d: int)
    requires
        d > 0,
        n % d == 0,
    ensures
        round_div(n, d) * d == n,
{
    lemma_fundamental_div_mod(n, d);
    assert(n == (n / d) * d) by (nonlinear_arith)
        requires
            n == d * (n / d) + 0,
    ;
    lemma_round_div_exact(n / d, d);
}

/// With a bounce factor of one the impulse is the opposite of the normal part.
proof fn lemma_elastic_impulse(part: int)
    ensures
        impulse_component(part, SCALE as int) == -part,
{
    assert(-(SCALE + SCALE) * part == (-part) * (2 * SCALE)) by (nonlinear_arith);
    lemma_round_div_exact(-part, 2 * SCALE);
    lemma_rounding_agrees(-(SCALE + SCALE) * part);
}

/// Where `p * dd` equals `along * dk`, the product `p * dk` scaled by `dd`
/// is `along` scaled by the square of `dk`.
proof fn lemma_scaled_term(p: int, dk: int, dd: int, along: int)
    by (nonlinear_arith)
    requires
        p * dd == along * dk,
    ensures
        (p * dk) * dd == along * (dk * dk),
{
    assert((p * dk) * dd == (p * dd) * dk);
    assert((along * dk) * dk == along * (dk * dk));
}

/// A factor times a sum of three terms, term by term.
proof fn lemma_times_sum(k: int, p: int, q: int, s: int)
    by (nonlinear_arith)
    ensures
        k * (p + q + s) == k * p + k * q + k * s,
{
}

/// A vector whose components, scaled by the squared length of `d`, are those
/// of `d` scaled by `along` has the scalar product `along` with `d`, where
/// `d` is not the zero vector.
proof fn lemma_projection_length(p: Offset, d: Offset, along: int)
    requires
        dot(d, d) > 0,
        p.x * dot(d, d) == along * d.x,
        p.y * dot(d, d) == along * d.y,
        p.z * dot(d, d) == along * d.z,
    ensures
        dot(p, d) == along,
{
    let dd = dot(d, d);
    lemma_sum_times(p.x * d.x, p.y * d.y, p.z * d.z, dd);
    lemma_scaled_term(p.x, d.x, dd, along);
    lemma_scaled_term(p.y, d.y, dd, along);
    lemma_scaled_term(p.z, d.z, dd, along);
    lemma_times_sum(along, d.x * d.x, d.y * d.y, d.z * d.z);
    assert(dot(p, d) * dd == along * dd);
    lemma_mul_is_commutative(dot(p, d), dd);
    lemma_mul_is_commutative(along, dd);
    lemma_mul_equality_converse(dd, dot(p, d), along);
}

/// The scalar product of a difference is the difference of the scalar
/// products.
proof fn lemma_dot_difference(a: Offset, b: Offset, d: Offset)
    by (nonlinear_arith)
    ensures
        (a.x - b.x) * d.x + (a.y - b.y) * d.y + (a.z - b.z) * d.z == (a.x * d.x + a.y * d.y + a.z
            * d.z) - (b.x * d.x + b.y * d.y + b.z * d.z),
        (a.x + b.x) * d.x + (a.y + b.y) * d.y + (a.z + b.z) * d.z == (a.x * d.x + a.y * d.y + a.z
            * d.z) + (b.x * d.x + b.y * d.y + b.z * d.z),
{
}

/// Overlap compares the distance between the centres with the sum of the
/// radii: where `whole` is the distance rounded down to a whole number, two
/// spheres overlap exactly when `whole` is less than the sum of the radii.
pub proof fn overlap_is_distance_below_reach(
    pos_a: Vec3,
    radius_a: i32,
    pos_b: Vec3,
    radius_b: i32,
    whole: int,
)
    requires
        0 <= whole,
        whole * whole <= distance_squared(pos_a, pos_b) < (whole + 1) * (whole + 1),
    ensures
        overlapping(pos_a, radius_a as int, pos_b, radius_b as int) <==> whole < radius_a
            + radius_b,
{
    let reach = radius_a + radius_b;
    if whole < reach {
        assert((whole + 1) * (whole + 1) <= reach * reach) by (nonlinear_arith)
            requires
                0 <= whole < reach,
        ;
    } else if reach > 0 {
        assert(reach * reach <= whole * whole) by (nonlinear_arith)
            requires
                0 < reach <= whole,
        ;
    }
}

/// Spheres whose centres are at least the sum of their radii apart do not
/// collide; spheres that touch in one point are among them.
pub proof fn distant_spheres_do_not_overlap(pos_a: Vec3, radius_a: i32, pos_b: Vec3, radius_b: i32)
    requires
        distance_squared(pos_a, pos_b) >= (radius_a + radius_b) * (radius_a + radius_b),
    ensures
        !overlapping(pos_a, radius_a as int, pos_b, radius_b as int),
{
}

/// Spheres that already separate along the collision normal keep their
/// velocities.
pub proof fn separating_spheres_keep_their_velocities(
    pos_a: Vec3,
    vel_a: Vec3,
    pos_b: Vec3,
    vel_b: Vec3,
    bounce_factor: i32,
)
    requires
        along_normal(pos_a, vel_a, pos_b, vel_b) > 0,
    ensures
        velocity_a_after(pos_a, vel_a, pos_b, vel_b, bounce_factor as int) == vel_a,
        velocity_b_after(pos_a, vel_a, pos_b, vel_b, bounce_factor as int) == vel_b,
{
}

/// Spheres whose centres coincide keep their velocities.
pub proof fn coincident_spheres_keep_their_velocities(
    pos_a: Vec3,
    vel_a: Vec3,
    pos_b: Vec3,
    vel_b: Vec3,
    bounce_factor: i32,
)
    requires
        pos_a == pos_b,
    ensures
        velocity_a_after(pos_a, vel_a, pos_b, vel_b, bounce_factor as int) == vel_a,
        velocity_b_after(pos_a, vel_a, pos_b, vel_b, bounce_factor as int) == vel_b,
{
}

/// Resolving a collision keeps the sum of the two velocities, whatever the
/// bounce factor, provided that no component leaves the stored range.
pub proof fn momentum_is_conserved(
    pos_a: Vec3,
    vel_a: Vec3,
    pos_b: Vec3,
    vel_b: Vec3,
    bounce_factor: i32,
)
    requires
        bounce_fits(pos_a, vel_a, pos_b, vel_b, bounce_factor as int),
    ensures
        ({
            let a = velocity_a_after(pos_a, vel_a, pos_b, vel_b, bounce_factor as int);
            let b = velocity_b_after(pos_a, vel_a, pos_b, vel_b, bounce_factor as int);
            &&& a.x + b.x == vel_a.x + vel_b.x
            &&& a.y + b.y == vel_a.y + vel_b.y
            &&& a.z + b.z == vel_a.z + vel_b.z
        }),
{
}

/// With a bounce factor of one, two spheres that approach along the normal
/// exchange the components of their velocities along the normal, and the sum
/// of those components stays the same. This holds where the normal part of
/// the relative velocity has whole components and no result leaves the
/// stored range.
pub proof fn elastic_bounce_exchanges_normal_velocities(
    pos_a: Vec3,
    vel_a: Vec3,
    pos_b: Vec3,
    vel_b: Vec3,
)
    requires
        distance_squared(pos_a, pos_b) > 0,
        along_normal(pos_a, vel_a, pos_b, vel_b) < 0,
        normal_part_is_exact(pos_a, vel_a, pos_b, vel_b),
        bounce_fits(pos_a, vel_a, pos_b, vel_b, SCALE as int),
    ensures
        ({
            let d = offset(pos_a, pos_b);
            let a = velocity_a_after(pos_a, vel_a, pos_b, vel_b, SCALE as int);
            let b = velocity_b_after(pos_a, vel_a, pos_b, vel_b, SCALE as int);
            &&& dot(exact(a), d) == dot(exact(vel_b), d)
            &&& dot(exact(b), d) == dot(exact(vel_a), d)
            &&& dot(exact(a), d) + dot(exact(b), d) == dot(exact(vel_a), d) + dot(exact(vel_b), d)
        }),
{
    let d = offset(pos_a, pos_b);
    let dd = distance_squared(pos_a, pos_b);
    let along = along_normal(pos_a, vel_a, pos_b, vel_b);
    let part = normal_part(pos_a, vel_a, pos_b, vel_b);
    lemma_whole_quotient(along * d.x, dd);
    lemma_whole_quotient(along * d.y, dd);
    lemma_whole_quotient(along * d.z, dd);
    lemma_projection_length(part, d, along);
    lemma_elastic_impulse(part.x);
    lemma_elastic_impulse(part.y);
    lemma_elastic_impulse(part.z);
    let a = velocity_a_after(pos_a, vel_a, pos_b, vel_b, SCALE as int);
    let b = velocity_b_after(pos_a, vel_a, pos_b, vel_b, SCALE as int);
    assert(exact(a) == Offset { x: vel_a.x - part.x, y: vel_a.y - part.y, z: vel_a.z - part.z });
    assert(exact(b) == Offset { x: vel_b.x + part.x, y: vel_b.y + part.y, z: vel_b.z + part.z });
    lemma_dot_difference(exact(vel_a), part, d);
    lemma_dot_difference(exact(vel_b), part, d);
    lemma_dot_difference(exact(vel_a), exact(vel_b), d);
}

/// A sum of three products, each with a first factor of at most half of
/// `dd`, is at most half of `dd` times the sum of the magnitudes of the second
/// factors.
proof fn lemma_error_sum(ex: int, ey: int, ez: int, d: Offset, dd: int)
    requires
        dd > 0,
        -dd <= 2 * ex <= dd,
        -dd <= 2 * ey <= dd,
        -dd <= 2 * ez <= dd,
    ensures
        -(dd * taxicab(d)) <= 2 * (ex * d.x + ey * d.y + ez * d.z) <= dd * taxicab(d),
{
    lemma_product_bound(2 * ex, d.x, dd, magnitude(d.x));
    lemma_product_bound(2 * ey, d.y, dd, magnitude(d.y));
    lemma_product_bound(2 * ez, d.z, dd, magnitude(d.z));
    assert((2 * ex) * d.x == 2 * (ex * d.x)) by (nonlinear_arith);
    assert((2 * ey) * d.y == 2 * (ey * d.y)) by (nonlinear_arith);
    assert((2 * ez) * d.z == 2 * (ez * d.z)) by (nonlinear_arith);
    lemma_times_sum(dd, magnitude(d.x), magnitude(d.y), magnitude(d.z));
}

/// What remains when a bound that carries a positive factor is divided by it.
proof fn lemma_cancel_bound(t: int, dd: int, limit: int)
    by (nonlinear_arith)
    requires
        dd > 0,
        -(dd * limit) <= 2 * (t * dd) <= dd * limit,
    ensures
        -limit <= 2 * t <= limit,
{
}

/// The rounded normal part of the relative velocity has, with the line of
/// centres, nearly the scalar product that the relative velocity has: twice
/// the difference is at most the sum of the magnitudes of the components of
/// the line of centres.
proof fn lemma_projection_error(pos_a: Vec3, vel_a: Vec3, pos_b: Vec3, vel_b: Vec3)
    requires
        distance_squared(pos_a, pos_b) > 0,
    ensures
        ({
            let d = offset(pos_a, pos_b);
            let t = dot(normal_part(pos_a, vel_a, pos_b, vel_b), d) - along_normal(
                pos_a,
                vel_a,
                pos_b,
                vel_b,
            );
            -taxicab(d) <= 2 * t <= taxicab(d)
        }),
{
    let d = offset(pos_a, pos_b);
    let dd = distance_squared(pos_a, pos_b);
    let along = along_normal(pos_a, vel_a, pos_b, vel_b);
    let part = normal_part(pos_a, vel_a, pos_b, vel_b);
    let t = dot(part, d) - along;
    let ex = part.x * dd - along * d.x;
    let ey = part.y * dd - along * d.y;
    let ez = part.z * dd - along * d.z;
    lemma_round_div_error(along * d.x, dd);
    lemma_round_div_error(along * d.y, dd);
    lemma_round_div_error(along * d.z, dd);
    lemma_error_sum(ex, ey, ez, d, dd);
    assert(t * dd == ex * d.x + ey * d.y + ez * d.z) by {
        lemma_sum_times(part.x * d.x, part.y * d.y, part.z * d.z, dd);
        lemma_times_sum(along, d.x * d.x, d.y * d.y, d.z * d.z);
        lemma_error_term(part.x, d.x, dd, along);
        lemma_error_term(part.y, d.y, dd, along);
        lemma_error_term(part.z, d.z, dd, along);
        assert(t * dd == dot(part, d) * dd - along * dd) by (nonlinear_arith)
            requires
                t == dot(part, d) - along,
        ;
    }
    lemma_cancel_bound(t, dd, taxicab(d));
}

/// One term of the rounding error, multiplied out.
proof fn lemma_error_term(p: int, dk: int, dd: int, along: int)
    by (nonlinear_arith)
    ensures
        (p * dd - along * dk) * dk == (p * dk) * dd - along * (dk * dk),
{
}

/// With a bounce factor of one, two spheres that approach along the normal
/// exchange the components of their velocities along the normal up to
/// rounding: measured along the line of centres, each new velocity differs
/// from the other's old one by at most half the sum of the magnitudes of the
/// components of that line, which is less than one unit in the last place of
/// the speed along the normal. This holds where no result leaves the stored
/// range.
pub proof fn elastic_bounce_exchanges_up_to_rounding(
    pos_a: Vec3,
    vel_a: Vec3,
    pos_b: Vec3,
    vel_b: Vec3,
)
    requires
        distance_squared(pos_a, pos_b) > 0,
        along_normal(pos_a, vel_a, pos_b, vel_b) < 0,
        bounce_fits(pos_a, vel_a, pos_b, vel_b, SCALE as int),
    ensures
        ({
            let d = offset(pos_a, pos_b);
            let a = velocity_a_after(pos_a, vel_a, pos_b, vel_b, SCALE as int);
            let b = velocity_b_after(pos_a, vel_a, pos_b, vel_b, SCALE as int);
            &&& 2 * magnitude(dot(exact(a), d) - dot(exact(vel_b), d)) <= taxicab(d)
            &&& 2 * magnitude(dot(exact(b), d) - dot(exact(vel_a), d)) <= taxicab(d)
            &&& dot(exact(a), d) + dot(exact(b), d) == dot(exact(vel_a), d) + dot(exact(vel_b), d)
        }),
{
    let d = offset(pos_a, pos_b);
    let part = normal_part(pos_a, vel_a, pos_b, vel_b);
    lemma_projection_error(pos_a, vel_a, pos_b, vel_b);
    lemma_elastic_impulse(part.x);
    lemma_elastic_impulse(part.y);
    lemma_elastic_impulse(part.z);
    let a = velocity_a_after(pos_a, vel_a, pos_b, vel_b, SCALE as int);
    let b = velocity_b_after(pos_a, vel_a, pos_b, vel_b, SCALE as int);
    assert(exact(a) == Offset { x: vel_a.x - part.x, y: vel_a.y - part.y, z: vel_a.z - part.z });
    assert(exact(b) == Offset { x: vel_b.x + part.x, y: vel_b.y + part.y, z: vel_b.z + part.z });
    lemma_dot_difference(exact(vel_a), part, d);
    lemma_dot_difference(exact(vel_b), part, d);
    lemma_dot_difference(exact(vel_a), exact(vel_b), d);
}

} // verus!
