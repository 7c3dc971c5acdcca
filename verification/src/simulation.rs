//! One tick of the simulation: motion, then the floor, then collisions.
//!
//! The order is fixed. The floor is resolved before collisions so that a body
//! which a large step has carried through the floor is put back on it before
//! it meets its neighbours.

use vstd::prelude::*;
use crate::body::{all_wf, Body};
use crate::floor::{floored, resolve_floor};
use crate::integrator::{integrate, integrated};
use crate::pairwise::{
    after_pairs, all_pairs, events_of, every_pair_is_examined_once, resolve_collisions,
    resolver_changes_velocities_only, CollisionEvent,
};

verus! {

/// The constants of a world. They are set once and only read during a tick.
#[derive(Clone, Copy, Debug, PartialEq, Eq, Structural)]
pub struct World {
    /// Acceleration along the vertical axis; negative pulls down.
    pub gravity: i32,
    /// The share of the speed that a bounce gives back.
    pub bounce_factor: i32,
    /// Twice the height of the contact plane.
    pub floor_height: i32,
}

/// The collection after motion and floor contact, before collisions.
pub open spec fn moved(s: Seq<Body>, world: World, dt: int) -> Seq<Body> {
    s.map_values(|b: Body| integrated(b, world.gravity as int, dt)).map_values(
        |b: Body| floored(b, world.floor_height as int, world.bounce_factor as int),
    )
}

/// The collection after one tick.
pub open spec fn ticked(s: Seq<Body>, world: World, dt: int) -> Seq<Body> {
    after_pairs(moved(s, world, dt), all_pairs(s.len() as int), world.bounce_factor as int)
}

/// The collisions that one tick detects, in the order of examination.
pub open spec fn tick_events(s: Seq<Body>, world: World, dt: int) -> Seq<CollisionEvent> {
    events_of(moved(s, world, dt), all_pairs(s.len() as int), world.bounce_factor as int)
}

/// Advances the collection by one tick of length `dt` and returns the
/// collisions detected.
pub fn tick(bodies: &mut Vec<Body>, world: &World, dt: i32) -> (events: Vec<CollisionEvent>)
    requires
        dt >= 0,
    ensures
        final(bodies)@ == ticked(old(bodies)@, *world, dt as int),
        events@ == tick_events(old(bodies)@, *world, dt as int),
{
    integrate(bodies, world.gravity, dt);
    resolve_floor(bodies, world.floor_height, world.bounce_factor);
    resolve_collisions(bodies, world.bounce_factor)
}

/// A tick keeps the number of bodies and every radius, so a collection of
/// well-formed bodies stays one.
pub proof fn tick_keeps_bodies_well_formed(s: Seq<Body>, world: World, dt: i32)
    requires
        dt >= 0,
    ensures
        ticked(s, world, dt as int).len() == s.len(),
        forall|i: int| 0 <= i < s.len() ==> (#[trigger] ticked(s, world, dt as int)[i]).radius == s[i].radius,
        all_wf(s) ==> all_wf(ticked(s, world, dt as int)),
{
    let m = moved(s, world, dt as int);
    every_pair_is_examined_once(s.len() as int);
    resolver_changes_velocities_only(m, all_pairs(s.len() as int), world.bounce_factor);
    assert forall|i: int| 0 <= i < s.len() implies (#[trigger] ticked(
        s,
        world,
        dt as int,
    )[i]).radius == s[i].radius by {
        assert(m[i].radius == s[i].radius);
    }
}

} // verus!
