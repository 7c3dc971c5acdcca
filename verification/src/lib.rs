//! A small particle-physics core: bodies are spheres that fall under constant
//! gravity, bounce off a horizontal floor and bounce off one another.
//!
//! All quantities are signed 16.16 fixed-point numbers held in an `i32`
//! (see [`fixed`]). Every decision the core takes (is a body airborne, do two
//! spheres overlap, are they separating) is exact. Sums and differences are
//! exact, every product and quotient is rounded to the nearest representable
//! number, and a value that leaves the `i32` range is stored as the nearest
//! end of the range.
//!
//! One tick ([`simulation::tick`]) runs three stages in a fixed order:
//! [`integrator::integrate`] moves the bodies, [`floor::resolve_floor`] puts
//! sunken bodies back on the floor, and [`pairwise::resolve_collisions`]
//! lets overlapping bodies bounce off one another. The core never creates or
//! removes a body; it only changes positions and velocities.

pub mod body;
pub mod collision;
pub mod fixed;
pub mod floor;
pub mod integrator;
pub mod pairwise;
pub mod simulation;
