//! Flocking ("boids") simulation over a fixed-point plane.
//!
//! Positions and velocities are integers in micro-units (one world unit is
//! `UNIT` of them); weights are parts per million (`PPM`). Quotients round
//! toward zero. Coordinates and velocity components saturate at `LIMIT`.
//!
//! - `spatial`: an index of one snapshot, answering "who is within `r` of p".
//! - `rules`: the new state of one agent from its neighbourhood.
//! - `step`: a tick: snapshot, index, evaluate every agent, commit all.
//! - `population`: spawning, removal and lookup by id.
//!
//! An agent is not its own neighbour. The rules process at most `accuracy`
//! neighbours, while averages divide by the whole neighbourhood's size.
//! Speed limiting leaves a velocity of zero as it is.
use vstd::prelude::*;

pub mod arith;
pub mod model;
pub mod rules;
pub mod spatial;
pub mod population;
pub mod step;
pub mod display;

verus! {

} // verus!
