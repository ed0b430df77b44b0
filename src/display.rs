//! What the renderer derives from the simulation.
use vstd::prelude::*;
use crate::arith::clamp_i128;

verus! {

/// Marks the camera that views the plane.
pub struct Camera;

/// Tracks the cursor's position in world coordinates.
pub struct CursorPlugin;

/// The hue, in degrees, of a boid with `flock_size` neighbours: five degrees
/// per neighbour, at most 140.
pub open spec fn hue_of(flock_size: u64) -> int {
    if flock_size * 5 > 140 {
        140
    } else {
        flock_size * 5
    }
}

/// The hue, in degrees, a boid is drawn with.
pub fn flock_hue(flock_size: u64) -> (r: u32)
    ensures
        r == hue_of(flock_size),
{
    clamp_i128(flock_size as i128 * 5, 0, 140) as u32
}

} // verus!
