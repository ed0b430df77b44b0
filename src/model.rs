//! The agents and the parameters of the simulation.
use vstd::prelude::*;

verus! {

/// Micro-units in one world unit.
pub const UNIT: i64 = 1_000_000;

/// The denominator of every weight: weights are parts per million.
pub const PPM: i64 = 1_000_000;

/// The fixed cohesion weight, 0.0005, in parts per million.
pub const COHESION_PPM: i64 = 500;

/// Coordinates and velocity components stay within `[-LIMIT, LIMIT]`.
pub const LIMIT: i64 = 1_099_511_627_776;

/// The largest weight accepted in a configuration (ten times).
pub const MAX_IMPACT: u64 = 10_000_000;

/// The largest border half-extent, in world units.
pub const MAX_BORDER: i32 = 1_000_000;

/// The largest population.
pub const MAX_AGENTS: usize = 4_294_967_295;

/// One simulated boid.
#[derive(Clone, Copy, Debug, PartialEq, Eq, Structural)]
pub struct Agent {
    pub id: u64,
    pub x: i64,
    pub y: i64,
    pub vx: i64,
    pub vy: i64,
    /// Size of the neighbourhood found by the last step.
    pub neighbor_count: u64,
}

impl Agent {
    /// Coordinates and velocity are within the plane's bounds.
    pub open spec fn wf(self) -> bool {
        -LIMIT <= self.x <= LIMIT && -LIMIT <= self.y <= LIMIT && -LIMIT <= self.vx <= LIMIT
            && -LIMIT <= self.vy <= LIMIT
    }
}

/// Every agent of the sequence is within bounds.
pub open spec fn all_wf(agents: Seq<Agent>) -> bool {
    forall|i: int| 0 <= i < agents.len() ==> (#[trigger] agents[i]).wf()
}

/// The tunable parameters read by one step.
#[derive(Clone, Copy, Debug, PartialEq, Eq, Structural)]
pub struct SimulationConfig {
    /// Radius of a neighbourhood, in micro-units.
    pub visibility_range: u64,
    /// Most neighbours taken into account by the rules.
    pub accuracy: u32,
    pub separation: bool,
    /// Compared with the squared distance to a neighbour, in world units.
    pub separation_range: u64,
    pub separation_impact: u64,
    pub alignment: bool,
    pub alignment_impact: u64,
    pub cohesion: bool,
    /// Shown to the user; the cohesion rule uses `COHESION_PPM`.
    pub cohesion_impact: u64,
    pub border: bool,
    /// Half-extent of the bordered box, in world units.
    pub border_size: i32,
    /// In micro-units per step.
    pub border_impact: u64,
    pub speed_limit: bool,
    /// In micro-units per step.
    pub min_speed: u64,
    /// In micro-units per step.
    pub max_speed: u64,
}

impl SimulationConfig {
    /// Every numeric field lies in the range the configuration surface keeps it in.
    pub open spec fn wf(self) -> bool {
        self.visibility_range <= LIMIT && self.separation_range <= LIMIT
            && self.separation_impact <= MAX_IMPACT && self.alignment_impact <= MAX_IMPACT
            && self.cohesion_impact <= MAX_IMPACT && 0 <= self.border_size <= MAX_BORDER
            && self.border_impact <= LIMIT && self.min_speed <= LIMIT && self.max_speed <= LIMIT
    }

    /// The parameters a new simulation starts with.
    pub fn standard() -> (r: SimulationConfig)
        ensures
            r.wf(),
            r.visibility_range == 10 * UNIT,
            r.accuracy == 100,
            r.separation && r.alignment && r.cohesion && r.border && r.speed_limit,
            r.separation_range == 2 * UNIT,
            r.separation_impact == 50_000,
            r.alignment_impact == 50_000,
            r.cohesion_impact == COHESION_PPM,
            r.border_size == 50,
            r.border_impact == 20_000,
            r.min_speed == 300_000,
            r.max_speed == 200_000,
    {
        SimulationConfig {
            visibility_range: 10_000_000,
            accuracy: 100,
            separation: true,
            separation_range: 2_000_000,
            separation_impact: 50_000,
            alignment: true,
            alignment_impact: 50_000,
            cohesion: true,
            cohesion_impact: 500,
            border: true,
            border_size: 50,
            border_impact: 20_000,
            speed_limit: true,
            min_speed: 300_000,
            max_speed: 200_000,
        }
    }
}

} // verus!
