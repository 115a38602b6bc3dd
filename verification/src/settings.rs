//! Immutable configuration for one simulation generation.

use vstd::prelude::*;

verus! {

/// Largest coordinate magnitude the geometric code accepts. Squared
/// distances of points this far apart still fit an `i64`.
pub const MAX_COORD: i64 = 1_000_000_000;

/// Configuration consumed by the core. Distances and coordinates share one
/// integer world unit; energies share one integer energy unit.
#[derive(Clone, PartialEq, Eq, Structural, Debug)]
pub struct Settings {
    /// number of satellites in the arena
    pub boids: usize,
    /// time between position ticks, in milliseconds
    pub tick_interval_ms: u64,
    /// energy above which an agent is a cluster-head candidate
    pub energy_threshold: u32,
    /// least distance between two elected cluster heads, in world units
    pub cluster_distance: i64,
    /// energy one played round costs
    pub comms_cost: u32,
    /// energy one idle round beside an active neighbour yields
    pub energy_gain: u32,
    /// upper bound for any agent's energy
    pub max_energy: u32,
    /// side length of the square world, in world units
    pub world_size: i64,
}

impl Settings {
    /// Range checks the core needs: the world fits the coordinate bound,
    /// the head-separation distance is representable, and the population
    /// is countable in 32 bits.
    pub open spec fn wf(self) -> bool {
        &&& 0 < self.world_size <= MAX_COORD
        &&& 0 <= self.cluster_distance <= MAX_COORD
        &&& self.boids < 0xffff_ffff
    }
}

impl Default for Settings {
    /// The stock configuration of the simulation.
    fn default() -> (s: Self)
        ensures
            s.wf(),
            s.boids == 64,
            s.tick_interval_ms == 50,
            s.energy_threshold == 50,
            s.cluster_distance == 100,
            s.comms_cost == 2,
            s.energy_gain == 3,
            s.max_energy == 100,
            s.world_size == 1200,
    {
        Settings {
            boids: 64,
            tick_interval_ms: 50,
            energy_threshold: 50,
            cluster_distance: 100,
            comms_cost: 2,
            energy_gain: 3,
            max_energy: 100,
            world_size: 1200,
        }
    }
}

} // verus!
