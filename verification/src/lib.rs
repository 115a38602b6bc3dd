//! A verified core for a satellite-network simulation: a quadtree spatial
//! index, deterministic cluster-head election and membership assignment, a
//! two-phase energy-conservation game, and a bounded-hop, loop-free packet
//! relay.

pub mod cluster;
mod entropy;
pub mod packet;
pub mod quadtree;
pub mod satellite;
pub mod settings;
pub mod simulation;
