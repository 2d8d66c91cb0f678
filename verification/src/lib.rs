//! evosim — the integer core of an idle evolution sandbox: network topology
//! validation, input layouts, creature actions and column removal, the event
//! log, save checks, spatial hashing, species lineage, the grass scatter
//! pass with its tile and mip-pyramid bookkeeping, the hierarchical profiler, snapshot packing and the state hash.

pub mod text;
pub mod constants;
pub mod creature;
pub mod brain;
pub mod nn_layout;
pub mod events;
pub mod save;
pub mod rng;
pub mod grid;
pub mod species;
pub mod world;
pub mod snapshot;
pub mod world_hash;
pub mod pyramid;
pub mod bitset;
pub mod grass;
pub mod scatter;
pub mod classify;
pub mod heapless;
pub mod profiler;
