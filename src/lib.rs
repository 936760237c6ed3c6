//! A turn-based agent for a toroidal pellet-collection maze: the world model
//! (grid, units, pellets), a breadth-first nearest-pellet search and the
//! per-turn decision step.

pub mod agent;
pub mod pac;
pub mod pellet;
pub mod store;
pub mod world;
