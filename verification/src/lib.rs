//! Navigation meshes on an integer grid: a triangulated walkable surface, shortest
//! corridors between its triangles, taut waypoint paths through those corridors,
//! and agents that follow such paths towards a moving target.
//!
//! All coordinates are integers (fixed-point units chosen by the host), so every
//! geometric predicate is exact and every contract is stated over integers.

pub mod geometry;
pub mod mesh;
pub mod locate;
pub mod search;
pub mod funnel;
pub mod path;
pub mod motion;
pub mod agent;
pub mod scene;

