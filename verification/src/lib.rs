//! Pathfinding and worker-movement simulation core for a tile-based
//! real-time-strategy game: a tile map with walkability queries, an A*
//! pathfinder over 8-directional moves with corner-cutting prevention, a
//! path travel-time estimator, and the per-tick motion and collision
//! resolution for mobile workers.

pub mod astar;
pub mod conf;
pub mod frontier;
pub mod geometry;
pub mod ids;
pub mod map;
pub mod math;
pub mod server;
pub mod worker;
