//! Crowd simulation with verified flow-field pathfinding and a social-force
//! model.
//!
//! A rectangular world area is covered by dense grid maps.  Obstacle and
//! target shapes are rasterized onto boolean cell maps, a wavefront
//! propagation turns them into a per-cell distance-to-target map, and a
//! vector field derived from that map steers point agents.  Per step, each
//! agent accumulates a motivation force (toward the field's desired
//! velocity), an exponential repulsion from obstacles and from other agents,
//! and a contact term when bodies overlap; forces are integrated into
//! velocity (clamped to the desired speed) and position, and agents that
//! reach a target are removed.
//!
//! All world quantities are fixed-point: an `i64` counts thousandths of a
//! world unit (see `geom::FIX_ONE`).  Cell distances in the proximity map
//! count thousandths of an axis step, so a diagonal step costs 1414.

pub mod geom;
pub mod components;
pub mod models;
pub mod grid;
pub mod utils;
pub mod pathfinding;
pub mod systems;
pub mod simulation;
pub mod overlay;
