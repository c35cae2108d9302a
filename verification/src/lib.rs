//! Navigation core for autonomous pedestrian agents in a 2-D world.
//!
//! The world is measured in fixed-point coordinates: 1000 ticks of a
//! coordinate are one world unit, and one world unit is one cell of the
//! implicit search grid.  The library provides a grid pathfinder, a
//! line-of-sight path simplifier, a plan-execution state machine with
//! stuck detection, and a local-avoidance steering model.  A host is
//! expected to own physics integration and rendering; it feeds positions
//! and velocities in and turns the decisions made here into motion.

pub mod geom;
pub mod world;
pub mod simplify;
pub mod openset;
pub mod search;
pub mod person;
pub mod plan;
pub mod steer;
pub mod building;
pub mod controls;

pub use geom::Vec2;
