//! Core of a spawn-pursue-damage engine for a small real-time action
//! simulation: interval-based enemy spawning with randomized placement,
//! steering-based pursuit toward a moving target, and per-enemy attack
//! timers that pause and resume on contact events while dealing periodic
//! damage to the target.
//!
//! Time is measured in integer milliseconds; positions and speeds are held
//! in a fixed-point scale of [`math::POS_SCALE`] sub-units per world unit.
//! The clock, the random source, and the physics engine that produces
//! contact events are external collaborators: each tick the caller hands in
//! the elapsed delta, a fresh random word, and the drained contact events.

pub mod math;
pub mod timer;
pub mod enemies;
pub mod world;
