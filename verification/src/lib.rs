//! A two-dimensional flock of agents ("boids") of three types arranged in a
//! rock-paper-scissors relationship, simulated on a toroidal world with a
//! spatial hash grid for neighbor search.
//!
//! All coordinates, velocities and force weights are fixed-point integers in
//! thousandths of a world unit (the `SCALE` constant), so that every step of
//! the simulation is exact integer arithmetic with a full functional
//! specification: wrap-around, speed clamping, the force kernel, the
//! conversion rule and the grid rebuild are all proved, and one `update` step
//! is a pure function of the previous state.
#![verifier::loop_isolation(false)]

pub mod params;
pub mod num;
pub mod boid;
pub mod grid;
pub mod kernel;
pub mod flock;

pub use params::Weights;
pub use boid::Boid;
pub use flock::Flock;
