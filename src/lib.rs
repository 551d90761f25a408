//! A flocking simulation on fixed-point integers.
//!
//! Lengths are held in thousandths of a world unit and velocities in
//! thousandths of a world unit per second, so that every rule of the
//! flock is exact integer arithmetic with a stated rounding.
pub mod arith;
pub mod boids;
pub mod simulation;
pub mod laws;
