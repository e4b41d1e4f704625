//! A soft-body ring simulation: a closed chain of point masses that repel
//! each other within a cutoff radius, relax under damped dynamics, and gain
//! new points wherever the chain stretches too thin.
//!
//! All geometry is carried in a fixed-point encoding: a scalar of type `i64`
//! stores its real value times [`fp::SCALE`], so the whole simulation is
//! exact integer arithmetic with explicit truncation and clamping, and
//! every contract pins results down to the unit.
pub mod cells;
pub mod fp;
pub mod laws;
pub mod organism;
pub mod rng;
pub mod structures;
pub mod trig;
pub mod vectors;
