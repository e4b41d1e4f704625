//! The library's one source of randomness.
//!
//! The simulation consumes uniform random fixed-point scalars in
//! `[0, SCALE)`; everything done with them afterwards is verified for every
//! value in that range.
use crate::fp::SCALE;
use vstd::prelude::*;

verus! {

/// Relies on rand::random: a value drawn from the standard distribution of
/// the type. Nothing can be promised of a random result.
pub assume_specification<T>[ rand::random::<T> ]() -> (r: T)
    where
        rand::distributions::Standard: rand::distributions::Distribution<T>,
;

/// A random fixed-point scalar in `[0, SCALE)`.
pub fn random_unit() -> (r: i64)
    ensures
        0 <= r < SCALE,
{
    let u: u64 = rand::random();
    (u % (SCALE as u64)) as i64
}

} // verus!
