//! Clustering of per-year country records by socio-economic indicators,
//! with cross-year cluster-transition accounting.
//!
//! Features are fixed-point integers: a raw real value is represented as
//! `value * SCALE` rounded to an integer by the caller. All arithmetic in
//! this crate is exact integer arithmetic over that representation.

pub mod clustering;
pub mod data_loader;
pub mod preprocessing;
pub mod transitions;

use vstd::prelude::*;

verus! {

/// Fixed-point scale: the real value 1.0 is represented as `SCALE`.
pub const SCALE: i64 = 1_000_000;

} // verus!
