//! Statistical randomness indicators for binary sequences.
//!
//! The analyzer wraps a validated, immutable bit sequence and derives
//! occurrence probability, inter-one gap structure, empirical density and
//! survival distributions, an independence-consistency check, threshold-based
//! burst segmentation, and the exact moments behind a burstiness score.
//! All ratios are reported exactly, as integer numerator/denominator pairs.

use vstd::prelude::*;

pub mod bitspec;
pub mod counting;
pub mod loader;
pub mod randomness;

verus! {

/// An exact non-negative rational value `num / den`, with `den >= 1`.
///
/// The analyzer reports every probability and frequency in this form; a
/// caller that wants a floating-point reading divides the two fields.
#[derive(Clone, Copy, Debug, PartialEq, Eq, Structural)]
pub struct Ratio {
    pub num: u128,
    pub den: u128,
}

} // verus!
