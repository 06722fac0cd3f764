//! Access predictors.

/// Locality predictor module.
pub mod locality;
/// Markov predictor module.
pub mod markov;

use crate::types::BufferKey;
use vstd::prelude::*;

verus! {

/// A predicted next key with its confidence, the ratio `weight / total`.
///
/// Both parts are counts capped at the largest 16-bit value, so the ratio is
/// exact and lies in `[0, 1]` whenever `weight <= total`.
#[derive(Clone, Copy, Debug, PartialEq, Eq, Structural)]
pub struct Prediction {
    /// The predicted key.
    pub key: BufferKey,
    /// Numerator of the confidence.
    pub weight: u16,
    /// Denominator of the confidence.
    pub total: u16,
}

/// Caps a count at the largest 16-bit value.
pub fn saturating_count(value: u64) -> (res: u16)
    ensures
        res == crate::tracker::capped(value as nat),
{
    if value <= 65535 {
        value as u16
    } else {
        u16::MAX
    }
}

} // verus!
