//! Access tracking policies.

/// Frequency access tracker module.
pub mod frequency;
/// Recency access tracker module.
pub mod recency;
/// Properties that span tracker operations.
pub mod laws;

use vstd::prelude::*;

verus! {

/// A count capped at the largest 16-bit value.
pub open spec fn capped(value: nat) -> u16 {
    if value <= u16::MAX {
        value as u16
    } else {
        u16::MAX
    }
}

/// Caps a count at the largest 16-bit value.
pub fn saturating_score(value: u64) -> (res: u16)
    ensures
        res == capped(value as nat),
{
    if value <= 65535 {
        value as u16
    } else {
        u16::MAX
    }
}

} // verus!
