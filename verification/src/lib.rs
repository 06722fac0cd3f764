//! Memory tiering primitives for LLM inference backends: placement of
//! buffers across VRAM, host memory and storage, access tracking, access
//! prediction, prefetch decisions and workload profiles.

/// Finite sums over maps and ordered sequences used by the specifications.
pub mod maplib;
/// Access prediction.
pub mod predictor;
/// Prefetch orchestration.
pub mod prefetch;
/// Profile persistence.
pub mod profile;
/// Memory tier management.
pub mod tier;
/// Access tracking.
pub mod tracker;
/// Shared public types.
pub mod types;

pub use profile::Profile;
pub use tier::TierManager;
pub use types::{AccessStats, BufferKey, TierError, TierLevel};
