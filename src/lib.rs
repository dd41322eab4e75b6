//! Top-N majority voting over candidate track identities, with a distance limit.

pub mod distance;
pub mod laws;
pub mod topn;

pub use distance::{f32_bits_le, is_nan_bits};
pub use topn::{ObservationMetricResult, TopNVoting, TopNVotingElt, Voting};
