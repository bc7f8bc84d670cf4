//! The weighting stages: discrimination, coupling, and rank fusion.
pub mod coupling;
pub mod discrimination;
pub mod fusion;
pub mod linalg;
