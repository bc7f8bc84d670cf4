//! Advanced building blocks: the per-stage functions that the fuser composes.
//!
//! The stable entry point is the fuser itself; these lower-level functions are exposed for
//! advanced composition and for exercising the discrimination, coupling, and fusion stages
//! in isolation.
pub use crate::weighting::coupling::{
    anchor_correlations, coupled_weights, diagnostics, CoupledWeights, Diagnostics, PairBaseline,
    PairObservation,
};
pub use crate::weighting::discrimination::{discriminate, ChannelDiscrimination};
pub use crate::weighting::fusion::weighted_rrf;
