//! Ruffle is a weighted, adaptive, and calibration-free reciprocal rank fusion engine that
//! fuses the output of several retrieval channels into one ranking. It does this without
//! per-channel score calibration and without comparing one channel's raw scores against
//! another's.
//!
//! For each query, and without relevance labels, it estimates two properties from the
//! channels' own outputs: how well a channel discriminates (how far its top results stand
//! above its bulk, and how good they are against a declared, evidence-refined reference),
//! and how redundant two channels are (a rank correlation on a shared anchor that both score
//! in full). The estimates weight a rank-based fusion. Every estimate is conservative:
//! weights are not negative, redundancy shrinks toward independence, and independence is
//! assumed whenever the evidence is thin.
//!
//! All persistent state is one confidence-weighted summary, a [`RuffleState`]. Its single
//! merge operation serves as streaming update, operator prior, and cross-deployment
//! reconciliation. Every merge is gated on a required per-channel model-version tag.
//!
//! Numbers are [`Double`]s: double-precision numbers computed on their encodings, each
//! operation proved to round correctly. The two transcendental functions that the estimates
//! need, an exponential and a sine, are handed in by the caller.
//!
//! - Entry point: [`Fuser`], its [`Fused`] result, and the per-channel [`ChannelFlag`].
//! - Channel registration and ingest: [`ChannelConfig`], [`ChannelId`], the [`Score`] trait,
//!   [`Direction`], [`GoodScore`], [`ChannelInput`] / [`Items`], and the coupling [`Anchor`].
//! - Configuration: [`FuseConfig`] and its sub-configs.
//! - Persistent state: [`RuffleState`] and its summaries, reconciled through [`MergePolicy`]
//!   with [`Mismatch`] on refusal and an advisory [`Divergence`] alongside.
//! - The per-stage functions that [`Fuser`] composes are under [`components`].
//! - What holds of the library as a whole is stated and proved under [`laws`].
pub mod boundary;
pub mod closeness;
pub mod components;
pub mod config;
pub mod double;
pub mod error;
pub mod exact;
pub mod fuser;
pub mod halves;
pub mod identity;
pub mod ingest;
pub mod keys;
pub mod laws;
pub mod numbering;
pub mod numeric;
pub mod ordered;
pub mod pooling;
pub mod precision;
pub mod reals;
pub mod reconcile;
pub mod rounding;
pub mod score;
pub mod sorting;
pub mod state;
pub mod summary;
pub mod text;
pub mod weighting;

pub use config::{
    ChannelConfig, CouplingConfig, DecayConfig, DiscriminationConfig, FuseConfig, RrfConfig,
};
pub use double::Double;
pub use error::{ConfigError, Mismatch, ResumeError};
pub use fuser::{ChannelFlag, Fused, Fuser};
pub use ingest::anchor::Anchor;
pub use ingest::input::{ChannelInput, Items};
pub use keys::{BaselineMode, ChannelId, StatFingerprint, UnorderedPair};
pub use ordered::OrderedMap;
pub use score::{Direction, GoodScore, Score};
pub use state::{ChannelSummary, Divergence, MergePolicy, PairSummary, RuffleState};
pub use summary::MeanVar;
