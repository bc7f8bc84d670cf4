//! Ingest: one query's channel inputs, and the anchor for coupling estimation.
pub mod anchor;
pub mod input;
