//! What holds of the library as a whole.
//!
//! Each law is a proof over the models that the functions' contracts speak of.
pub mod accuracy;
pub mod admission;
pub mod affine;
pub mod agreement;
pub mod anchors;
pub mod clipping;
pub mod contributions;
pub mod correlating;
pub mod discounting;
pub mod distances;
pub mod factoring;
pub mod filtering;
pub mod fusing;
pub mod grouping;
pub mod independence;
pub mod ingesting;
pub mod listing;
pub mod mapping;
pub mod merging;
pub mod moments;
pub mod neutral;
pub mod norms;
pub mod outcome;
pub mod permuting;
pub mod pools;
pub mod presence;
pub mod ranking;
pub mod reconciling;
pub mod renaming;
pub mod reordering;
pub mod residuals;
pub mod seeding;
pub mod separating;
pub mod shrinking;
pub mod solving;
pub mod stateless;
pub mod sums;
pub mod tilting;
pub mod units;
pub mod weights;
pub mod wording;
