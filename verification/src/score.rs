//! Channel scores, orientation, and sanitization.
//!
//! A channel's native score is whatever scalar it produces, converted to a canonical
//! [`Double`] through the [`Score`] trait. Everything downstream works in canonical
//! higher-is-better units: orientation is applied once at ingest by [`orient`], and
//! non-finite values are dropped by [`sanitize`] before they can corrupt a streaming
//! mean.
use crate::double::{fcount, fdiv, flt, fneg, fsub, Double};
use vstd::prelude::*;

verus! {

/// A channel's native score, convertible to a canonical [`Double`].
///
/// There are deliberately no implementations for bare numbers: the caller wraps a
/// number in a type that declares what the score means.
pub trait Score {
    /// This score in the channel's native units and native orientation.
    fn value(&self) -> Double;
}

/// Whether a higher native score means a better match, or a lower one.
///
/// Declared once per channel at configuration, never inferred from data.
#[derive(Clone, Copy, Debug, PartialEq, Eq, Hash, Structural)]
pub enum Direction {
    /// A higher native score is a better match (already canonical).
    HigherIsBetter,
    /// A lower native score is a better match (negated at ingest).
    LowerIsBetter,
}

/// An operator-declared reference for how good a channel's scores are in absolute terms,
/// in the channel's native units (before orientation).
#[derive(Clone, Copy, Debug, PartialEq)]
pub struct GoodScore {
    /// The top score a typical, unremarkable query produces. Sets the reference location.
    pub typical: Double,
    /// The score a genuinely good match reaches. The gap from `typical` to `good` sets
    /// the reference scale.
    pub good: Double,
    /// A pseudo-count for how firmly the declaration holds before observed top scores
    /// refine it.
    pub weight: Double,
}

/// The oriented reference location and scale returned by [`GoodScore::oriented`].
#[derive(Clone, Copy, Debug, PartialEq)]
pub struct OrientedReference {
    /// The oriented `typical` anchor.
    pub mu_ref: Double,
    /// Half the gap from the oriented `typical` to the oriented `good`.
    pub sigma_ref: Double,
}

/// A raw score oriented to higher-is-better.
pub open spec fn oriented(dir: Direction, raw: Double) -> Double {
    match dir {
        Direction::HigherIsBetter => raw,
        Direction::LowerIsBetter => fneg(raw),
    }
}

/// The scale of a declared reference under a direction.
pub open spec fn reference_scale(good: GoodScore, dir: Direction) -> Double {
    fdiv(fsub(oriented(dir, good.good), oriented(dir, good.typical)), fcount(2))
}

/// A declared reference orients to a usable location and scale: both anchors are finite
/// and the scale is finite and positive.
pub open spec fn usable(good: GoodScore, dir: Direction) -> bool {
    &&& good.typical.finite()
    &&& good.good.finite()
    &&& reference_scale(good, dir).finite()
    &&& flt(Double { bits: 0 }, reference_scale(good, dir))
}

impl GoodScore {
    /// Builds a reference from native-unit anchors and a pseudo-count. The anchors are
    /// not checked here.
    pub fn new(typical: Double, good: Double, weight: Double) -> (g: GoodScore)
        ensures
            g.typical == typical,
            g.good == good,
            g.weight == weight,
    {
        GoodScore { typical, good, weight }
    }

    /// The oriented reference location and scale under `dir`, where the declaration is
    /// usable.
    #[must_use]
    pub fn oriented(&self, dir: Direction) -> (reference: Option<OrientedReference>)
        ensures
            reference is Some <==> usable(*self, dir),
            reference is Some ==> reference->0.mu_ref == oriented(dir, self.typical)
                && reference->0.sigma_ref == reference_scale(*self, dir),
    {
        let typical = match sanitize(self.typical) {
            Some(x) => x,
            None => {
                return None;
            },
        };
        let good = match sanitize(self.good) {
            Some(x) => x,
            None => {
                return None;
            },
        };
        let mu = orient(dir, typical);
        let g = orient(dir, good);
        let sigma = (g - mu) / Double::of_count(2);
        if Double::from_bits(0).lt(sigma) && sigma.is_finite() {
            Some(OrientedReference { mu_ref: mu, sigma_ref: sigma })
        } else {
            None
        }
    }
}

/// Orients a raw native score to canonical higher-is-better.
///
/// Passes a `HigherIsBetter` score through unchanged and negates a `LowerIsBetter`
/// score.
pub fn orient(dir: Direction, raw: Double) -> (score: Double)
    ensures
        score == oriented(dir, raw),
{
    match dir {
        Direction::HigherIsBetter => raw,
        Direction::LowerIsBetter => raw.negated(),
    }
}

/// Drops a non-finite value at ingest.
pub fn sanitize(x: Double) -> (kept: Option<Double>)
    ensures
        kept == if x.finite() {
            Some(x)
        } else {
            None
        },
{
    if x.is_finite() {
        Some(x)
    } else {
        None
    }
}

/// Orienting twice gives the raw score back.
pub proof fn lemma_orient_involution(dir: Direction, raw: Double)
    ensures
        oriented(dir, oriented(dir, raw)) == raw,
{
}

/// Orientation keeps finite scores finite and no others.
pub proof fn lemma_orient_finite(dir: Direction, raw: Double)
    ensures
        oriented(dir, raw).finite() == raw.finite(),
{
}

/// A lower-is-better channel orders its scores the other way round.
pub proof fn lemma_orient_order(x: Double, y: Double)
    ensures
        flt(oriented(Direction::LowerIsBetter, x), oriented(Direction::LowerIsBetter, y)) == flt(
            y,
            x,
        ),
        flt(oriented(Direction::HigherIsBetter, x), oriented(Direction::HigherIsBetter, y)) == flt(
            x,
            y,
        ),
{
}

} // verus!
