//! The single mergeable summary: confidence-weighted streaming mean and variance.
//!
//! Everything that is persisted is one of these. Given a count-weighted merge, three
//! operations collapse into one: a streaming update is a merge with a count-1 summary,
//! an operator prior is a hand-written summary with a pseudo-count, and reconciliation
//! is a merge of several. The count is a number rather than an integer to support
//! pseudo-counts and decay.
use crate::double::{
    fadd, fclamp, fdiv, feq, fle, flt, fmax, fmul, fone, froot, fsub, fzero, lemma_add_commutes,
    lemma_mul_commutes, lemma_square_symmetric, Double,
};
use vstd::prelude::*;

verus! {

/// Confidence-weighted streaming mean and variance.
///
/// Tracks an effective `count`, a running `mean`, and `m2` (the sum of squared deviations
/// from the mean); the population variance is `m2 / count`.
#[derive(Clone, Copy, Debug, PartialEq)]
pub struct MeanVar {
    /// Effective observation count. Fractional to support pseudo-counts and decay.
    pub count: Double,
    /// Running mean of the observations.
    pub mean: Double,
    /// Sum of squared deviations from the mean.
    pub m2: Double,
}

/// A summary of nothing.
pub open spec fn empty_summary() -> MeanVar {
    MeanVar { count: fzero(), mean: fzero(), m2: fzero() }
}

/// A summary of one observation.
pub open spec fn single(x: Double) -> MeanVar {
    MeanVar { count: fone(), mean: x, m2: fzero() }
}

/// A prior stands for evidence: its pseudo-count is positive and all parts are finite.
pub open spec fn prior_usable(mean: Double, variance: Double, pseudo_count: Double) -> bool {
    pseudo_count.finite() && flt(fzero(), pseudo_count) && mean.finite() && variance.finite()
}

/// The summary that a prior seeds.
pub open spec fn prior(mean: Double, variance: Double, pseudo_count: Double) -> MeanVar {
    if prior_usable(mean, variance, pseudo_count) {
        MeanVar {
            count: pseudo_count,
            mean,
            m2: fmul(fmax(variance, fzero()), pseudo_count),
        }
    } else {
        empty_summary()
    }
}

/// Two summaries pooled by the parallel formulas for mean and squared deviation.
pub open spec fn pooled(a: MeanVar, b: MeanVar) -> MeanVar {
    let n = fadd(a.count, b.count);
    if fle(n, fzero()) {
        empty_summary()
    } else if a.backs_nothing() {
        b
    } else if b.backs_nothing() {
        a
    } else {
        let delta = fsub(b.mean, a.mean);
        MeanVar {
            count: n,
            mean: fadd(a.mean, fmul(delta, fdiv(b.count, n))),
            m2: fadd(
                fadd(a.m2, b.m2),
                fmul(fmul(delta, delta), fdiv(fmul(a.count, b.count), n)),
            ),
        }
    }
}

/// A summary with one observation folded in.
pub open spec fn pushed(s: MeanVar, x: Double) -> MeanVar {
    if x.finite() {
        pooled(s, single(x))
    } else {
        s
    }
}

/// A decay factor held to `[0, 1]`; one that is not finite forgets everything.
pub open spec fn kept_fraction(factor: Double) -> Double {
    if factor.finite() {
        fclamp(factor, fzero(), fone())
    } else {
        fzero()
    }
}

/// A summary with its confidence scaled down.
pub open spec fn decayed(s: MeanVar, factor: Double) -> MeanVar {
    MeanVar {
        count: fmul(s.count, kept_fraction(factor)),
        mean: s.mean,
        m2: fmul(s.m2, kept_fraction(factor)),
    }
}

impl MeanVar {
    /// Neither a count nor a spread stands behind the mean.
    pub open spec fn backs_nothing(self) -> bool {
        feq(self.count, fzero()) && feq(self.m2, fzero())
    }

    /// The population variance.
    pub open spec fn spread(self) -> Double {
        if fle(self.count, fzero()) {
            fzero()
        } else {
            fmax(fdiv(self.m2, self.count), fzero())
        }
    }

    /// The population standard deviation.
    pub open spec fn deviation(self) -> Double {
        froot(self.spread())
    }

    /// The distance of `x` from the mean in standard deviations.
    pub open spec fn standardized(self, x: Double) -> Double {
        fdiv(fsub(x, self.mean), self.deviation())
    }

    /// A reading can be standardized: the count and the deviation are positive, the
    /// deviation finite, and so is the result.
    pub open spec fn standardizes(self, x: Double) -> bool {
        &&& !fle(self.count, fzero())
        &&& self.deviation().finite()
        &&& !fle(self.deviation(), fzero())
        &&& self.standardized(x).finite()
    }

    /// An empty summary: zero count, zero mean, zero `m2`.
    pub fn new() -> (s: MeanVar)
        ensures
            s == empty_summary(),
    {
        MeanVar { count: Double::zero(), mean: Double::zero(), m2: Double::zero() }
    }

    /// Seeds a prior summary from a mean, a population variance, and a pseudo-count.
    ///
    /// A non-positive or non-finite pseudo-count, or a non-finite mean or variance,
    /// yields an empty summary; a negative variance is clamped to zero.
    pub fn from_prior(mean: Double, variance: Double, pseudo_count: Double) -> (s: MeanVar)
        ensures
            s == prior(mean, variance, pseudo_count),
    {
        if !pseudo_count.is_finite() || pseudo_count.le(Double::zero()) || !mean.is_finite()
            || !variance.is_finite() {
            return MeanVar::new();
        }
        MeanVar {
            count: pseudo_count,
            mean,
            m2: variance.max(Double::zero()) * pseudo_count,
        }
    }

    /// Folds one observation in, equivalent to merging a count-1 summary. A non-finite
    /// `x` is ignored.
    pub fn push(&mut self, x: Double)
        ensures
            *final(self) == pushed(*old(self), x),
    {
        if !x.is_finite() {
            return;
        }
        let one = MeanVar { count: Double::one(), mean: x, m2: Double::zero() };
        *self = MeanVar::merge(self, &one);
    }

    fn is_blank(&self) -> (r: bool)
        ensures
            r == self.backs_nothing(),
    {
        self.count == Double::zero() && self.m2 == Double::zero()
    }

    /// Merges two summaries. With either operand empty the result is the other operand;
    /// a combined count of zero or less yields an empty summary.
    #[must_use]
    pub fn merge(a: &MeanVar, b: &MeanVar) -> (s: MeanVar)
        ensures
            s == pooled(*a, *b),
    {
        let n = a.count + b.count;
        if n.le(Double::zero()) {
            return MeanVar::new();
        }
        if a.is_blank() {
            return *b;
        }
        if b.is_blank() {
            return *a;
        }
        let delta = b.mean - a.mean;
        let mean = a.mean + delta * (b.count / n);
        let m2 = a.m2 + b.m2 + delta * delta * (a.count * b.count / n);
        MeanVar { count: n, mean, m2 }
    }

    /// Folds another summary into this one in place.
    pub fn merge_in(&mut self, other: &MeanVar)
        ensures
            *final(self) == pooled(*old(self), *other),
    {
        *self = MeanVar::merge(self, other);
    }

    /// The effective observation count.
    #[must_use]
    pub fn count(&self) -> (n: Double)
        ensures
            n == self.count,
    {
        self.count
    }

    /// The running mean. Zero for an empty summary.
    #[must_use]
    pub fn mean(&self) -> (x: Double)
        ensures
            x == self.mean,
    {
        self.mean
    }

    /// The population variance `m2 / count`, zero where the count is not positive.
    #[must_use]
    pub fn variance(&self) -> (v: Double)
        ensures
            v == self.spread(),
            !v.nan(),
            !flt(v, fzero()),
    {
        if self.count.le(Double::zero()) {
            Double::zero()
        } else {
            (self.m2 / self.count).max(Double::zero())
        }
    }

    /// The population standard deviation `sqrt(variance)`.
    #[must_use]
    pub fn std_dev(&self) -> (s: Double)
        ensures
            s == self.deviation(),
    {
        self.variance().sqrt()
    }

    /// Standardizes `x` against this baseline: `(x - mean) / std`.
    ///
    /// Returns `None` when the count is non-positive, when the standard deviation is not
    /// finite and strictly positive, or when the result itself is not finite.
    #[must_use]
    pub fn zscore(&self, x: Double) -> (z: Option<Double>)
        ensures
            z is Some <==> self.standardizes(x),
            z is Some ==> z->0 == self.standardized(x) && z->0.finite(),
    {
        if self.count.le(Double::zero()) {
            return None;
        }
        let s = self.std_dev();
        if !s.is_finite() || s.le(Double::zero()) {
            return None;
        }
        let z = (x - self.mean) / s;
        if z.is_finite() {
            Some(z)
        } else {
            None
        }
    }

    /// Reduces confidence by scaling the count and `m2` by `factor`, leaving the mean
    /// unchanged. `factor` is clamped to `[0, 1]`, and a non-finite one is treated as
    /// zero.
    pub fn decay(&mut self, factor: Double)
        ensures
            *final(self) == decayed(*old(self), factor),
    {
        let f = decay_factor(factor);
        self.count = self.count * f;
        self.m2 = self.m2 * f;
    }
}

impl Default for MeanVar {
    fn default() -> (s: MeanVar)
        ensures
            s == empty_summary(),
    {
        MeanVar::new()
    }
}

/// The clamped decay multiplier: `factor` held to `[0, 1]`, a non-finite factor treated
/// as zero.
pub fn decay_factor(factor: Double) -> (f: Double)
    ensures
        f == kept_fraction(factor),
{
    if factor.is_finite() {
        factor.clamp(Double::zero(), Double::one())
    } else {
        Double::zero()
    }
}

/// Merging with an empty operand gives the other operand back, whichever side it is on.
pub proof fn lemma_merge_empty(s: MeanVar)
    requires
        flt(fzero(), s.count),
    ensures
        pooled(empty_summary(), s) == s,
        pooled(s, empty_summary()) == s,
{
    crate::double::lemma_add_zero(s.count);
    lemma_add_commutes(s.count, fzero());
}

/// The pooled count and squared deviation do not depend on the order of the operands.
pub proof fn lemma_merge_commutes(a: MeanVar, b: MeanVar)
    ensures
        pooled(a, b).count == pooled(b, a).count,
        pooled(a, b).m2 == pooled(b, a).m2,
{
    lemma_add_commutes(a.count, b.count);
    lemma_add_commutes(a.m2, b.m2);
    lemma_mul_commutes(a.count, b.count);
    lemma_square_symmetric(a.mean, b.mean);
    if a.backs_nothing() && b.backs_nothing() {
        crate::double::lemma_add_zeros(a.count, b.count);
    }
}

/// Decay never moves the mean.
pub proof fn lemma_decay_keeps_mean(s: MeanVar, factor: Double)
    ensures
        decayed(s, factor).mean == s.mean,
{
}

} // verus!
