//! Configuration: per-channel registration and the fusion knobs.
//!
//! Every knob has a conservative default, chosen so the shipped behaviour stays close
//! to plain reciprocal-rank fusion.
use crate::double::{
    fcount, fle, flt, fone, fratio, fzero, lemma_count_finite, lemma_small_counts, Double,
};
use crate::error::ConfigError;
use crate::exact::{lemma_count_exact, lemma_one, lemma_positive_ratio, lemma_share};
use crate::keys::{BaselineMode, ChannelId};
use crate::score::{Direction, GoodScore};
use vstd::prelude::*;

verus! {

/// Per-channel discrimination knobs: how each channel's separation and absolute goodness
/// are read and turned into a weight.
#[derive(Clone, Copy, Debug, PartialEq)]
#[non_exhaustive]
pub struct DiscriminationConfig {
    /// Fraction of the result pool forming the "extreme top" whose mean is the numerator
    /// of the separation statistic (top versus bulk).
    pub top_eps: Double,
    /// Fixed number of top scores averaged for the absolute-goodness statistic.
    pub top_m: usize,
    /// Minimum number of distinct pool values required before the separation statistic is
    /// computed.
    pub min_distinct_values: usize,
    /// Floors the separation statistic's denominator toward the inter-quartile gap by this
    /// fraction, so a near-tied bulk cannot inflate the ratio.
    pub denom_floor_frac: Double,
    /// A separation read beyond this many standard deviations is winsorized before it
    /// touches the baseline.
    pub winsor_z: Double,
    /// Minimum effective baseline count before a standardized separation read is trusted.
    pub min_count_for_z: Double,
    /// Pool size below which the channel's weight is shrunk toward its own running
    /// discrimination baseline.
    pub shrink_pool_size: usize,
    /// Upper bound on the discrimination weight `g`.
    pub g_upper_bound: Double,
    /// Small positive floor on `g`, so an uncertain channel still contributes.
    pub g_floor: Double,
    /// Slope of the logistic squash that maps each standardized statistic to a `(0, 1)`
    /// factor in the discrimination weight `g`.
    pub g_slope: Double,
    /// The share of a weight's deviation from neutral that `level_shrunk` keeps once the
    /// channel's own level is divided out. Fusing does not level weights, so it does not
    /// read this knob.
    pub g_deviation_keep: Double,
}

impl Default for DiscriminationConfig {
    fn default() -> (d: DiscriminationConfig)
        ensures
            d.top_eps == fratio(1, 10),
            d.top_m == 10,
            d.min_distinct_values == 8,
            d.denom_floor_frac == fratio(3, 4),
            d.winsor_z == fratio(5, 2),
            d.min_count_for_z == fcount(5),
            d.shrink_pool_size == 20,
            d.g_upper_bound == fcount(4),
            d.g_floor == fratio(1, 4),
            d.g_slope == fone(),
            d.g_deviation_keep == fone(),
    {
        DiscriminationConfig {
            top_eps: Double::ratio(1, 10),
            top_m: 10,
            min_distinct_values: 8,
            denom_floor_frac: Double::ratio(3, 4),
            winsor_z: Double::ratio(5, 2),
            min_count_for_z: Double::of_count(5),
            shrink_pool_size: 20,
            g_upper_bound: Double::of_count(4),
            g_floor: Double::ratio(1, 4),
            g_slope: Double::one(),
            g_deviation_keep: Double::one(),
        }
    }
}

/// Channel-coupling knobs: how the redundancy discount between channels is estimated and
/// applied.
///
/// Independence is the only unconditionally recall-safe setting, so coupling is off by
/// default and every knob caps how far a discount can move weight.
#[derive(Clone, Copy, Debug, PartialEq)]
#[non_exhaustive]
pub struct CouplingConfig {
    /// Whether to apply any redundancy discount at all.
    pub enabled: bool,
    /// Caps the discount below the raw anchor point estimate.
    pub discount_cap: Double,
    /// Shrinkage intensity, in `[0, 1]`, of the redundancy correlation toward the
    /// identity.
    pub shrink_to_identity: Double,
    /// Minimum number of anchor items scored by both channels before a pair correlation
    /// counts.
    pub min_overlap: usize,
    /// Minimum effective reliability (accumulated count) before any discount applies.
    pub min_reliability: Double,
    /// Minimum number of anchor refreshes backing a pair before any discount applies.
    pub min_refreshes: Double,
    /// Maximum between-stratum variance of the anchor correlation that still allows a
    /// discount.
    pub stratum_stability_max_var: Double,
}

impl Default for CouplingConfig {
    fn default() -> (c: CouplingConfig)
        ensures
            !c.enabled,
            c.discount_cap == fratio(1, 2),
            c.shrink_to_identity == fratio(1, 2),
            c.min_overlap == 30,
            c.min_reliability == fcount(10),
            c.min_refreshes == fcount(2),
            c.stratum_stability_max_var == fratio(1, 4),
    {
        CouplingConfig {
            enabled: false,
            discount_cap: Double::ratio(1, 2),
            shrink_to_identity: Double::ratio(1, 2),
            min_overlap: 30,
            min_reliability: Double::of_count(10),
            min_refreshes: Double::of_count(2),
            stratum_stability_max_var: Double::ratio(1, 4),
        }
    }
}

/// Weighted reciprocal-rank fusion knobs.
#[derive(Clone, Copy, Debug, PartialEq)]
#[non_exhaustive]
pub struct RrfConfig {
    /// The rank constant. Larger values flatten the rank contribution.
    pub rrf_eta: Double,
}

impl Default for RrfConfig {
    fn default() -> (r: RrfConfig)
        ensures
            r.rrf_eta == fcount(60),
    {
        RrfConfig { rrf_eta: Double::of_count(60) }
    }
}

/// State-decay knobs: forgetting old observations to track corpus drift.
///
/// Off by default. The cadence is per observation: a channel's baselines decay once per
/// fuse in which the channel appears, and a pair's redundancy decays once per anchor
/// refresh.
#[derive(Clone, Copy, Debug, PartialEq)]
#[non_exhaustive]
pub struct DecayConfig {
    /// Whether decay is applied at all.
    pub enabled: bool,
    /// Per-decay-step multiplier on the effective count, in `[0, 1]`.
    pub factor: Double,
}

impl Default for DecayConfig {
    fn default() -> (d: DecayConfig)
        ensures
            !d.enabled,
            d.factor == fratio(98, 100),
    {
        DecayConfig { enabled: false, factor: Double::ratio(98, 100) }
    }
}

/// The complete fusion configuration: the grouped sub-configs plus the baseline mode.
#[derive(Clone, Copy, Debug, PartialEq)]
#[non_exhaustive]
pub struct FuseConfig {
    /// Per-channel discrimination knobs.
    pub discrimination: DiscriminationConfig,
    /// Channel-coupling knobs.
    pub coupling: CouplingConfig,
    /// Rank-fusion knobs.
    pub fusion: RrfConfig,
    /// State-decay knobs.
    pub decay: DecayConfig,
    /// Which within-channel standardization the baselines use.
    pub baseline_mode: BaselineMode,
}

impl Default for FuseConfig {
    fn default() -> (c: FuseConfig)
        ensures
            call_ensures(DiscriminationConfig::default, (), c.discrimination),
            call_ensures(CouplingConfig::default, (), c.coupling),
            call_ensures(RrfConfig::default, (), c.fusion),
            call_ensures(DecayConfig::default, (), c.decay),
            c.baseline_mode == BaselineMode::ZScore,
            valid(c),
    {
        proof {
            lemma_one();
            lemma_count_exact(2);
            lemma_count_exact(4);
            lemma_count_exact(5);
            lemma_count_exact(10);
            lemma_count_exact(60);
            lemma_positive_ratio(1, 2);
            lemma_positive_ratio(1, 4);
            lemma_positive_ratio(1, 10);
            lemma_positive_ratio(3, 4);
            lemma_positive_ratio(5, 2);
            lemma_small_counts();
            lemma_share(1, 2);
            lemma_share(1, 4);
            lemma_share(1, 10);
            lemma_share(98, 100);
            lemma_count_finite(4);
        }
        FuseConfig {
            discrimination: DiscriminationConfig::default(),
            coupling: CouplingConfig::default(),
            fusion: RrfConfig::default(),
            decay: DecayConfig::default(),
            baseline_mode: BaselineMode::ZScore,
        }
    }
}

/// Finite and above zero.
pub open spec fn is_positive(x: Double) -> bool {
    x.finite() && flt(fzero(), x)
}

/// Finite and at least zero.
pub open spec fn is_non_negative(x: Double) -> bool {
    x.finite() && fle(fzero(), x)
}

/// Finite and in `[0, 1]`.
pub open spec fn is_within_unit(x: Double) -> bool {
    x.finite() && fle(fzero(), x) && fle(x, fone())
}

fn positive(x: Double) -> (r: bool)
    ensures
        r == is_positive(x),
{
    x.is_finite() && Double::zero().lt(x)
}

/// Whether a number is finite and at least zero.
pub fn non_negative(x: Double) -> (r: bool)
    ensures
        r == is_non_negative(x),
{
    x.is_finite() && Double::zero().le(x)
}

fn within_unit(x: Double) -> (r: bool)
    ensures
        r == is_within_unit(x),
{
    x.is_finite() && Double::zero().le(x) && x.le(Double::one())
}

/// The number of knobs that have a requirement.
pub const REQUIREMENTS: usize = 19;

/// The requirement on the knob at `i`, with the field it concerns and why a value is
/// rejected.
pub open spec fn requirement(cfg: FuseConfig, i: int) -> (bool, Seq<char>, Seq<char>) {
    let d = cfg.discrimination;
    let c = cfg.coupling;
    if i == 0 {
        (d.top_eps.finite() && flt(fzero(), d.top_eps) && fle(d.top_eps, fone()), "discrimination.top_eps"@, "must be finite and in (0, 1]"@)
    } else if i == 1 {
        (d.top_m >= 1, "discrimination.top_m"@, "must be at least 1"@)
    } else if i == 2 {
        (d.min_distinct_values >= 2, "discrimination.min_distinct_values"@, "must be at least 2"@)
    } else if i == 3 {
        (is_non_negative(d.denom_floor_frac), "discrimination.denom_floor_frac"@, "must be finite and non-negative"@)
    } else if i == 4 {
        (is_positive(d.winsor_z), "discrimination.winsor_z"@, "must be finite and positive"@)
    } else if i == 5 {
        (is_positive(d.min_count_for_z), "discrimination.min_count_for_z"@, "must be finite and positive"@)
    } else if i == 6 {
        (d.shrink_pool_size >= 1, "discrimination.shrink_pool_size"@, "must be at least 1"@)
    } else if i == 7 {
        (is_non_negative(d.g_floor), "discrimination.g_floor"@, "must be finite and non-negative"@)
    } else if i == 8 {
        (is_positive(d.g_upper_bound) && fle(d.g_floor, d.g_upper_bound), "discrimination.g_upper_bound"@, "must be finite, positive, and at least g_floor"@)
    } else if i == 9 {
        (is_positive(d.g_slope), "discrimination.g_slope"@, "must be finite and positive"@)
    } else if i == 10 {
        (d.g_deviation_keep.finite(), "discrimination.g_deviation_keep"@, "must be finite"@)
    } else if i == 11 {
        (is_within_unit(c.discount_cap), "coupling.discount_cap"@, "must be finite and in [0, 1]"@)
    } else if i == 12 {
        (is_within_unit(c.shrink_to_identity), "coupling.shrink_to_identity"@, "must be finite and in [0, 1]"@)
    } else if i == 13 {
        (c.min_overlap >= 2, "coupling.min_overlap"@, "must be at least 2 (a correlation needs two points)"@)
    } else if i == 14 {
        (is_non_negative(c.min_reliability), "coupling.min_reliability"@, "must be finite and non-negative"@)
    } else if i == 15 {
        (is_non_negative(c.min_refreshes), "coupling.min_refreshes"@, "must be finite and non-negative"@)
    } else if i == 16 {
        (is_non_negative(c.stratum_stability_max_var), "coupling.stratum_stability_max_var"@, "must be finite and non-negative"@)
    } else if i == 17 {
        (is_non_negative(cfg.fusion.rrf_eta), "fusion.rrf_eta"@, "must be finite and non-negative"@)
    } else {
        (is_within_unit(cfg.decay.factor), "decay.factor"@, "must be finite and in [0, 1]"@)
    }
}

/// Every knob is inside its documented range.
pub open spec fn valid(cfg: FuseConfig) -> bool {
    forall|i: int| 0 <= i < REQUIREMENTS ==> (#[trigger] requirement(cfg, i)).0
}

/// The requirement at `i` is the first one that is not met.
pub open spec fn first_unmet(cfg: FuseConfig, i: int) -> bool {
    &&& 0 <= i < REQUIREMENTS
    &&& !requirement(cfg, i).0
    &&& forall|j: int| 0 <= j < i ==> (#[trigger] requirement(cfg, j)).0
}

/// Rejects the configuration unless `ok` holds, naming the offending field.
pub fn check(ok: bool, field: &'static str, reason: &'static str) -> (r: Result<(), ConfigError>)
    ensures
        r == if ok {
            Ok::<(), ConfigError>(())
        } else {
            Err(ConfigError::InvalidFuseConfig { field, reason })
        },
{
    if ok {
        Ok(())
    } else {
        Err(ConfigError::InvalidFuseConfig { field, reason })
    }
}

impl FuseConfig {
    /// The requirement on the knob at `i`, evaluated.
    fn knob_check(&self, i: usize) -> (knob: (bool, &'static str, &'static str))
        requires
            i < REQUIREMENTS,
        ensures
            knob.0 == requirement(*self, i as int).0,
            knob.1@ == requirement(*self, i as int).1,
            knob.2@ == requirement(*self, i as int).2,
    {
        let d = &self.discrimination;
        let c = &self.coupling;
        match i {
            0 => (d.top_eps.is_finite() && Double::zero().lt(d.top_eps) && d.top_eps.le(Double::one()), "discrimination.top_eps", "must be finite and in (0, 1]"),
            1 => (d.top_m >= 1, "discrimination.top_m", "must be at least 1"),
            2 => (d.min_distinct_values >= 2, "discrimination.min_distinct_values", "must be at least 2"),
            3 => (non_negative(d.denom_floor_frac), "discrimination.denom_floor_frac", "must be finite and non-negative"),
            4 => (positive(d.winsor_z), "discrimination.winsor_z", "must be finite and positive"),
            5 => (positive(d.min_count_for_z), "discrimination.min_count_for_z", "must be finite and positive"),
            6 => (d.shrink_pool_size >= 1, "discrimination.shrink_pool_size", "must be at least 1"),
            7 => (non_negative(d.g_floor), "discrimination.g_floor", "must be finite and non-negative"),
            8 => (positive(d.g_upper_bound) && d.g_floor.le(d.g_upper_bound), "discrimination.g_upper_bound", "must be finite, positive, and at least g_floor"),
            9 => (positive(d.g_slope), "discrimination.g_slope", "must be finite and positive"),
            10 => (d.g_deviation_keep.is_finite(), "discrimination.g_deviation_keep", "must be finite"),
            11 => (within_unit(c.discount_cap), "coupling.discount_cap", "must be finite and in [0, 1]"),
            12 => (within_unit(c.shrink_to_identity), "coupling.shrink_to_identity", "must be finite and in [0, 1]"),
            13 => (c.min_overlap >= 2, "coupling.min_overlap", "must be at least 2 (a correlation needs two points)"),
            14 => (non_negative(c.min_reliability), "coupling.min_reliability", "must be finite and non-negative"),
            15 => (non_negative(c.min_refreshes), "coupling.min_refreshes", "must be finite and non-negative"),
            16 => (non_negative(c.stratum_stability_max_var), "coupling.stratum_stability_max_var", "must be finite and non-negative"),
            17 => (non_negative(self.fusion.rrf_eta), "fusion.rrf_eta", "must be finite and non-negative"),
            _ => (within_unit(self.decay.factor), "decay.factor", "must be finite and in [0, 1]"),
        }
    }

    /// Checks every knob against its documented range, in the order of the fields.
    pub fn validate(&self) -> (r: Result<(), ConfigError>)
        ensures
            r is Ok <==> valid(*self),
            r is Err ==> exists|i: int| #[trigger]
                first_unmet(*self, i) && r->Err_0 is InvalidFuseConfig
                    && r->Err_0->InvalidFuseConfig_field@ == requirement(*self, i).1
                    && r->Err_0->InvalidFuseConfig_reason@ == requirement(*self, i).2,
    {
        let mut i: usize = 0;
        while i < REQUIREMENTS
            invariant
                i <= REQUIREMENTS,
                forall|j: int| 0 <= j < i ==> (#[trigger] requirement(*self, j)).0,
            decreases REQUIREMENTS - i,
        {
            let (ok, field, reason) = self.knob_check(i);
            match check(ok, field, reason) {
                Ok(_) => {},
                Err(e) => {
                    assert(first_unmet(*self, i as int));
                    return Err(e);
                },
            }
            i += 1;
        }
        Ok(())
    }
}

/// The base weight that declares nothing.
pub fn default_base_weight() -> (w: Double)
    ensures
        w == fone(),
{
    Double::one()
}

/// Per-channel registration.
///
/// `id` and `direction` are declared once at channel configuration rather than per query.
/// `good_score` is the optional declared reference for the absolute-goodness statistic;
/// when absent, the reference is learned from early traffic.
#[derive(Clone, Debug, PartialEq)]
pub struct ChannelConfig {
    /// The channel's identity: its stable join handle `key` plus the model-version `tag`.
    pub id: ChannelId,
    /// Whether higher or lower native scores are better.
    pub direction: Direction,
    /// The optional declared good-score reference, in native units.
    pub good_score: Option<GoodScore>,
    /// An operator-declared static weight multiplier on the channel's adaptive per-query
    /// weight. The default `1.0` declares nothing; `0.0` silences the channel's votes
    /// while its baselines keep updating.
    pub base_weight: Double,
}

impl ChannelConfig {
    /// Builds a channel registration with the neutral base weight.
    pub fn new(id: ChannelId, direction: Direction, good_score: Option<GoodScore>) -> (c:
        ChannelConfig)
        ensures
            c == (ChannelConfig { id, direction, good_score, base_weight: fone() }),
    {
        ChannelConfig { id, direction, good_score, base_weight: default_base_weight() }
    }

    /// A copy of the registration.
    pub fn duplicate(&self) -> (c: ChannelConfig)
        ensures
            c == *self,
    {
        ChannelConfig {
            id: ChannelId { key: self.id.key.clone(), tag: self.id.tag.clone() },
            direction: self.direction,
            good_score: self.good_score,
            base_weight: self.base_weight,
        }
    }

    /// Declares the static weight multiplier. The value must be finite and non-negative;
    /// building a fuser rejects anything else.
    #[must_use]
    pub fn with_base_weight(self, base_weight: Double) -> (c: ChannelConfig)
        ensures
            c == (ChannelConfig { base_weight, ..self }),
    {
        ChannelConfig {
            id: self.id,
            direction: self.direction,
            good_score: self.good_score,
            base_weight,
        }
    }
}

} // verus!
