//! Per-channel discrimination: how well each channel ranks on this query.
//!
//! Two statistics combine into one weight. Separation measures whether the channel can
//! rank at all: a scale-free, shift-free ratio of the extreme top's elevation to the
//! bulk's own scale. Absolute goodness measures whether the channel found anything good:
//! this query's top against the channel's own good-score reference. They enter a single
//! AND-like map, so the weight is high only when both hold.
//!
//! The one transcendental function of the map, the exponential, is handed in by the
//! caller; everything around it is computed here.
use crate::config::DiscriminationConfig;
use crate::double::{
    fadd, fceil, fclamp, fcount, fdiv, feq, ffloor, fle, flt, fmax, fmin, fmul, fneg, fone, fratio,
    fsub, fzero, Double,
};
use crate::ingest::input::Items;
use crate::numeric::{ascending, fsum, sorted_ascending, sum_between};
use crate::score::sanitize;
use crate::summary::MeanVar;
use vstd::prelude::*;

verus! {

/// How well one channel ranked on one query: a combined discrimination weight plus the
/// raw statistics behind it.
#[derive(Clone, Copy, Debug, PartialEq)]
#[non_exhaustive]
pub struct ChannelDiscrimination {
    /// The channel's combined discrimination weight, near `1.0` when the channel performs
    /// at its own norm.
    pub g: Double,
    /// The raw top-vs-bulk separation statistic, or `None` when the score pool is too
    /// degenerate to measure it.
    pub raw_separation: Option<Double>,
    /// The fixed-count top average exported for good-score reference refinement. `None`
    /// for a ranks-only or empty channel, when the average is not finite, or when the
    /// pool is shallower than the fixed count.
    pub top_m_average: Option<Double>,
    /// Whether the bulk had too little scale to measure separation, so the read was
    /// floored.
    pub degenerate_separation: bool,
    /// Whether the good-score reference was too sparse to standardize against.
    pub reference_cold: bool,
}

/// What one query's pool says before it is mapped to a weight.
#[derive(Clone, Copy, Debug, PartialEq)]
pub struct PoolReading {
    /// The raw separation statistic.
    pub raw_separation: Option<Double>,
    /// Whether the separation denominator was floored or collapsed.
    pub degenerate_separation: bool,
    /// The separation read standardized against the channel's baseline, or zero.
    pub separation_z: Double,
    /// The fixed-count top average, where it is defined.
    pub top_m_average: Option<Double>,
    /// The top average standardized against the channel's reference.
    pub goodness_z: Option<Double>,
    /// How far the pool's size backs its statistics.
    pub pool_factor: Double,
    /// How far the reference's count backs the goodness read.
    pub reference_backing: Double,
}

/// The neutral value of one logistic factor.
pub open spec fn neutral_factor() -> Double {
    fratio(1, 2)
}

/// The neutral read: average weight and no usable statistics.
pub open spec fn neutral_read() -> ChannelDiscrimination {
    ChannelDiscrimination {
        g: fone(),
        raw_separation: None,
        top_m_average: None,
        degenerate_separation: false,
        reference_cold: false,
    }
}

/// The scores of a pool.
pub open spec fn pool_scores<Id>(pool: Seq<(Id, Double)>) -> Seq<Double> {
    Seq::new(pool.len(), |i: int| pool[i].1)
}

/// The number of places among the first `n` numbers at which a new value starts.
pub open spec fn distinct(s: Seq<Double>, n: int) -> int
    decreases n,
{
    if n <= 1 {
        1
    } else if feq(s[n - 1], s[n - 2]) {
        distinct(s, n - 1)
    } else {
        distinct(s, n - 1) + 1
    }
}

/// The quantile of a sorted sequence by linear interpolation between order statistics.
pub open spec fn quantile(s: Seq<Double>, p: Double) -> Double {
    let n = s.len() as int;
    let h = fmul(fsub(fcount(n), fone()), p);
    let low = ffloor(h);
    if n == 1 {
        s[0]
    } else if low + 1 < n {
        fadd(s[low], fmul(fsub(h, fcount(low)), fsub(s[low + 1], s[low])))
    } else {
        s[n - 1]
    }
}

/// The mean of the last `k` numbers of a sorted sequence.
pub open spec fn top_mean(s: Seq<Double>, k: int) -> Double {
    fdiv(fsum(s, s.len() - k, s.len() as int), fcount(k))
}

/// How many scores form the extreme top of a pool.
pub open spec fn top_count(n: int, cfg: DiscriminationConfig) -> int {
    let k = fceil(fmul(cfg.top_eps, fcount(n)));
    if k < 1 {
        1
    } else if k > n {
        n
    } else {
        k
    }
}

/// The separation denominator: the lower bulk's gap, floored toward the inter-quartile
/// range.
pub open spec fn bulk_gap(s: Seq<Double>) -> Double {
    fsub(quantile(s, fratio(1, 2)), quantile(s, fratio(1, 10)))
}

/// The floor of the separation denominator.
pub open spec fn gap_floor(s: Seq<Double>, cfg: DiscriminationConfig) -> Double {
    fmul(
        cfg.denom_floor_frac,
        fsub(quantile(s, fratio(3, 4)), quantile(s, fratio(1, 4))),
    )
}

/// The extreme top's elevation over the median, in units of the bulk's scale.
pub open spec fn separation_ratio(s: Seq<Double>, cfg: DiscriminationConfig) -> Double {
    fdiv(
        fsub(top_mean(s, top_count(s.len() as int, cfg)), quantile(s, fratio(1, 2))),
        fmax(bulk_gap(s), gap_floor(s, cfg)),
    )
}

/// The separation statistic is defined on a sorted pool: it has enough distinct values,
/// the denominator does not collapse next to the bulk's span, and the ratio is finite.
pub open spec fn separation_defined(s: Seq<Double>, cfg: DiscriminationConfig) -> bool {
    let span = fsub(quantile(s, fratio(3, 4)), quantile(s, fratio(1, 10)));
    &&& distinct(s, s.len() as int) >= cfg.min_distinct_values
    &&& !fle(fmax(bulk_gap(s), gap_floor(s, cfg)), fmul(fratio(1, 1_000_000_000), span))
    &&& separation_ratio(s, cfg).finite()
}

/// The separation statistic of a sorted pool, and whether it was floored or is undefined.
pub open spec fn separation_of(s: Seq<Double>, cfg: DiscriminationConfig) -> (
    Option<Double>,
    bool,
) {
    if separation_defined(s, cfg) {
        (Some(separation_ratio(s, cfg)), flt(bulk_gap(s), gap_floor(s, cfg)))
    } else {
        (None, true)
    }
}

/// How many scores the top average is taken over.
pub open spec fn averaged(n: int, cfg: DiscriminationConfig) -> int {
    let m = if cfg.top_m < 1 {
        1
    } else {
        cfg.top_m as int
    };
    if m < n {
        m
    } else {
        n
    }
}

/// What a pool says about a channel with the given baselines.
pub open spec fn reading(
    scores: Seq<Double>,
    separation: MeanVar,
    reference: MeanVar,
    cfg: DiscriminationConfig,
) -> PoolReading {
    let n = scores.len() as int;
    let s = ascending(scores);
    let raw = separation_of(s, cfg).0;
    let top = top_mean(s, averaged(n, cfg));
    PoolReading {
        raw_separation: raw,
        degenerate_separation: separation_of(s, cfg).1,
        separation_z: if raw is Some && fle(cfg.min_count_for_z, separation.count)
            && separation.standardizes(raw->0) {
            separation.standardized(raw->0)
        } else {
            fzero()
        },
        top_m_average: if n >= cfg.top_m && top.finite() {
            Some(top)
        } else {
            None
        },
        goodness_z: if reference.standardizes(top) {
            Some(reference.standardized(top))
        } else {
            None
        },
        pool_factor: fmin(fdiv(fcount(n), fcount(cfg.shrink_pool_size as int)), fone()),
        reference_backing: fmin(fdiv(reference.count, cfg.min_count_for_z), fone()),
    }
}

/// The argument of the exponential in the logistic squash of `z` with slope `k`.
pub open spec fn squash_argument(z: Double, k: Double) -> Double {
    fmul(fneg(k), z)
}

/// The logistic squash, given the exponential of its argument.
pub open spec fn squashed(e: Double) -> Double {
    fdiv(fone(), fadd(fone(), e))
}

/// An evidence weight held to `[0, 1]`; one that is not a number counts as one.
pub open spec fn held(lambda: Double) -> Double {
    fmax(fmin(lambda, fone()), fzero())
}

/// A logistic factor shrunk toward its neutral midpoint by the evidence behind it.
pub open spec fn shrunk(lambda: Double, e: Double) -> Double {
    let l = held(lambda);
    fadd(fmul(l, squashed(e)), fmul(fsub(fone(), l), neutral_factor()))
}

/// The two factors multiplied, scaled so that both at their midpoint give one, and
/// bounded.
pub open spec fn weight_of(
    separation_factor: Double,
    goodness_factor: Double,
    cfg: DiscriminationConfig,
) -> Double {
    fmax(
        fmin(
            fmul(fmul(fcount(4), separation_factor), goodness_factor),
            cfg.g_upper_bound,
        ),
        cfg.g_floor,
    )
}

/// The discrimination of a reading, given the exponentials of the two squash arguments.
pub open spec fn discrimination(
    r: PoolReading,
    cfg: DiscriminationConfig,
    separation_exp: Double,
    goodness_exp: Double,
) -> ChannelDiscrimination {
    let goodness_factor = if r.goodness_z is Some {
        shrunk(fmul(r.pool_factor, r.reference_backing), goodness_exp)
    } else {
        neutral_factor()
    };
    ChannelDiscrimination {
        g: weight_of(shrunk(r.pool_factor, separation_exp), goodness_factor, cfg),
        raw_separation: r.raw_separation,
        top_m_average: r.top_m_average,
        degenerate_separation: r.degenerate_separation,
        reference_cold: r.goodness_z is None,
    }
}

/// A channel has scores to read.
pub open spec fn readable<Id>(items: Items<Id>) -> bool {
    items is Scored && items->Scored_0@.len() > 0
}

/// What a channel's items say.
pub open spec fn items_reading<Id>(
    items: Items<Id>,
    separation: MeanVar,
    reference: MeanVar,
    cfg: DiscriminationConfig,
) -> PoolReading {
    reading(pool_scores(items->Scored_0@), separation, reference, cfg)
}

/// A discrimination that `discriminate` may return with the exponential `exp`.
pub open spec fn discriminated<Id, E: Fn(Double) -> Double>(
    items: Items<Id>,
    separation: MeanVar,
    reference: MeanVar,
    cfg: DiscriminationConfig,
    exp: E,
    d: ChannelDiscrimination,
) -> bool {
    if !readable(items) {
        d == neutral_read()
    } else {
        let r = items_reading(items, separation, reference, cfg);
        exists|separation_exp: Double, goodness_exp: Double|
            #![trigger discrimination(r, cfg, separation_exp, goodness_exp)]
            {
                &&& call_ensures(
                    exp,
                    (squash_argument(r.separation_z, cfg.g_slope),),
                    separation_exp,
                )
                &&& r.goodness_z is Some ==> call_ensures(
                    exp,
                    (squash_argument(r.goodness_z->0, cfg.g_slope),),
                    goodness_exp,
                )
                &&& d == discrimination(r, cfg, separation_exp, goodness_exp)
            }
    }
}

/// Scores how well a channel ranked on one query, from its scores and two running
/// baselines.
///
/// `exp` is the exponential function. A ranks-only channel, and a scored one with an
/// empty pool, return the neutral weight with no statistics.
#[must_use]
pub fn discriminate<Id, E: Fn(Double) -> Double>(
    items: &Items<Id>,
    separation: &MeanVar,
    reference: &MeanVar,
    cfg: &DiscriminationConfig,
    exp: &E,
) -> (d: ChannelDiscrimination)
    requires
        forall|x: Double| call_requires(*exp, (x,)),
    ensures
        discriminated(*items, *separation, *reference, *cfg, *exp, d),
{
    let r = match read_items(items, separation, reference, cfg) {
        Some(r) => r,
        None => {
            return neutral();
        },
    };
    let separation_exp = exp(squash_input(r.separation_z, cfg.g_slope));
    let goodness_exp = match r.goodness_z {
        Some(z) => exp(squash_input(z, cfg.g_slope)),
        None => Double::zero(),
    };
    let ghost ghost_reading = items_reading(*items, *separation, *reference, *cfg);
    assert(r == ghost_reading);
    discriminate_with(&r, cfg, separation_exp, goodness_exp)
}

/// The discrimination of a reading, given the exponentials of the two squash arguments.
/// Without a goodness read the second one is not looked at.
pub fn discriminate_with(
    r: &PoolReading,
    cfg: &DiscriminationConfig,
    separation_exp: Double,
    goodness_exp: Double,
) -> (d: ChannelDiscrimination)
    ensures
        d == discrimination(*r, *cfg, separation_exp, goodness_exp),
{
    let separation_factor = shrunk_factor(r.pool_factor, separation_exp);
    let goodness_factor = match r.goodness_z {
        Some(_) => shrunk_factor(r.pool_factor * r.reference_backing, goodness_exp),
        None => Double::ratio(1, 2),
    };
    ChannelDiscrimination {
        g: combine(separation_factor, goodness_factor, cfg),
        raw_separation: r.raw_separation,
        top_m_average: r.top_m_average,
        degenerate_separation: r.degenerate_separation,
        reference_cold: r.goodness_z.is_none(),
    }
}

/// Reads a channel's pool against its baselines; `None` where there is no score to read.
pub fn read_items<Id>(
    items: &Items<Id>,
    separation: &MeanVar,
    reference: &MeanVar,
    cfg: &DiscriminationConfig,
) -> (r: Option<PoolReading>)
    ensures
        r is Some <==> readable(*items),
        r is Some ==> r->0 == items_reading(*items, *separation, *reference, *cfg),
{
    let pool = match items {
        Items::Ranks(_) => {
            return None;
        },
        Items::Scored(pool) => pool,
    };
    if pool.len() == 0 {
        return None;
    }
    let mut scores: Vec<Double> = Vec::new();
    let mut i: usize = 0;
    while i < pool.len()
        invariant
            i <= pool@.len(),
            scores@.len() == i,
            forall|h: int| 0 <= h < i ==> #[trigger] scores@[h] == pool@[h].1,
        decreases pool@.len() - i,
    {
        scores.push(pool[i].1);
        i += 1;
    }
    assert(scores@ =~= pool_scores(pool@));
    Some(read_pool(scores.as_slice(), separation, reference, cfg))
}

/// Reads a pool of scores against a channel's baselines.
pub fn read_pool(
    scores: &[Double],
    separation: &MeanVar,
    reference: &MeanVar,
    cfg: &DiscriminationConfig,
) -> (r: PoolReading)
    requires
        scores@.len() > 0,
    ensures
        r == reading(scores@, *separation, *reference, *cfg),
{
    let n: usize = scores.len();
    let sorted = sorted_ascending(scores);
    let (raw_separation, degenerate_separation) = separation_statistic(sorted.as_slice(), cfg);
    let m: usize = if cfg.top_m < 1 {
        1
    } else if cfg.top_m < n {
        cfg.top_m
    } else {
        n
    };
    let top = sum_between(sorted.as_slice(), n - m, n) / Double::of_count(m);
    let top_m_average = if n >= cfg.top_m {
        sanitize(top)
    } else {
        None
    };
    let goodness_z = reference.zscore(top);
    let separation_z = match raw_separation {
        Some(raw) => {
            if cfg.min_count_for_z.le(separation.count()) {
                match separation.zscore(raw) {
                    Some(z) => z,
                    None => Double::zero(),
                }
            } else {
                Double::zero()
            }
        },
        None => Double::zero(),
    };
    PoolReading {
        raw_separation,
        degenerate_separation,
        separation_z,
        top_m_average,
        goodness_z,
        pool_factor: (Double::of_count(n) / Double::of_count(cfg.shrink_pool_size)).min(
            Double::one(),
        ),
        reference_backing: (reference.count() / cfg.min_count_for_z).min(Double::one()),
    }
}

/// The neutral read, used for a ranks-only channel and for an empty scored pool.
pub fn neutral() -> (d: ChannelDiscrimination)
    ensures
        d == neutral_read(),
{
    ChannelDiscrimination {
        g: Double::one(),
        raw_separation: None,
        top_m_average: None,
        degenerate_separation: false,
        reference_cold: false,
    }
}

/// The raw separation statistic over a sorted pool, and whether its denominator was
/// widened by the degeneracy floor; `(None, true)` where the bulk is too degenerate.
pub fn separation_statistic(sorted: &[Double], cfg: &DiscriminationConfig) -> (r: (
    Option<Double>,
    bool,
))
    requires
        sorted@.len() > 0,
    ensures
        r == separation_of(sorted@, *cfg),
{
    let n: usize = sorted.len();
    if count_distinct(sorted) < cfg.min_distinct_values {
        return (None, true);
    }
    let q10 = quantile_sorted(sorted, Double::ratio(1, 10));
    let q25 = quantile_sorted(sorted, Double::ratio(1, 4));
    let q50 = quantile_sorted(sorted, Double::ratio(1, 2));
    let q75 = quantile_sorted(sorted, Double::ratio(3, 4));
    let k: usize = (cfg.top_eps * Double::of_count(n)).ceil_count();
    let top_k: usize = if k < 1 {
        1
    } else if k > n {
        n
    } else {
        k
    };
    let top = sum_between(sorted, n - top_k, n) / Double::of_count(top_k);
    let gap = q50 - q10;
    let floor = cfg.denom_floor_frac * (q75 - q25);
    let floored: bool = gap.lt(floor);
    let denom = gap.max(floor);
    let bulk_span = q75 - q10;
    if denom.le(Double::ratio(1, 1_000_000_000) * bulk_span) {
        return (None, true);
    }
    let ratio = (top - q50) / denom;
    if !ratio.is_finite() {
        return (None, true);
    }
    (Some(ratio), floored)
}

/// Counts distinct values in a sorted, non-empty sequence.
pub fn count_distinct(sorted: &[Double]) -> (count: usize)
    requires
        sorted@.len() > 0,
    ensures
        count == distinct(sorted@, sorted@.len() as int),
{
    let mut count: usize = 1;
    let mut i: usize = 1;
    while i < sorted.len()
        invariant
            1 <= i <= sorted@.len(),
            count == distinct(sorted@, i as int),
            count <= i,
        decreases sorted@.len() - i,
    {
        if sorted[i] != sorted[i - 1] {
            count += 1;
        }
        i += 1;
    }
    count
}

/// The `p`-quantile of a sorted, non-empty sequence by linear interpolation between order
/// statistics.
pub fn quantile_sorted(sorted: &[Double], p: Double) -> (q: Double)
    requires
        sorted@.len() > 0,
    ensures
        q == quantile(sorted@, p),
{
    let n: usize = sorted.len();
    if n == 1 {
        return sorted[0];
    }
    let h = (Double::of_count(n) - Double::one()) * p;
    let low: usize = h.floor_count();
    let frac = h - Double::of_count(low);
    if low < n - 1 {
        sorted[low] + frac * (sorted[low + 1] - sorted[low])
    } else {
        sorted[n - 1]
    }
}

/// The argument of the exponential in the logistic squash of `z` with slope `k`.
pub fn squash_input(z: Double, k: Double) -> (x: Double)
    ensures
        x == squash_argument(z, k),
{
    k.negated() * z
}

/// The logistic squash, given the exponential of its argument.
pub fn squash(e: Double) -> (f: Double)
    ensures
        f == squashed(e),
{
    Double::one() / (Double::one() + e)
}

/// One statistic's logistic factor, shrunk toward its neutral midpoint by how much
/// evidence backs the read.
pub fn shrunk_factor(lambda: Double, e: Double) -> (f: Double)
    ensures
        f == shrunk(lambda, e),
{
    let l = lambda.min(Double::one()).max(Double::zero());
    l * squash(e) + (Double::one() - l) * Double::ratio(1, 2)
}

/// Combines the two evidence-shrunk factors into the channel weight.
pub fn combine(
    separation_factor: Double,
    goodness_factor: Double,
    cfg: &DiscriminationConfig,
) -> (g: Double)
    ensures
        g == weight_of(separation_factor, goodness_factor, *cfg),
{
    (Double::of_count(4) * separation_factor * goodness_factor).min(cfg.g_upper_bound).max(
        cfg.g_floor,
    )
}

/// A level baseline is trusted: it has enough observations and a positive, finite mean.
pub open spec fn level_trusted(level: MeanVar, cfg: DiscriminationConfig) -> bool {
    fle(cfg.min_count_for_z, level.count) && level.mean.finite() && flt(fzero(), level.mean)
}

/// A weight divided by the channel's own level where that is trusted, its deviation from
/// one scaled, and bounded again.
pub open spec fn leveled(g: Double, level: MeanVar, cfg: DiscriminationConfig) -> Double {
    let normalized = if level_trusted(level, cfg) {
        fdiv(g, level.mean)
    } else {
        g
    };
    let kept = fadd(fone(), fmul(cfg.g_deviation_keep, fsub(normalized, fone())));
    fmax(fmin(kept, cfg.g_upper_bound), cfg.g_floor)
}

/// Normalizes a discrimination weight by the channel's own running level, shrinks the
/// remaining deviation from neutral, and re-applies the floor and cap.
///
/// A level baseline with too few observations, or one whose mean is not positive and
/// finite, is not trusted: the raw weight passes through and only the deviation shrink
/// applies.
pub fn level_shrunk(g: Double, level: &MeanVar, cfg: &DiscriminationConfig) -> (w: Double)
    ensures
        w == leveled(g, *level, *cfg),
{
    let mean = level.mean();
    let normalized = if cfg.min_count_for_z.le(level.count()) && mean.is_finite()
        && Double::zero().lt(mean) {
        g / mean
    } else {
        g
    };
    let kept = Double::one() + cfg.g_deviation_keep * (normalized - Double::one());
    kept.min(cfg.g_upper_bound).max(cfg.g_floor)
}

/// The lower end of the band that separation reads are held to.
pub open spec fn band_low(baseline: MeanVar, cfg: DiscriminationConfig) -> Double {
    fsub(baseline.mean, fmul(cfg.winsor_z, baseline.deviation()))
}

/// The upper end of the band that separation reads are held to.
pub open spec fn band_high(baseline: MeanVar, cfg: DiscriminationConfig) -> Double {
    fadd(baseline.mean, fmul(cfg.winsor_z, baseline.deviation()))
}

/// There is a band to hold a read to: the baseline has enough observations, a usable
/// deviation, and ends that are in order.
pub open spec fn well_posed(baseline: MeanVar, cfg: DiscriminationConfig) -> bool {
    &&& !flt(baseline.count, cfg.min_count_for_z)
    &&& baseline.deviation().finite()
    &&& !fle(baseline.deviation(), fzero())
    &&& fle(band_low(baseline, cfg), band_high(baseline, cfg))
}

/// A raw separation read held to the baseline's band, where there is one.
pub open spec fn winsorized(raw: Double, baseline: MeanVar, cfg: DiscriminationConfig) -> Double {
    if well_posed(baseline, cfg) {
        fclamp(raw, band_low(baseline, cfg), band_high(baseline, cfg))
    } else {
        raw
    }
}

/// Holds a raw separation read to the baseline mean plus or minus `winsor_z` standard
/// deviations before it is merged into the separation baseline.
///
/// With too few observations, or no usable band around the mean, the read passes through
/// unchanged.
pub fn winsorize_separation(
    raw_sep: Double,
    baseline: &MeanVar,
    cfg: &DiscriminationConfig,
) -> (read: Double)
    ensures
        read == winsorized(raw_sep, *baseline, *cfg),
{
    if baseline.count().lt(cfg.min_count_for_z) {
        return raw_sep;
    }
    let deviation = baseline.std_dev();
    if !deviation.is_finite() || deviation.le(Double::zero()) {
        return raw_sep;
    }
    let mean = baseline.mean();
    let low = mean - cfg.winsor_z * deviation;
    let high = mean + cfg.winsor_z * deviation;
    if low.le(high) {
        raw_sep.clamp(low, high)
    } else {
        raw_sep
    }
}

/// The floor and the cap hold every weight, whatever the factors, as long as the floor
/// does not exceed the cap.
pub proof fn lemma_weight_bounded(
    separation_factor: Double,
    goodness_factor: Double,
    cfg: DiscriminationConfig,
)
    requires
        fle(cfg.g_floor, cfg.g_upper_bound),
    ensures
        fle(cfg.g_floor, weight_of(separation_factor, goodness_factor, cfg)),
        fle(weight_of(separation_factor, goodness_factor, cfg), cfg.g_upper_bound),
{
}

/// The floor and the cap hold every leveled weight.
pub proof fn lemma_leveled_bounded(g: Double, level: MeanVar, cfg: DiscriminationConfig)
    requires
        fle(cfg.g_floor, cfg.g_upper_bound),
    ensures
        fle(cfg.g_floor, leveled(g, level, cfg)),
        fle(leveled(g, level, cfg), cfg.g_upper_bound),
{
}

} // verus!
