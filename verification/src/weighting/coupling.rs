//! Channel coupling: the redundancy discount that keeps the fusion from double-counting
//! channels that share a nuisance factor.
//!
//! Pairwise redundancy is read on the full-scored anchor, over the items both channels
//! actually scored, then assembled into weights through a regularized dimensionless
//! covariance. Two diagnostics are read from set membership only.
//!
//! The one transcendental function of the estimate, the sine, is handed in by the caller.
use crate::config::CouplingConfig;
use crate::double::{
    fadd, fclamp, fcount, fdiv, fle, flt, fmax, fmin, fmul, fneg, fone, froot, fsub, fzero,
    lemma_count_finite, Double,
};
use crate::identity::identifies;
use crate::ingest::anchor::Anchor;
use crate::keys::{canonical, lemma_canonical_twice, text_pair, UnorderedPair};
use crate::numeric::{fsum, midranks, sum_between, value_midrank};
use crate::ordered::OrderedMap;
use crate::state::pairs_canonical;
use crate::summary::MeanVar;
use crate::weighting::linalg::{
    basis, entry, factor_of, factors, inverse_spd, rows, solution, solve_spd, square,
};
use std::collections::HashSet;
use std::hash::Hash;
use vstd::prelude::*;

verus! {

/// One channel pair's redundancy correlation measured on the anchor, with the overlap
/// backing it.
#[derive(Clone, Copy, Debug, PartialEq)]
#[non_exhaustive]
pub struct PairObservation {
    /// The rank correlation over the both-scored items mapped to the Gaussian-copula
    /// linear correlation, in `[-1, 1]`.
    pub correlation: Double,
    /// The number of items both channels scored.
    pub n_both: usize,
}

/// One channel pair's accumulated redundancy baseline: the pooled correlation summary plus
/// how many anchor refreshes back it.
#[derive(Clone, Copy, Debug, PartialEq)]
pub struct PairBaseline {
    /// The accumulated redundancy correlation.
    pub redundancy: MeanVar,
    /// How many anchor refreshes contributed.
    pub refreshes: Double,
}

/// Per-channel weights after the redundancy discount, plus the effective
/// independent-channel count.
#[derive(Clone, Debug, PartialEq)]
#[non_exhaustive]
pub struct CoupledWeights {
    /// The per-channel weights, normalized to sum to the channel count.
    pub weights: OrderedMap<String, Double>,
    /// The effective number of independent channels: the channel count when the channels
    /// are uncorrelated, and fewer when they share a nuisance factor. With at least one
    /// channel it is above zero and never exceeds the channel count.
    pub effective_channels: Double,
}

/// The rank correlation of one pair of channels on the anchor, before it is mapped.
#[derive(Clone, Copy, Debug, PartialEq)]
pub struct RankCorrelation {
    /// The position of the one channel.
    pub first: usize,
    /// The position of the other channel.
    pub second: usize,
    /// The rank correlation over the both-scored items.
    pub rho: Double,
    /// The number of items both channels scored.
    pub n_both: usize,
}

/// A sixth of the circle's half circumference over its radius, the nearest number to it.
pub const SIXTH_OF_PI_BITS: u64 = 0x3fe0_c152_382d_7366;

/// The scores of the first of two rows at the items that both have, among the first `n`.
pub open spec fn shared_scores(
    mine: Seq<Option<Double>>,
    theirs: Seq<Option<Double>>,
    n: int,
) -> Seq<Double>
    decreases n,
{
    if n <= 0 {
        Seq::empty()
    } else if mine[n - 1] is Some && theirs[n - 1] is Some {
        shared_scores(mine, theirs, n - 1).push(mine[n - 1]->0)
    } else {
        shared_scores(mine, theirs, n - 1)
    }
}

/// The length of the shorter of two rows.
pub open spec fn common_length(mine: Seq<Option<Double>>, theirs: Seq<Option<Double>>) -> int {
    if mine.len() <= theirs.len() {
        mine.len() as int
    } else {
        theirs.len() as int
    }
}

/// The mean of a sample.
pub open spec fn mean_of(xs: Seq<Double>) -> Double {
    fdiv(fsum(xs, 0, xs.len() as int), fcount(xs.len() as int))
}

/// The sum of the products of two samples' deviations over their first `n` members.
pub open spec fn deviation_products(xs: Seq<Double>, ys: Seq<Double>, n: int) -> Double
    decreases n,
{
    if n <= 0 {
        fzero()
    } else {
        fadd(
            deviation_products(xs, ys, n - 1),
            fmul(fsub(xs[n - 1], mean_of(xs)), fsub(ys[n - 1], mean_of(ys))),
        )
    }
}

/// The linear correlation of two samples before it is held to its range.
pub open spec fn raw_correlation(xs: Seq<Double>, ys: Seq<Double>) -> Double {
    let n = xs.len() as int;
    fdiv(
        deviation_products(xs, ys, n),
        fmul(froot(deviation_products(xs, xs, n)), froot(deviation_products(ys, ys, n))),
    )
}

/// The linear correlation of two samples is defined: they are equally long, not empty,
/// both vary, and the result is finite.
pub open spec fn correlates(xs: Seq<Double>, ys: Seq<Double>) -> bool {
    let n = xs.len() as int;
    &&& n > 0
    &&& ys.len() == n
    &&& !fle(deviation_products(xs, xs, n), fzero())
    &&& !fle(deviation_products(ys, ys, n), fzero())
    &&& raw_correlation(xs, ys).finite()
}

/// The linear correlation of two samples.
pub open spec fn linear_correlation(xs: Seq<Double>, ys: Seq<Double>) -> Double {
    fclamp(raw_correlation(xs, ys), fneg(fone()), fone())
}

/// The midranks of a sample.
pub open spec fn midranks_of(xs: Seq<Double>) -> Seq<Double> {
    Seq::new(xs.len(), |i: int| value_midrank(xs, i))
}

/// The scores that the channel at `a` gives to the items that the one at `b` also scored.
pub open spec fn overlap(anchor: Anchor, a: int, b: int) -> Seq<Double> {
    let mine = anchor.scores@[a]@;
    let theirs = anchor.scores@[b]@;
    shared_scores(mine, theirs, common_length(mine, theirs))
}

/// The rank correlation of two channels counts: enough items are shared, and it is
/// defined.
pub open spec fn counts(anchor: Anchor, cfg: CouplingConfig, a: int, b: int) -> bool {
    &&& overlap(anchor, a, b).len() >= cfg.min_overlap
    &&& correlates(midranks_of(overlap(anchor, a, b)), midranks_of(overlap(anchor, b, a)))
}

/// The rank correlation of two channels.
pub open spec fn rank_correlation(anchor: Anchor, a: int, b: int) -> RankCorrelation {
    RankCorrelation {
        first: a as usize,
        second: b as usize,
        rho: linear_correlation(
            midranks_of(overlap(anchor, a, b)),
            midranks_of(overlap(anchor, b, a)),
        ),
        n_both: overlap(anchor, a, b).len() as usize,
    }
}

/// The rank correlations that count, of the channels before `a` with all later ones and of
/// the one at `a` with the later ones before `b`.
pub open spec fn rank_correlations(
    anchor: Anchor,
    cfg: CouplingConfig,
    a: int,
    b: int,
) -> Seq<RankCorrelation>
    decreases a, b,
{
    if 0 <= a && b > a + 1 {
        let rest = rank_correlations(anchor, cfg, a, b - 1);
        if counts(anchor, cfg, a, b - 1) {
            rest.push(rank_correlation(anchor, a, b - 1))
        } else {
            rest
        }
    } else if a > 0 {
        rank_correlations(anchor, cfg, a - 1, anchor.channels@.len() as int)
    } else {
        Seq::empty()
    }
}

/// The argument of the sine that maps a rank correlation.
pub open spec fn copula_argument(rho: Double) -> Double {
    fmul(Double { bits: SIXTH_OF_PI_BITS }, rho)
}

/// The mapped correlation, given the sine of its argument, held to `[-1, 1]`.
pub open spec fn mapped(sine: Double) -> Double {
    fmax(fmin(fmul(fcount(2), sine), fone()), fneg(fone()))
}

/// The observations of the first `n` rank correlations, keyed by channel pair.
pub open spec fn observed(
    channels: Seq<String>,
    list: Seq<RankCorrelation>,
    sines: Seq<Double>,
    n: int,
) -> Map<(Seq<char>, Seq<char>), PairObservation>
    decreases n,
{
    if n <= 0 {
        Map::empty()
    } else {
        let r = list[n - 1];
        observed(channels, list, sines, n - 1).insert(
            canonical(channels[r.first as int]@, channels[r.second as int]@),
            PairObservation { correlation: mapped(sines[n - 1]), n_both: r.n_both },
        )
    }
}

/// Observations are keyed by pairs in canonical order.
pub proof fn lemma_observed_canonical(
    channels: Seq<String>,
    list: Seq<RankCorrelation>,
    sines: Seq<Double>,
    n: int,
)
    ensures
        pairs_canonical(observed(channels, list, sines, n)),
    decreases n,
{
    if n > 0 {
        lemma_observed_canonical(channels, list, sines, n - 1);
        let r = list[n - 1];
        lemma_canonical_twice(channels[r.first as int]@, channels[r.second as int]@);
    }
}

/// All rank correlations of an anchor that count.
pub open spec fn all_rank_correlations(anchor: Anchor, cfg: CouplingConfig) -> Seq<
    RankCorrelation,
> {
    rank_correlations(anchor, cfg, anchor.channels@.len() as int, 0)
}

/// Estimates each channel pair's redundancy correlation from a shared anchor, over the
/// items both channels scored.
///
/// The estimate is rank-based, so it is invariant to any monotone rescaling of a
/// channel's scores. A pair whose overlap is too thin is omitted, as is a pair in which
/// either channel does not vary over the overlap. `sin` is the sine function.
#[must_use]
pub fn anchor_correlations<S: Fn(Double) -> Double>(
    anchor: &Anchor,
    cfg: &CouplingConfig,
    sin: &S,
) -> (out: OrderedMap<UnorderedPair<String>, PairObservation>)
    requires
        anchor.wf(),
        forall|x: Double| call_requires(*sin, (x,)),
    ensures
        out.wf(),
        exists|sines: Seq<Double>|
            #![trigger observed(anchor.channels@, all_rank_correlations(*anchor, *cfg), sines, sines.len() as int)]
            {
                let list = all_rank_correlations(*anchor, *cfg);
                &&& sines.len() == list.len()
                &&& forall|i: int|
                    0 <= i < list.len() ==> call_ensures(
                        *sin,
                        (copula_argument(list[i].rho),),
                        #[trigger] sines[i],
                    )
                &&& out@ == observed(anchor.channels@, list, sines, sines.len() as int)
            },
        pairs_canonical(out@),
{
    let list = anchor_rank_correlations(anchor, cfg);
    let mut sines: Vec<Double> = Vec::new();
    let mut i: usize = 0;
    while i < list.len()
        invariant
            forall|x: Double| call_requires(*sin, (x,)),
            i <= list@.len(),
            sines@.len() == i,
            forall|h: int|
                0 <= h < i ==> call_ensures(
                    *sin,
                    (copula_argument(list@[h].rho),),
                    #[trigger] sines@[h],
                ),
        decreases list@.len() - i,
    {
        let x = Double::from_bits(SIXTH_OF_PI_BITS) * list[i].rho;
        sines.push(sin(x));
        i += 1;
    }
    proof {
        lemma_observed_canonical(anchor.channels@, list@, sines@, sines@.len() as int);
    }
    observations(anchor.channels.as_slice(), list.as_slice(), sines.as_slice())
}

/// The rank correlations of an anchor that count, in channel order.
pub fn anchor_rank_correlations(anchor: &Anchor, cfg: &CouplingConfig) -> (list: Vec<
    RankCorrelation,
>)
    requires
        anchor.wf(),
    ensures
        list@ == all_rank_correlations(*anchor, *cfg),
        forall|i: int|
            0 <= i < list@.len() ==> (#[trigger] list@[i]).first < anchor.channels@.len()
                && list@[i].second < anchor.channels@.len(),
{
    let n: usize = anchor.channels.len();
    let mut list: Vec<RankCorrelation> = Vec::new();
    let mut a: usize = 0;
    while a < n
        invariant
            anchor.wf(),
            n == anchor.channels@.len(),
            a <= n,
            list@ == rank_correlations(*anchor, *cfg, a as int, 0),
            forall|i: int|
                0 <= i < list@.len() ==> (#[trigger] list@[i]).first < n && list@[i].second < n,
        decreases n - a,
    {
        let mut b: usize = a + 1;
        assert(rank_correlations(*anchor, *cfg, a as int, a + 1) == rank_correlations(
            *anchor,
            *cfg,
            a as int,
            0,
        ));
        while b < n
            invariant
                anchor.wf(),
                n == anchor.channels@.len(),
                a < b <= n,
                list@ == rank_correlations(*anchor, *cfg, a as int, b as int),
                forall|i: int|
                    0 <= i < list@.len() ==> (#[trigger] list@[i]).first < n && list@[i].second < n,
            decreases n - b,
        {
            let (xs, ys) = both_scored(anchor, a, b);
            if xs.len() >= cfg.min_overlap {
                match pearson(midranks(xs.as_slice()).as_slice(), midranks(ys.as_slice()).as_slice()) {
                    Some(rho) => {
                        list.push(RankCorrelation { first: a, second: b, rho, n_both: xs.len() });
                    },
                    None => {},
                }
            }
            b += 1;
        }
        a += 1;
    }
    list
}

/// The scores of two channels at the items both of them scored.
fn both_scored(anchor: &Anchor, a: usize, b: usize) -> (r: (Vec<Double>, Vec<Double>))
    requires
        anchor.wf(),
        a < anchor.channels@.len(),
        b < anchor.channels@.len(),
    ensures
        r.0@ == overlap(*anchor, a as int, b as int),
        r.1@ == overlap(*anchor, b as int, a as int),
        r.0@.len() == r.1@.len(),
        forall|i: int| 0 <= i < r.0@.len() ==> (#[trigger] r.0@[i]).finite(),
        forall|i: int| 0 <= i < r.1@.len() ==> (#[trigger] r.1@[i]).finite(),
{
    let mine = &anchor.scores[a];
    let theirs = &anchor.scores[b];
    let mut xs: Vec<Double> = Vec::new();
    let mut ys: Vec<Double> = Vec::new();
    let mut i: usize = 0;
    while i < mine.len() && i < theirs.len()
        invariant
            anchor.wf(),
            a < anchor.channels@.len(),
            b < anchor.channels@.len(),
            mine@ == anchor.scores@[a as int]@,
            theirs@ == anchor.scores@[b as int]@,
            i <= mine@.len(),
            i <= theirs@.len(),
            xs@ == shared_scores(mine@, theirs@, i as int),
            ys@ == shared_scores(theirs@, mine@, i as int),
            xs@.len() == ys@.len(),
            forall|h: int| 0 <= h < xs@.len() ==> (#[trigger] xs@[h]).finite(),
            forall|h: int| 0 <= h < ys@.len() ==> (#[trigger] ys@[h]).finite(),
        decreases mine@.len() - i,
    {
        assert(anchor.scores@[a as int]@[i as int] == mine@[i as int]);
        assert(anchor.scores@[b as int]@[i as int] == theirs@[i as int]);
        match (mine[i], theirs[i]) {
            (Some(x), Some(y)) => {
                xs.push(x);
                ys.push(y);
            },
            _ => {},
        }
        i += 1;
    }
    (xs, ys)
}

/// The observations of a list of rank correlations, given the sine of each one's argument.
pub fn observations(channels: &[String], list: &[RankCorrelation], sines: &[Double]) -> (out:
    OrderedMap<UnorderedPair<String>, PairObservation>)
    requires
        sines@.len() == list@.len(),
        forall|i: int|
            0 <= i < list@.len() ==> (#[trigger] list@[i]).first < channels@.len()
                && list@[i].second < channels@.len(),
    ensures
        out.wf(),
        out@ == observed(channels@, list@, sines@, list@.len() as int),
{
    let mut out: OrderedMap<UnorderedPair<String>, PairObservation> = OrderedMap::new();
    let mut i: usize = 0;
    while i < list.len()
        invariant
            sines@.len() == list@.len(),
            forall|h: int|
                0 <= h < list@.len() ==> (#[trigger] list@[h]).first < channels@.len()
                    && list@[h].second < channels@.len(),
            i <= list@.len(),
            out.wf(),
            out@ == observed(channels@, list@, sines@, i as int),
        decreases list@.len() - i,
    {
        let r = list[i];
        assert(list@[i as int].first < channels@.len());
        let pair = text_pair(channels[r.first].clone(), channels[r.second].clone());
        out.insert(
            pair,
            PairObservation { correlation: copula_correlation(sines[i]), n_both: r.n_both },
        );
        i += 1;
    }
    out
}

/// The rank correlation mapped to the Gaussian-copula linear correlation, given the sine
/// of its argument.
pub fn copula_correlation(sine: Double) -> (r: Double)
    ensures
        r == mapped(sine),
        fle(fneg(fone()), r),
        fle(r, fone()),
{
    (Double::of_count(2) * sine).min(Double::one()).max(Double::one().negated())
}

fn products(xs: &[Double], mean_x: Double, ys: &[Double], mean_y: Double) -> (total: Double)
    requires
        xs@.len() == ys@.len(),
        mean_x == mean_of(xs@),
        mean_y == mean_of(ys@),
    ensures
        total == deviation_products(xs@, ys@, xs@.len() as int),
{
    let mut total = Double::zero();
    let mut i: usize = 0;
    while i < xs.len()
        invariant
            xs@.len() == ys@.len(),
            mean_x == mean_of(xs@),
            mean_y == mean_of(ys@),
            i <= xs@.len(),
            total == deviation_products(xs@, ys@, i as int),
        decreases xs@.len() - i,
    {
        total = total + (xs[i] - mean_x) * (ys[i] - mean_y);
        i += 1;
    }
    total
}

/// Linear correlation of two equal-length samples, or `None` when it is undefined.
pub fn pearson(xs: &[Double], ys: &[Double]) -> (r: Option<Double>)
    ensures
        r is Some <==> correlates(xs@, ys@),
        r is Some ==> r->0 == linear_correlation(xs@, ys@) && fle(fneg(fone()), r->0) && fle(
            r->0,
            fone(),
        ),
{
    let n: usize = xs.len();
    if n == 0 || ys.len() != n {
        return None;
    }
    let nf = Double::of_count(n);
    let mean_x = sum_between(xs, 0, n) / nf;
    let mean_y = sum_between(ys, 0, n) / nf;
    let cov = products(xs, mean_x, ys, mean_y);
    let var_x = products(xs, mean_x, xs, mean_x);
    let var_y = products(ys, mean_y, ys, mean_y);
    if var_x.le(Double::zero()) || var_y.le(Double::zero()) {
        return None;
    }
    let r = cov / (var_x.sqrt() * var_y.sqrt());
    if r.is_finite() {
        Some(r.clamp(Double::one().negated(), Double::one()))
    } else {
        None
    }
}

/// The texts of a list of keys.
pub open spec fn names(keys: Seq<String>) -> Seq<Seq<char>> {
    Seq::new(keys.len(), |i: int| keys[i]@)
}

/// A channel's discrimination weight, or one where it is missing or not positive and
/// finite.
pub open spec fn strength(g: Map<Seq<char>, Double>, key: Seq<char>) -> Double {
    if g.contains_key(key) && g[key].finite() && flt(fzero(), g[key]) {
        g[key]
    } else {
        fone()
    }
}

/// A pair's redundancy counts: it is reliable, backed by enough refreshes, stable across
/// them, and finite.
pub open spec fn cleared(b: PairBaseline, cfg: CouplingConfig) -> bool {
    &&& fle(cfg.min_reliability, b.redundancy.count)
    &&& fle(cfg.min_refreshes, b.refreshes)
    &&& fle(b.redundancy.spread(), cfg.stratum_stability_max_var)
    &&& b.redundancy.mean.finite()
}

/// The redundancy that a pair is discounted by: its mean held to `[0, cap]` where it
/// counts, and none elsewhere.
pub open spec fn discount(
    redundancy: Map<(Seq<char>, Seq<char>), PairBaseline>,
    a: Seq<char>,
    b: Seq<char>,
    cfg: CouplingConfig,
) -> Double {
    let pair = canonical(a, b);
    if cfg.enabled && redundancy.contains_key(pair) && cleared(redundancy[pair], cfg) {
        fmax(
            fzero(),
            fmin(redundancy[pair].redundancy.mean, fmax(cfg.discount_cap, fzero())),
        )
    } else {
        fzero()
    }
}

/// The shrinkage toward the identity, held to `[0, 1]`.
pub open spec fn shrinkage(cfg: CouplingConfig) -> Double {
    fmax(fmin(cfg.shrink_to_identity, fone()), fzero())
}

/// An entry shrunk toward that of the identity matrix.
pub open spec fn shrunk_entry(raw: Double, identity: Double, cfg: CouplingConfig) -> Double {
    fadd(fmul(fsub(fone(), shrinkage(cfg)), raw), fmul(shrinkage(cfg), identity))
}

/// The regularized redundancy correlation of two channels.
pub open spec fn correlation(
    redundancy: Map<(Seq<char>, Seq<char>), PairBaseline>,
    keys: Seq<Seq<char>>,
    cfg: CouplingConfig,
    i: int,
    j: int,
) -> Double {
    if i == j {
        shrunk_entry(fone(), fone(), cfg)
    } else {
        shrunk_entry(discount(redundancy, keys[i], keys[j], cfg), fzero(), cfg)
    }
}

/// The regularized redundancy correlation matrix.
pub open spec fn correlation_matrix(
    redundancy: Map<(Seq<char>, Seq<char>), PairBaseline>,
    keys: Seq<Seq<char>>,
    cfg: CouplingConfig,
) -> Seq<Seq<Double>> {
    Seq::new(
        keys.len(),
        |i: int| Seq::new(keys.len(), |j: int| correlation(redundancy, keys, cfg, i, j)),
    )
}

/// The discrimination weights of the channels, in order.
pub open spec fn strengths(g: Map<Seq<char>, Double>, keys: Seq<Seq<char>>) -> Seq<Double> {
    Seq::new(keys.len(), |i: int| strength(g, keys[i]))
}

/// The scale of a channel: the inverse root of its discrimination weight.
pub open spec fn channel_scale(w: Double) -> Double {
    fdiv(fone(), froot(w))
}

/// The covariance matrix: the correlation matrix scaled by the channels.
pub open spec fn covariance_matrix(gv: Seq<Double>, r: Seq<Seq<Double>>) -> Seq<Seq<Double>> {
    Seq::new(
        gv.len(),
        |i: int|
            Seq::new(
                gv.len(),
                |j: int| fmul(fmul(channel_scale(gv[i]), r[i][j]), channel_scale(gv[j])),
            ),
    )
}

/// A vector of ones.
pub open spec fn ones(n: nat) -> Seq<Double> {
    Seq::new(n, |i: int| fone())
}

/// The solution of the covariance system against ones; the discrimination weights
/// themselves where the matrix does not factor.
pub open spec fn raw_weights(gv: Seq<Double>, r: Seq<Seq<Double>>) -> Seq<Double> {
    let sigma = covariance_matrix(gv, r);
    if factors(sigma) {
        solution(factor_of(sigma), ones(gv.len()))
    } else {
        gv
    }
}

/// A weight held at zero from below; one that is not finite counts as zero.
pub open spec fn positive_part(x: Double) -> Double {
    if x.finite() {
        fmax(x, fzero())
    } else {
        fzero()
    }
}

/// The positive parts of a sequence.
pub open spec fn positive_parts(x: Seq<Double>) -> Seq<Double> {
    Seq::new(x.len(), |i: int| positive_part(x[i]))
}

/// Weights scaled to sum to their number, and all one where their sum is not positive.
pub open spec fn normalized(c: Seq<Double>) -> Seq<Double> {
    let total = fsum(c, 0, c.len() as int);
    Seq::new(
        c.len(),
        |i: int|
            if flt(fzero(), total) {
                fdiv(fmul(fcount(c.len() as int), c[i]), total)
            } else {
                fone()
            },
    )
}

/// The first `n` values under their keys; a repeated key has its last value.
pub open spec fn keyed(keys: Seq<Seq<char>>, values: Seq<Double>, n: int) -> Map<Seq<char>, Double>
    decreases n,
{
    if n <= 0 {
        Map::empty()
    } else {
        keyed(keys, values, n - 1).insert(keys[n - 1], values[n - 1])
    }
}

/// The sum of the rows before `i` and of the entries before `j` in row `i`.
pub open spec fn grid_sum(m: Seq<Seq<Double>>, i: int, j: int) -> Double
    decreases i, j,
{
    if 0 <= i && j > 0 {
        fadd(grid_sum(m, i, j - 1), m[i][j - 1])
    } else if i > 0 {
        grid_sum(m, i - 1, m.len() as int)
    } else {
        fzero()
    }
}

/// The inverse of a matrix that factors, column by column.
pub open spec fn inverse_matrix(r: Seq<Seq<Double>>) -> Seq<Seq<Double>> {
    Seq::new(
        r.len(),
        |i: int|
            Seq::new(r.len(), |j: int| solution(factor_of(r), basis(r.len(), j))[i]),
    )
}

/// The effective number of independent channels: the sum of the inverse correlations, held
/// to the number of channels. Where there is no inverse, or its sum is not positive, it is
/// the number of channels.
pub open spec fn effective_count(r: Seq<Seq<Double>>) -> Double {
    let n = fcount(r.len() as int);
    let total = grid_sum(inverse_matrix(r), r.len() as int, 0);
    if factors(r) && flt(fzero(), total) {
        fmin(total, n)
    } else {
        n
    }
}

/// The weights that coupling gives.
pub open spec fn coupled(
    g: Map<Seq<char>, Double>,
    redundancy: Map<(Seq<char>, Seq<char>), PairBaseline>,
    keys: Seq<Seq<char>>,
    cfg: CouplingConfig,
) -> Seq<Double> {
    normalized(
        positive_parts(
            raw_weights(strengths(g, keys), correlation_matrix(redundancy, keys, cfg)),
        ),
    )
}

fn discrimination_vector(g: &OrderedMap<String, Double>, keys: &[String]) -> (gv: Vec<Double>)
    requires
        g.wf(),
    ensures
        gv@ == strengths(g@, names(keys@)),
{
    let mut gv: Vec<Double> = Vec::new();
    let mut i: usize = 0;
    while i < keys.len()
        invariant
            g.wf(),
            i <= keys@.len(),
            gv@.len() == i,
            forall|h: int| 0 <= h < i ==> #[trigger] gv@[h] == strength(g@, keys@[h]@),
        decreases keys@.len() - i,
    {
        let w = match g.get(&keys[i]) {
            Some(v) => {
                if v.is_finite() && Double::zero().lt(*v) {
                    *v
                } else {
                    Double::one()
                }
            },
            None => Double::one(),
        };
        gv.push(w);
        i += 1;
    }
    assert(gv@ =~= strengths(g@, names(keys@)));
    gv
}

fn pair_discount(
    redundancy: &OrderedMap<UnorderedPair<String>, PairBaseline>,
    a: &String,
    b: &String,
    cfg: &CouplingConfig,
) -> (rho: Double)
    requires
        redundancy.wf(),
    ensures
        rho == discount(redundancy@, a@, b@, *cfg),
{
    if !cfg.enabled {
        return Double::zero();
    }
    let pair = text_pair(a.clone(), b.clone());
    match redundancy.get(&pair) {
        Some(red) => {
            let mean = red.redundancy.mean();
            if cfg.min_reliability.le(red.redundancy.count()) && cfg.min_refreshes.le(red.refreshes)
                && red.redundancy.variance().le(cfg.stratum_stability_max_var) && mean.is_finite() {
                Double::zero().max(mean.min(cfg.discount_cap.max(Double::zero())))
            } else {
                Double::zero()
            }
        },
        None => Double::zero(),
    }
}

fn assemble_correlations(
    redundancy: &OrderedMap<UnorderedPair<String>, PairBaseline>,
    keys: &[String],
    cfg: &CouplingConfig,
) -> (r: Vec<Vec<Double>>)
    requires
        redundancy.wf(),
    ensures
        rows(r@) == correlation_matrix(redundancy@, names(keys@), *cfg),
{
    let n: usize = keys.len();
    let shrink = cfg.shrink_to_identity.min(Double::one()).max(Double::zero());
    let mut r: Vec<Vec<Double>> = Vec::new();
    let mut i: usize = 0;
    while i < n
        invariant
            redundancy.wf(),
            n == keys@.len(),
            shrink == shrinkage(*cfg),
            i <= n,
            r@.len() == i,
            forall|h: int|
                0 <= h < i ==> (#[trigger] r@[h])@ == correlation_matrix(
                    redundancy@,
                    names(keys@),
                    *cfg,
                )[h],
        decreases n - i,
    {
        let mut row: Vec<Double> = Vec::new();
        let mut j: usize = 0;
        while j < n
            invariant
                redundancy.wf(),
                n == keys@.len(),
                shrink == shrinkage(*cfg),
                i < n,
                j <= n,
                row@.len() == j,
                forall|h: int|
                    0 <= h < j ==> #[trigger] row@[h] == correlation(
                        redundancy@,
                        names(keys@),
                        *cfg,
                        i as int,
                        h,
                    ),
            decreases n - j,
        {
            let (raw, identity) = if i == j {
                (Double::one(), Double::one())
            } else {
                (pair_discount(redundancy, &keys[i], &keys[j], cfg), Double::zero())
            };
            row.push((Double::one() - shrink) * raw + shrink * identity);
            j += 1;
        }
        assert(row@ =~= correlation_matrix(redundancy@, names(keys@), *cfg)[i as int]);
        r.push(row);
        i += 1;
    }
    assert(rows(r@) =~= correlation_matrix(redundancy@, names(keys@), *cfg));
    r
}

fn assemble_covariance(gv: &Vec<Double>, r: &Vec<Vec<Double>>) -> (sigma: Vec<Vec<Double>>)
    requires
        r@.len() == gv@.len(),
        square(rows(r@)),
    ensures
        rows(sigma@) == covariance_matrix(gv@, rows(r@)),
{
    let n: usize = gv.len();
    let mut sigma: Vec<Vec<Double>> = Vec::new();
    let mut i: usize = 0;
    while i < n
        invariant
            n == gv@.len(),
            r@.len() == n,
            square(rows(r@)),
            i <= n,
            sigma@.len() == i,
            forall|h: int|
                0 <= h < i ==> (#[trigger] sigma@[h])@ == covariance_matrix(gv@, rows(r@))[h],
        decreases n - i,
    {
        assert(rows(r@)[i as int].len() == n);
        let scale_i = Double::one() / gv[i].sqrt();
        let mut row: Vec<Double> = Vec::new();
        let mut j: usize = 0;
        while j < n
            invariant
                n == gv@.len(),
                r@.len() == n,
                r@[i as int]@.len() == n,
                i < n,
                j <= n,
                scale_i == channel_scale(gv@[i as int]),
                row@.len() == j,
                forall|h: int|
                    0 <= h < j ==> #[trigger] row@[h] == fmul(
                        fmul(scale_i, rows(r@)[i as int][h]),
                        channel_scale(gv@[h]),
                    ),
            decreases n - j,
        {
            let scale_j = Double::one() / gv[j].sqrt();
            row.push(scale_i * r[i][j] * scale_j);
            j += 1;
        }
        assert(row@ =~= covariance_matrix(gv@, rows(r@))[i as int]);
        sigma.push(row);
        i += 1;
    }
    assert(rows(sigma@) =~= covariance_matrix(gv@, rows(r@)));
    sigma
}

fn clamp_positive(x: &Vec<Double>) -> (c: Vec<Double>)
    ensures
        c@ == positive_parts(x@),
{
    let mut c: Vec<Double> = Vec::new();
    let mut i: usize = 0;
    while i < x.len()
        invariant
            i <= x@.len(),
            c@.len() == i,
            forall|h: int| 0 <= h < i ==> #[trigger] c@[h] == positive_part(x@[h]),
        decreases x@.len() - i,
    {
        let v = if x[i].is_finite() {
            x[i].max(Double::zero())
        } else {
            Double::zero()
        };
        c.push(v);
        i += 1;
    }
    assert(c@ =~= positive_parts(x@));
    c
}

/// Scales weights to sum to their number; where their sum is not positive all are one.
pub fn normalize(c: &Vec<Double>) -> (w: Vec<Double>)
    ensures
        w@ == normalized(c@),
{
    let n: usize = c.len();
    let nf = Double::of_count(n);
    let total = sum_between(c.as_slice(), 0, n);
    let mut w: Vec<Double> = Vec::new();
    let mut i: usize = 0;
    while i < n
        invariant
            n == c@.len(),
            nf == fcount(n as int),
            total == fsum(c@, 0, n as int),
            i <= n,
            w@.len() == i,
            forall|h: int| 0 <= h < i ==> #[trigger] w@[h] == normalized(c@)[h],
        decreases n - i,
    {
        let v = if Double::zero().lt(total) {
            nf * c[i] / total
        } else {
            Double::one()
        };
        w.push(v);
        i += 1;
    }
    assert(w@ =~= normalized(c@));
    w
}

/// Puts each value under its key; a repeated key has its last value.
pub fn keyed_by(keys: &[String], values: &Vec<Double>) -> (map: OrderedMap<String, Double>)
    requires
        values@.len() == keys@.len(),
    ensures
        map.wf(),
        map@ == keyed(names(keys@), values@, keys@.len() as int),
{
    let mut map: OrderedMap<String, Double> = OrderedMap::new();
    let mut i: usize = 0;
    while i < keys.len()
        invariant
            values@.len() == keys@.len(),
            i <= keys@.len(),
            map.wf(),
            map@ == keyed(names(keys@), values@, i as int),
        decreases keys@.len() - i,
    {
        map.insert(keys[i].clone(), values[i]);
        i += 1;
    }
    map
}

fn effective_channels(r: &Vec<Vec<Double>>) -> (count: Double)
    ensures
        count == effective_count(rows(r@)),
{
    let n: usize = r.len();
    let inverse = match inverse_spd(r.as_slice()) {
        Some(inverse) => inverse,
        None => {
            return Double::of_count(n);
        },
    };
    let ghost m = inverse_matrix(rows(r@));
    let mut total = Double::zero();
    let mut i: usize = 0;
    while i < n
        invariant
            n == r@.len(),
            factors(rows(r@)),
            m == inverse_matrix(rows(r@)),
            inverse@.len() == n,
            square(rows(inverse@)),
            forall|a: int, b: int|
                0 <= a < n && 0 <= b < n ==> #[trigger] entry(inverse@, a, b) == solution(
                    factor_of(rows(r@)),
                    basis(n as nat, b),
                )[a],
            i <= n,
            total == grid_sum(m, i as int, 0),
        decreases n - i,
    {
        assert(rows(inverse@)[i as int].len() == n);
        let mut j: usize = 0;
        while j < n
            invariant
                n == r@.len(),
                m == inverse_matrix(rows(r@)),
                inverse@.len() == n,
                inverse@[i as int]@.len() == n,
                forall|a: int, b: int|
                    0 <= a < n && 0 <= b < n ==> #[trigger] entry(inverse@, a, b) == solution(
                        factor_of(rows(r@)),
                        basis(n as nat, b),
                    )[a],
                i < n,
                j <= n,
                total == grid_sum(m, i as int, j as int),
            decreases n - j,
        {
            assert(entry(inverse@, i as int, j as int) == m[i as int][j as int]);
            total = total + inverse[i][j];
            j += 1;
        }
        i += 1;
    }
    if Double::zero().lt(total) {
        total.min(Double::of_count(n))
    } else {
        Double::of_count(n)
    }
}

/// Turns per-channel discrimination weights into a redundancy-discounted set, so channels
/// that share a nuisance factor are not counted twice.
///
/// The covariance is the redundancy correlation matrix scaled by the inverse roots of the
/// discrimination weights. Its system is solved against ones, the solution held at zero
/// from below, and scaled to sum to the number of channels. With coupling off, or no pair
/// that counts, the correlation matrix is the identity shrunk toward itself.
///
/// The effective number of channels is read from the correlations alone, so it stays a
/// channel count: it lies above zero and never exceeds the number of channels.
#[must_use]
pub fn coupled_weights(
    g: &OrderedMap<String, Double>,
    redundancy: &OrderedMap<UnorderedPair<String>, PairBaseline>,
    keys: &[String],
    cfg: &CouplingConfig,
) -> (w: CoupledWeights)
    requires
        g.wf(),
        redundancy.wf(),
    ensures
        w.weights.wf(),
        w.weights@ == keyed(names(keys@), coupled(g@, redundancy@, names(keys@), *cfg), keys@.len() as int),
        w.effective_channels == if keys@.len() == 0 {
            fzero()
        } else {
            effective_count(correlation_matrix(redundancy@, names(keys@), *cfg))
        },
        keys@.len() > 0 ==> flt(fzero(), w.effective_channels) && fle(
            w.effective_channels,
            fcount(keys@.len() as int),
        ),
{
    let n: usize = keys.len();
    if n == 0 {
        return CoupledWeights { weights: OrderedMap::new(), effective_channels: Double::zero() };
    }
    let gv = discrimination_vector(g, keys);
    let r = assemble_correlations(redundancy, keys, cfg);
    assert(r@.len() == n) by {
        assert(rows(r@).len() == n);
    }
    assert(square(rows(r@)));
    let sigma = assemble_covariance(&gv, &r);
    let mut rhs: Vec<Double> = Vec::new();
    while rhs.len() < n
        invariant
            rhs@.len() <= n,
            forall|h: int| 0 <= h < rhs@.len() ==> rhs@[h] == fone(),
        decreases n - rhs@.len(),
    {
        rhs.push(Double::one());
    }
    assert(rhs@ =~= ones(n as nat));
    assert(sigma@.len() == n) by {
        assert(rows(sigma@).len() == n);
    }
    let x = match solve_spd(sigma.as_slice(), rhs.as_slice()) {
        Some(x) => x,
        None => gv,
    };
    let clamped = clamp_positive(&x);
    let values = normalize(&clamped);
    let weights = keyed_by(keys, &values);
    let effective_channels = effective_channels(&r);
    proof {
        lemma_count_finite(n as int);
    }
    CoupledWeights { weights, effective_channels }
}

/// The two set-overlap diagnostics.
#[derive(Clone, Copy, Debug, PartialEq)]
#[non_exhaustive]
pub struct Diagnostics {
    /// The overlap of the top sets: the share of their union that is in all of them.
    pub confidence: Double,
    /// One minus `confidence`, where there are at least two sets.
    pub conflict: Double,
}

/// The id lists of the channels.
pub open spec fn id_lists<Id>(top_sets: Seq<(String, Vec<Id>)>) -> Seq<Seq<Id>> {
    Seq::new(top_sets.len(), |i: int| top_sets[i].1@)
}

/// The ids that are in one of the lists.
pub open spec fn in_any<Id>(lists: Seq<Seq<Id>>) -> Set<Id> {
    Set::new(|id: Id| exists|i: int| 0 <= i < lists.len() && (#[trigger] lists[i]).contains(id))
}

/// The ids that are in all of the lists.
pub open spec fn in_all<Id>(lists: Seq<Seq<Id>>) -> Set<Id> {
    Set::new(|id: Id| forall|i: int| 0 <= i < lists.len() ==> (#[trigger] lists[i]).contains(id))
}

/// The share of the ids in one of the lists that are in all of them.
pub open spec fn overlap_share<Id>(lists: Seq<Seq<Id>>) -> Double {
    fdiv(fcount(in_all(lists).len() as int), fcount(in_any(lists).len() as int))
}

/// There is an overlap to speak of: at least two lists, and an id in one of them.
pub open spec fn has_overlap<Id>(lists: Seq<Seq<Id>>) -> bool {
    lists.len() >= 2 && exists|i: int| 0 <= i < lists.len() && (#[trigger] lists[i]).len() > 0
}

/// The diagnostics of the top lists.
pub open spec fn diagnosed<Id>(lists: Seq<Seq<Id>>) -> Diagnostics {
    if has_overlap(lists) {
        Diagnostics {
            confidence: overlap_share(lists),
            conflict: fsub(fone(), overlap_share(lists)),
        }
    } else {
        Diagnostics { confidence: fzero(), conflict: fzero() }
    }
}

fn id_set<Id: Hash + Eq + Clone>(ids: &Vec<Id>) -> (set: HashSet<Id>)
    requires
        identifies::<Id>(),
    ensures
        set@ == ids@.to_set(),
{
    broadcast use vstd::std_specs::hash::group_hash_axioms;

    let mut set: HashSet<Id> = HashSet::new();
    let mut i: usize = 0;
    assert(set@ =~= ids@.take(0).to_set());
    while i < ids.len()
        invariant
            identifies::<Id>(),
            i <= ids@.len(),
            set@ == ids@.take(i as int).to_set(),
        decreases ids@.len() - i,
    {
        let id = ids[i].clone();
        proof {
            let t = ids@.take(i as int);
            assert(ids@.take(i + 1) =~= t.push(ids@[i as int]));
            assert forall|x: Id| #[trigger] ids@.take(i + 1).to_set().contains(x) == t.to_set().insert(
                ids@[i as int],
            ).contains(x) by {
                let u = t.push(ids@[i as int]);
                if u.contains(x) {
                    let h = choose|h: int| 0 <= h < u.len() && u[h] == x;
                    if h < t.len() {
                        assert(t[h] == x);
                    }
                }
                if t.contains(x) {
                    let h = choose|h: int| 0 <= h < t.len() && t[h] == x;
                    assert(u[h] == x);
                }
                assert(u[t.len() as int] == ids@[i as int]);
            }
            assert(ids@.take(i + 1).to_set() =~= t.to_set().insert(ids@[i as int]));
        }
        set.insert(id);
        i += 1;
    }
    assert(ids@.take(ids@.len() as int) =~= ids@);
    set
}

/// Lists the ids that are in one of the lists, each once.
fn distinct_ids<Id: Hash + Eq + Clone>(top_sets: &[(String, Vec<Id>)]) -> (members: Vec<Id>)
    requires
        identifies::<Id>(),
    ensures
        members@.no_duplicates(),
        members@.to_set() == in_any(id_lists(top_sets@)),
{
    broadcast use vstd::std_specs::hash::group_hash_axioms;

    let mut members: Vec<Id> = Vec::new();
    let mut seen: HashSet<Id> = HashSet::new();
    let mut i: usize = 0;
    while i < top_sets.len()
        invariant
            identifies::<Id>(),
            i <= top_sets@.len(),
            members@.no_duplicates(),
            forall|x: Id| #[trigger] seen@.contains(x) <==> members@.contains(x),
            forall|x: Id| #[trigger]
                members@.contains(x) <==> exists|h: int|
                    0 <= h < i && (#[trigger] id_lists(top_sets@)[h]).contains(x),
        decreases top_sets@.len() - i,
    {
        let ids = &top_sets[i].1;
        let ghost start = members@;
        let mut j: usize = 0;
        while j < ids.len()
            invariant
                identifies::<Id>(),
                j <= ids@.len(),
                members@.no_duplicates(),
                forall|x: Id| #[trigger] seen@.contains(x) <==> members@.contains(x),
                forall|x: Id| #[trigger]
                    members@.contains(x) <==> start.contains(x) || exists|h: int|
                        0 <= h < j && #[trigger] ids@[h] == x,
            decreases ids@.len() - j,
        {
            let id = ids[j].clone();
            let ghost before = members@;
            if !seen.contains(&id) {
                seen.insert(id.clone());
                members.push(id);
                proof {
                    assert forall|x: Id| #[trigger] members@.contains(x) <==> before.contains(x)
                        || x == ids@[j as int] by {
                        if before.contains(x) {
                            let h = choose|h: int| 0 <= h < before.len() && before[h] == x;
                            assert(members@[h] == x);
                        }
                        if members@.contains(x) {
                            let h = choose|h: int| 0 <= h < members@.len() && members@[h] == x;
                            if h < before.len() {
                                assert(before[h] == x);
                            }
                        }
                        assert(members@[before.len() as int] == ids@[j as int]);
                    }
                }
            }
            proof {
                assert forall|x: Id| #[trigger] members@.contains(x) <==> start.contains(x)
                    || exists|h: int| 0 <= h < j + 1 && #[trigger] ids@[h] == x by {
                    assert(members@.contains(x) <==> before.contains(x) || x == ids@[j as int]);
                    if x == ids@[j as int] {
                        assert(0 <= j < j + 1 && ids@[j as int] == x);
                    }
                    if exists|h: int| 0 <= h < j + 1 && #[trigger] ids@[h] == x {
                        let h = choose|h: int| 0 <= h < j + 1 && #[trigger] ids@[h] == x;
                        if h < j {
                            assert(before.contains(x));
                        }
                    }
                }
            }
            j += 1;
        }
        proof {
            assert forall|x: Id| #[trigger] members@.contains(x) <==> exists|h: int|
                0 <= h < i + 1 && (#[trigger] id_lists(top_sets@)[h]).contains(x) by {
                if id_lists(top_sets@)[i as int].contains(x) {
                    let h = choose|h: int| 0 <= h < ids@.len() && ids@[h] == x;
                    assert(ids@[h] == x);
                }
                if exists|h: int| 0 <= h < i + 1 && (#[trigger] id_lists(top_sets@)[h]).contains(x) {
                    let h = choose|h: int|
                        0 <= h < i + 1 && (#[trigger] id_lists(top_sets@)[h]).contains(x);
                    if h < i {
                        assert(start.contains(x));
                    }
                }
            }
        }
        i += 1;
    }
    assert(members@.to_set() =~= in_any(id_lists(top_sets@)));
    members
}

/// Computes the two set-overlap diagnostics from top-set membership alone.
///
/// `top_sets` is each channel's list of top ids. Fewer than two lists, or no id at all,
/// yields zero for both.
#[must_use]
pub fn diagnostics<Id: Hash + Eq + Clone>(top_sets: &[(String, Vec<Id>)]) -> (d: Diagnostics)
    requires
        identifies::<Id>(),
    ensures
        d == diagnosed(id_lists(top_sets@)),
{
    broadcast use vstd::std_specs::hash::group_hash_axioms;

    if top_sets.len() < 2 {
        return Diagnostics { confidence: Double::zero(), conflict: Double::zero() };
    }
    let members = distinct_ids(top_sets);
    if members.len() == 0 {
        proof {
            if has_overlap(id_lists(top_sets@)) {
                let i = choose|i: int|
                    0 <= i < top_sets@.len() && (#[trigger] id_lists(top_sets@)[i]).len() > 0;
                let id = id_lists(top_sets@)[i][0];
                assert(id_lists(top_sets@)[i].contains(id));
                assert(in_any(id_lists(top_sets@)).contains(id));
                assert(members@.contains(id));
            }
        }
        return Diagnostics { confidence: Double::zero(), conflict: Double::zero() };
    }
    proof {
        let id = members@[0];
        assert(members@.to_set().contains(id));
        assert(in_any(id_lists(top_sets@)).contains(id));
        let i = choose|i: int| 0 <= i < top_sets@.len() && (#[trigger] id_lists(top_sets@)[i]).contains(id);
        assert(id_lists(top_sets@)[i].len() > 0);
        assert(has_overlap(id_lists(top_sets@)));
    }
    let mut sets: Vec<HashSet<Id>> = Vec::new();
    let mut i: usize = 0;
    while i < top_sets.len()
        invariant
            identifies::<Id>(),
            i <= top_sets@.len(),
            sets@.len() == i,
            forall|h: int| 0 <= h < i ==> (#[trigger] sets@[h])@ == id_lists(top_sets@)[h].to_set(),
        decreases top_sets@.len() - i,
    {
        sets.push(id_set(&top_sets[i].1));
        i += 1;
    }
    let mut intersection: usize = 0;
    let ghost mut common: Seq<Id> = Seq::empty();
    let mut k: usize = 0;
    while k < members.len()
        invariant
            identifies::<Id>(),
            sets@.len() == top_sets@.len(),
            forall|h: int|
                0 <= h < sets@.len() ==> (#[trigger] sets@[h])@ == id_lists(top_sets@)[h].to_set(),
            members@.no_duplicates(),
            k <= members@.len(),
            intersection == common.len(),
            intersection <= k,
            common.no_duplicates(),
            forall|x: Id| #[trigger]
                common.contains(x) <==> in_all(id_lists(top_sets@)).contains(x) && members@.take(
                    k as int,
                ).contains(x),
        decreases members@.len() - k,
    {
        let everywhere: bool = in_every_set(&sets, &members[k]);
        let ghost id = members@[k as int];
        proof {
            assert(everywhere == in_all(id_lists(top_sets@)).contains(id)) by {
                if everywhere {
                    assert forall|h: int| 0 <= h < top_sets@.len() implies (#[trigger] id_lists(
                        top_sets@,
                    )[h]).contains(id) by {
                        assert(sets@[h]@.contains(id));
                    }
                } else {
                    let h = choose|h: int| 0 <= h < sets@.len() && !(#[trigger] sets@[h])@.contains(id);
                    assert(!id_lists(top_sets@)[h].contains(id));
                }
            }
            let t = members@.take(k as int);
            let u = members@.take(k + 1);
            assert(u =~= t.push(id));
            assert(!t.contains(id)) by {
                if t.contains(id) {
                    let h = choose|h: int| 0 <= h < t.len() && t[h] == id;
                    assert(members@[h] == members@[k as int]);
                }
            }
            assert forall|x: Id| #[trigger] u.contains(x) <==> t.contains(x) || x == id by {
                if t.contains(x) {
                    let h = choose|h: int| 0 <= h < t.len() && t[h] == x;
                    assert(u[h] == x);
                }
                if u.contains(x) {
                    let h = choose|h: int| 0 <= h < u.len() && u[h] == x;
                    if h < t.len() {
                        assert(t[h] == x);
                    }
                }
                assert(u[k as int] == id);
            }
            if everywhere {
                let before = common;
                common = common.push(id);
                assert(!before.contains(id));
                assert forall|x: Id| #[trigger] common.contains(x) <==> before.contains(x) || x
                    == id by {
                    if before.contains(x) {
                        let h = choose|h: int| 0 <= h < before.len() && before[h] == x;
                        assert(common[h] == x);
                    }
                    if common.contains(x) {
                        let h = choose|h: int| 0 <= h < common.len() && common[h] == x;
                        if h < before.len() {
                            assert(before[h] == x);
                        }
                    }
                    assert(common[before.len() as int] == id);
                }
            }
        }
        if everywhere {
            intersection += 1;
        }
        k += 1;
    }
    proof {
        members@.unique_seq_to_set();
        common.unique_seq_to_set();
        assert(members@.take(members@.len() as int) =~= members@);
        assert forall|x: Id| #[trigger] common.to_set().contains(x) == in_all(id_lists(top_sets@)).contains(
            x,
        ) by {
            if in_all(id_lists(top_sets@)).contains(x) {
                assert(id_lists(top_sets@)[0].contains(x));
                assert(in_any(id_lists(top_sets@)).contains(x));
                assert(members@.to_set().contains(x));
            }
            assert(common.contains(x) <==> in_all(id_lists(top_sets@)).contains(x) && members@.contains(x));
        }
        assert(common.to_set() =~= in_all(id_lists(top_sets@)));
    }
    let jaccard = Double::of_count(intersection) / Double::of_count(members.len());
    Diagnostics { confidence: jaccard, conflict: Double::one() - jaccard }
}

fn in_every_set<Id: Hash + Eq + Clone>(sets: &Vec<HashSet<Id>>, id: &Id) -> (r: bool)
    requires
        identifies::<Id>(),
    ensures
        r <==> forall|h: int| 0 <= h < sets@.len() ==> (#[trigger] sets@[h])@.contains(*id),
{
    broadcast use vstd::std_specs::hash::group_hash_axioms;

    let mut i: usize = 0;
    while i < sets.len()
        invariant
            identifies::<Id>(),
            i <= sets@.len(),
            forall|h: int| 0 <= h < i ==> (#[trigger] sets@[h])@.contains(*id),
        decreases sets@.len() - i,
    {
        if !sets[i].contains(id) {
            assert(!sets@[i as int]@.contains(*id));
            return false;
        }
        i += 1;
    }
    true
}

} // verus!
